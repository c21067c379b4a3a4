//! Move validation: bounds, occupancy and the suicide rule, decided against a
//! hypothetical board so that a rejected move leaves no observable trace.

use vstd::prelude::*;
use crate::board::{adjacent, in_bounds, opponent, Board, Stone};
use crate::capture::{after_captures, captured_set, resolve};
use crate::group::{find_group, group_of, lemma_group_members, members};
use crate::liberty::{has_liberties, liberty_set};

verus! {

/// Why a candidate move is rejected.
#[derive(Clone, Copy, PartialEq, Eq, Structural, Debug)]
pub enum MoveError {
    OutOfBounds,
    Occupied,
    Suicide,
    GameNotInProgress,
}

/// Board `g` with `color` placed at `i`, before any capture.
pub open spec fn placed(g: Seq<Stone>, i: int, color: Stone) -> Seq<Stone> {
    g.update(i, color)
}

/// The board that results from playing `color` at `i`: the stone is placed,
/// then every opposing group left without a liberty is removed.
pub open spec fn after_move(g: Seq<Stone>, n: int, i: int, color: Stone) -> Seq<Stone> {
    after_captures(placed(g, i, color), n, i, color)
}

/// Playing `color` at `i` would leave the mover's own new group without a
/// liberty even after the move's captures are applied.
pub open spec fn is_suicide(g: Seq<Stone>, n: int, i: int, color: Stone) -> bool {
    liberty_set(
        after_move(g, n, i, color),
        n,
        group_of(after_move(g, n, i, color), n, i),
    ).is_empty()
}

/// The move is legal: on the board, on an empty point, and no suicide.
pub open spec fn legal(g: Seq<Stone>, n: int, i: int, color: Stone) -> bool {
    &&& in_bounds(n, i)
    &&& g[i] == Stone::Empty
    &&& !is_suicide(g, n, i, color)
}

/// The reason an illegal move is rejected, tested in this order: bounds,
/// occupancy, suicide.
pub open spec fn rejection(g: Seq<Stone>, n: int, i: int, color: Stone) -> MoveError {
    if !in_bounds(n, i) {
        MoveError::OutOfBounds
    } else if g[i] != Stone::Empty {
        MoveError::Occupied
    } else {
        MoveError::Suicide
    }
}

/// The cell a stone was just played on is never among its move's captures:
/// captures fall only on the opposing color.
pub proof fn lemma_played_cell_not_captured(g: Seq<Stone>, n: int, i: int, color: Stone)
    requires
        color != Stone::Empty,
        0 <= i < g.len(),
    ensures
        !captured_set(placed(g, i, color), n, i, color).contains(i),
{
    let p = placed(g, i, color);
    if captured_set(p, n, i, color).contains(i) {
        let d = choose|d: int|
            (#[trigger] adjacent(n, i, d)) && p[d] == opponent(color) && liberty_set(
                p,
                n,
                group_of(p, n, d),
            ).is_empty() && group_of(p, n, d).contains(i);
        lemma_group_members(p, n, d);
        assert(p[i] == p[d]);
    }
}

/// Decides a candidate move without touching the caller's board: the stone is
/// placed on a scratch copy, captures are resolved there, and the stone's own
/// group must then hold a liberty.
pub fn validate(board: &Board, i: usize, color: Stone) -> (r: Result<(), MoveError>)
    requires
        board.wf(),
        color != Stone::Empty,
    ensures
        r is Ok <==> legal(board.grid(), board.dim(), i as int, color),
        r is Err ==> r->Err_0 == rejection(board.grid(), board.dim(), i as int, color),
{
    let n = board.size();
    let nn = n * n;
    if i >= nn {
        return Err(MoveError::OutOfBounds);
    }
    if board.at(i) != Stone::Empty {
        return Err(MoveError::Occupied);
    }
    let ghost dim = board.dim();
    let ghost grid = board.grid();
    let mut sim = board.snapshot();
    sim.put(i, color);
    let _removed = resolve(&mut sim, i, color);
    proof {
        assert(sim.grid() == after_move(grid, dim, i as int, color));
    }
    let grp = find_group(&sim, i);
    proof {
        lemma_played_cell_not_captured(grid, dim, i as int, color);
        assert(sim.grid()[i as int] == color);
        assert(members(grp@) == group_of(sim.grid(), dim, i as int));
    }
    if has_liberties(&sim, &grp) {
        Ok(())
    } else {
        Err(MoveError::Suicide)
    }
}

} // verus!
