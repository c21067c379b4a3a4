//! The game session: board plus turn state, and the one-move-at-a-time state
//! machine that validates, commits, captures and alternates as one atomic
//! transaction. A rejected move changes nothing, not even the turn.

use vstd::prelude::*;
use crate::board::{in_bounds, opponent, opponent_of, Board, Stone};
use crate::capture::{captured_set, resolve};
use crate::group::members;
use crate::rules::{after_move, legal, placed, rejection, validate, MoveError};

verus! {

/// One game session. The session owns the board for its whole life; callers
/// submit moves and read the board back through the accessors.
pub struct Game {
    board: Board,
    current: Stone,
    active: bool,
}

impl Game {
    /// The board's side length.
    pub closed spec fn dim(self) -> int {
        self.board.dim()
    }

    /// The cells of the board, row-major: cell (r, c) at index r * dim + c.
    pub closed spec fn grid(self) -> Seq<Stone> {
        self.board.grid()
    }

    /// The player to move.
    pub closed spec fn player(self) -> Stone {
        self.current
    }

    /// The session still accepts moves.
    pub closed spec fn in_progress(self) -> bool {
        self.active
    }

    /// Invariant: a well-formed board and a real color to move.
    pub closed spec fn wf(self) -> bool {
        &&& self.board.wf()
        &&& (self.current == Stone::Black || self.current == Stone::White)
    }

    /// What `wf` guarantees, for callers that reason from the outside.
    pub proof fn lemma_wf(self)
        requires
            self.wf(),
        ensures
            self.dim() >= 1,
            self.dim() * self.dim() <= usize::MAX,
            self.grid().len() == self.dim() * self.dim(),
            self.player() == Stone::Black || self.player() == Stone::White,
    {
    }

    /// A fresh session: an all-empty `size` by `size` board, Black to move.
    pub fn new(size: usize) -> (g: Game)
        requires
            1 <= size,
            size * size <= usize::MAX,
        ensures
            g.wf(),
            g.dim() == size,
            g.player() == Stone::Black,
            g.in_progress(),
            forall|j: int| in_bounds(size as int, j) ==> g.grid()[j] == Stone::Empty,
    {
        Game { board: Board::new(size), current: Stone::Black, active: true }
    }

    /// The player whose turn it is.
    pub fn current_player(&self) -> (c: Stone)
        ensures
            c == self.player(),
    {
        self.current
    }

    /// The side length of the board.
    pub fn board_size(&self) -> (r: usize)
        ensures
            r as int == self.dim(),
    {
        self.board.size()
    }

    /// The stone at coordinate (row, col).
    pub fn cell_state(&self, row: usize, col: usize) -> (s: Stone)
        requires
            self.wf(),
            (row as int) < self.dim(),
            (col as int) < self.dim(),
        ensures
            s == self.grid()[(row as int) * self.dim() + (col as int)],
    {
        let n = self.board.size();
        proof {
            assert((row as int) * (n as int) + (col as int) < (n as int) * (n as int))
                by (nonlinear_arith)
                requires
                    (row as int) < (n as int),
                    (col as int) < (n as int),
                    n >= 1,
            ;
        }
        self.board.at(row * n + col)
    }

    /// The number of distinct move targets: one per cell.
    pub fn action_space_size(&self) -> (r: usize)
        requires
            self.wf(),
        ensures
            r as int == self.dim() * self.dim(),
    {
        let n = self.board.size();
        n * n
    }

    /// The number of observable cells: one per point of the grid.
    pub fn observation_space_size(&self) -> (r: usize)
        requires
            self.wf(),
        ensures
            r as int == self.dim() * self.dim(),
    {
        let n = self.board.size();
        n * n
    }

    /// Ends the session by external decision: no further move is accepted.
    pub fn end_session(&mut self)
        ensures
            final(self).wf() == old(self).wf(),
            final(self).dim() == old(self).dim(),
            final(self).grid() == old(self).grid(),
            final(self).player() == old(self).player(),
            !final(self).in_progress(),
    {
        self.active = false;
    }

    /// Submits a move at the flat index `action` for the player to move.
    /// An accepted move places the stone, removes every opposing group left
    /// without a liberty, and alternates the turn, all at once; a rejected
    /// move reports its reason and changes nothing.
    pub fn submit_move(&mut self, action: usize) -> (r: Result<Vec<usize>, MoveError>)
        requires
            old(self).wf(),
        ensures
            final(self).wf(),
            final(self).dim() == old(self).dim(),
            final(self).in_progress() == old(self).in_progress(),
            r is Ok <==> old(self).in_progress() && legal(
                old(self).grid(),
                old(self).dim(),
                action as int,
                old(self).player(),
            ),
            r is Err ==> final(self).grid() == old(self).grid() && final(self).player() == old(self).player() && r->Err_0 == (if !old(self).in_progress() {
                MoveError::GameNotInProgress
            } else {
                rejection(old(self).grid(), old(self).dim(), action as int, old(self).player())
            }),
            r is Ok ==> final(self).grid() == after_move(
                old(self).grid(),
                old(self).dim(),
                action as int,
                old(self).player(),
            ) && final(self).player() == opponent(old(self).player()) && members(r->Ok_0@)
                == captured_set(
                placed(old(self).grid(), action as int, old(self).player()),
                old(self).dim(),
                action as int,
                old(self).player(),
            ) && (forall|k1: int, k2: int|
                0 <= k1 < k2 < r->Ok_0@.len() ==> r->Ok_0@[k1] != r->Ok_0@[k2]) && (forall|k: int|
                0 <= k < r->Ok_0@.len() ==> in_bounds(
                    old(self).dim(),
                    (#[trigger] r->Ok_0@[k]) as int,
                )),
    {
        if !self.active {
            return Err(MoveError::GameNotInProgress);
        }
        let color = self.current;
        match validate(&self.board, action, color) {
            Err(e) => Err(e),
            Ok(()) => {
                self.board.put(action, color);
                let removed = resolve(&mut self.board, action, color);
                self.current = opponent_of(color);
                Ok(removed)
            },
        }
    }

    /// Submits a move at coordinate (row, col): the same transaction as
    /// `submit_move`, with each coordinate checked against the side length.
    pub fn submit_move_at(&mut self, row: usize, col: usize) -> (r: Result<Vec<usize>, MoveError>)
        requires
            old(self).wf(),
        ensures
            final(self).wf(),
            final(self).dim() == old(self).dim(),
            final(self).in_progress() == old(self).in_progress(),
            !old(self).in_progress() ==> r == Err::<Vec<usize>, MoveError>(
                MoveError::GameNotInProgress,
            ) && final(self).grid() == old(self).grid() && final(self).player() == old(self).player(),
            old(self).in_progress() && ((row as int) >= old(self).dim() || (col as int) >= old(self).dim()) ==> r == Err::<Vec<usize>, MoveError>(MoveError::OutOfBounds) && final(self).grid() == old(self).grid() && final(self).player() == old(self).player(),
            old(self).in_progress() && (row as int) < old(self).dim() && (col as int) < old(self).dim() ==> ({
                let i = (row as int) * old(self).dim() + (col as int);
                &&& (r is Ok <==> legal(old(self).grid(), old(self).dim(), i, old(self).player()))
                &&& (r is Err ==> final(self).grid() == old(self).grid() && final(self).player()
                    == old(self).player() && r->Err_0 == rejection(
                    old(self).grid(),
                    old(self).dim(),
                    i,
                    old(self).player(),
                ))
                &&& (r is Ok ==> final(self).grid() == after_move(
                    old(self).grid(),
                    old(self).dim(),
                    i,
                    old(self).player(),
                ) && final(self).player() == opponent(old(self).player()) && members(r->Ok_0@)
                    == captured_set(
                    placed(old(self).grid(), i, old(self).player()),
                    old(self).dim(),
                    i,
                    old(self).player(),
                ))
            }),
    {
        if !self.active {
            return Err(MoveError::GameNotInProgress);
        }
        let n = self.board.size();
        if row >= n || col >= n {
            return Err(MoveError::OutOfBounds);
        }
        proof {
            assert((row as int) * (n as int) + (col as int) < (n as int) * (n as int))
                by (nonlinear_arith)
                requires
                    (row as int) < (n as int),
                    (col as int) < (n as int),
                    n >= 1,
            ;
        }
        self.submit_move(row * n + col)
    }
}

} // verus!
