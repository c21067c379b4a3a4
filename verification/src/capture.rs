//! Capture resolution: opposing groups that lose their last liberty to a
//! just-played stone are found, and removed from the board in one atomic
//! batch, so that several doomed groups all fall together.

use vstd::prelude::*;
use crate::board::{adjacent, in_bounds, opponent, opponent_of, Board, Stone};
use crate::group::{
    blank_mask, find_group, group_of, lemma_group_eq, lemma_members_push, members,
};
use crate::liberty::{has_liberties, liberty_set};

verus! {

/// The cells captured when `color` has just played at `i` on board `g`:
/// every cell of an opposing group that borders `i` and has no liberty left.
pub open spec fn captured_set(g: Seq<Stone>, n: int, i: int, color: Stone) -> Set<int> {
    Set::new(
        |j: int|
            exists|d: int|
                (#[trigger] adjacent(n, i, d)) && g[d] == opponent(color) && liberty_set(
                    g,
                    n,
                    group_of(g, n, d),
                ).is_empty() && group_of(g, n, d).contains(j),
    )
}

/// Board `g` after the captures triggered by the stone at `i` are applied.
pub open spec fn after_captures(g: Seq<Stone>, n: int, i: int, color: Stone) -> Seq<Stone> {
    Seq::new(
        g.len(),
        |j: int|
            if captured_set(g, n, i, color).contains(j) {
                Stone::Empty
            } else {
                g[j]
            },
    )
}

/// `j` falls to one of the first `upto` listed neighbors of the played stone.
spec fn marked_by(g: Seq<Stone>, n: int, s: Seq<usize>, upto: int, color: Stone, j: int) -> bool {
    exists|m: int|
        0 <= m < upto && {
            let d = (#[trigger] s[m]) as int;
            g[d] == opponent(color) && liberty_set(g, n, group_of(g, n, d)).is_empty()
                && group_of(g, n, d).contains(j)
        }
}

/// Removes every opposing group that the stone just played at `i` deprived of
/// its last liberty, all in one batch, and reports the removed coordinates.
pub fn resolve(board: &mut Board, i: usize, color: Stone) -> (removed: Vec<usize>)
    requires
        old(board).wf(),
        in_bounds(old(board).dim(), i as int),
        old(board).grid()[i as int] == color,
        color != Stone::Empty,
    ensures
        final(board).wf(),
        final(board).dim() == old(board).dim(),
        final(board).grid() == after_captures(
            old(board).grid(),
            old(board).dim(),
            i as int,
            color,
        ),
        members(removed@) == captured_set(old(board).grid(), old(board).dim(), i as int, color),
        forall|k: int| 0 <= k < removed@.len()
            ==> in_bounds(old(board).dim(), #[trigger] removed@[k] as int),
        forall|k1: int, k2: int| 0 <= k1 < k2 < removed@.len() ==> removed@[k1] != removed@[k2],
{
    let n = board.size();
    let nn = n * n;
    let ghost dim = board.dim();
    let ghost grid = board.grid();
    let opp = opponent_of(color);
    let nbrs = board.neighbors(i);
    let mut mask = blank_mask(nn);
    let mut removed: Vec<usize> = Vec::new();
    let mut t: usize = 0;
    #[verifier::loop_isolation(false)]
    while t < nbrs.len()
        invariant
            t <= nbrs@.len(),
            board.wf(),
            board.dim() == dim,
            board.grid() == grid,
            mask@.len() == nn,
            forall|j: int| 0 <= j < nn
                ==> (mask@[j] <==> marked_by(grid, dim, nbrs@, t as int, color, j)),
            forall|k: int| 0 <= k < removed@.len()
                ==> in_bounds(dim, #[trigger] removed@[k] as int) && mask@[removed@[k] as int],
            forall|k1: int, k2: int| 0 <= k1 < k2 < removed@.len() ==> removed@[k1] != removed@[k2],
            forall|j: int| 0 <= j < nn && mask@[j] ==> members(removed@).contains(j),
        decreases nbrs@.len() - t,
    {
        let d = nbrs[t];
        proof {
            assert(adjacent(dim, i as int, d as int));
        }
        if board.at(d) == opp && !mask[d] {
            let grp = find_group(board, d);
            if !has_liberties(board, &grp) {
                let mut u: usize = 0;
                #[verifier::loop_isolation(false)]
                while u < grp.len()
                    invariant
                        u <= grp@.len(),
                        mask@.len() == nn,
                        forall|j: int| 0 <= j < nn
                            ==> (mask@[j] <==> (marked_by(grid, dim, nbrs@, t as int, color, j)
                                || (exists|uu: int|
                                    0 <= uu < u && (#[trigger] grp@[uu]) as int == j))),
                        forall|k: int| 0 <= k < removed@.len()
                            ==> in_bounds(dim, #[trigger] removed@[k] as int)
                                && mask@[removed@[k] as int],
                        forall|k1: int, k2: int| 0 <= k1 < k2 < removed@.len()
                            ==> removed@[k1] != removed@[k2],
                        forall|j: int| 0 <= j < nn && mask@[j] ==> members(removed@).contains(j),
                    decreases grp@.len() - u,
                {
                    let jj = grp[u];
                    if !mask[jj] {
                        proof {
                            lemma_members_push(removed@, jj);
                        }
                        mask[jj] = true;
                        removed.push(jj);
                    }
                    proof {
                        assert((#[trigger] grp@[u as int]) as int == jj as int);
                    }
                    u = u + 1;
                }
                proof {
                    assert forall|j: int| 0 <= j < nn implies (mask@[j] <==> marked_by(
                        grid,
                        dim,
                        nbrs@,
                        t as int + 1,
                        color,
                        j,
                    )) by {
                        if mask@[j] {
                            if marked_by(grid, dim, nbrs@, t as int, color, j) {
                                let m = choose|m: int|
                                    0 <= m < t as int && {
                                        let dd = (#[trigger] nbrs@[m]) as int;
                                        grid[dd] == opponent(color) && liberty_set(
                                            grid,
                                            dim,
                                            group_of(grid, dim, dd),
                                        ).is_empty() && group_of(grid, dim, dd).contains(j)
                                    };
                                assert(marked_by(grid, dim, nbrs@, t as int + 1, color, j));
                            } else {
                                assert(members(grp@).contains(j));
                                assert(group_of(grid, dim, d as int).contains(j));
                                assert((nbrs@[t as int]) as int == d as int);
                                assert(marked_by(grid, dim, nbrs@, t as int + 1, color, j));
                            }
                        }
                        if marked_by(grid, dim, nbrs@, t as int + 1, color, j) {
                            let m = choose|m: int|
                                0 <= m < t as int + 1 && {
                                    let dd = (#[trigger] nbrs@[m]) as int;
                                    grid[dd] == opponent(color) && liberty_set(
                                        grid,
                                        dim,
                                        group_of(grid, dim, dd),
                                    ).is_empty() && group_of(grid, dim, dd).contains(j)
                                };
                            if m < t as int {
                                assert(marked_by(grid, dim, nbrs@, t as int, color, j));
                            } else {
                                assert(group_of(grid, dim, d as int).contains(j));
                                assert(members(grp@).contains(j));
                                let uu = choose|uu: int|
                                    0 <= uu < grp@.len() && (#[trigger] grp@[uu]) as int == j;
                                assert(mask@[j]);
                            }
                        }
                    }
                }
            } else {
                proof {
                    assert(members(grp@) == group_of(grid, dim, d as int));
                    assert forall|j: int| 0 <= j < nn implies (mask@[j] <==> marked_by(
                        grid,
                        dim,
                        nbrs@,
                        t as int + 1,
                        color,
                        j,
                    )) by {
                        if marked_by(grid, dim, nbrs@, t as int + 1, color, j) {
                            let m = choose|m: int|
                                0 <= m < t as int + 1 && {
                                    let dd = (#[trigger] nbrs@[m]) as int;
                                    grid[dd] == opponent(color) && liberty_set(
                                        grid,
                                        dim,
                                        group_of(grid, dim, dd),
                                    ).is_empty() && group_of(grid, dim, dd).contains(j)
                                };
                            assert(m < t as int);
                            assert(marked_by(grid, dim, nbrs@, t as int, color, j));
                        }
                        if marked_by(grid, dim, nbrs@, t as int, color, j) {
                            let m = choose|m: int|
                                0 <= m < t as int && {
                                    let dd = (#[trigger] nbrs@[m]) as int;
                                    grid[dd] == opponent(color) && liberty_set(
                                        grid,
                                        dim,
                                        group_of(grid, dim, dd),
                                    ).is_empty() && group_of(grid, dim, dd).contains(j)
                                };
                            assert(marked_by(grid, dim, nbrs@, t as int + 1, color, j));
                        }
                    }
                }
            }
        } else {
            proof {
                assert forall|j: int| 0 <= j < nn implies (mask@[j] <==> marked_by(
                    grid,
                    dim,
                    nbrs@,
                    t as int + 1,
                    color,
                    j,
                )) by {
                    if marked_by(grid, dim, nbrs@, t as int + 1, color, j) {
                        let m = choose|m: int|
                            0 <= m < t as int + 1 && {
                                let dd = (#[trigger] nbrs@[m]) as int;
                                grid[dd] == opponent(color) && liberty_set(
                                    grid,
                                    dim,
                                    group_of(grid, dim, dd),
                                ).is_empty() && group_of(grid, dim, dd).contains(j)
                            };
                        if m == t as int {
                            assert(grid[d as int] == opponent(color));
                            assert(mask@[d as int]);
                            let mp = choose|mp: int|
                                0 <= mp < t as int && {
                                    let dd = (#[trigger] nbrs@[mp]) as int;
                                    grid[dd] == opponent(color) && liberty_set(
                                        grid,
                                        dim,
                                        group_of(grid, dim, dd),
                                    ).is_empty() && group_of(grid, dim, dd).contains(d as int)
                                };
                            let dp = nbrs@[mp] as int;
                            assert(group_of(grid, dim, dp).contains(d as int));
                            lemma_group_eq(grid, dim, dp, d as int);
                            assert(group_of(grid, dim, dp).contains(j));
                            assert(marked_by(grid, dim, nbrs@, t as int, color, j));
                        } else {
                            assert(marked_by(grid, dim, nbrs@, t as int, color, j));
                        }
                    }
                    if marked_by(grid, dim, nbrs@, t as int, color, j) {
                        let m = choose|m: int|
                            0 <= m < t as int && {
                                let dd = (#[trigger] nbrs@[m]) as int;
                                grid[dd] == opponent(color) && liberty_set(
                                    grid,
                                    dim,
                                    group_of(grid, dim, dd),
                                ).is_empty() && group_of(grid, dim, dd).contains(j)
                            };
                        assert(marked_by(grid, dim, nbrs@, t as int + 1, color, j));
                    }
                }
            }
        }
        t = t + 1;
    }
    proof {
        assert forall|j: int| members(removed@).contains(j) implies captured_set(
            grid,
            dim,
            i as int,
            color,
        ).contains(j) by {
            let k = choose|k: int| 0 <= k < removed@.len() && (#[trigger] removed@[k]) as int == j;
            assert(mask@[j]);
            let m = choose|m: int|
                0 <= m < nbrs@.len() && {
                    let dd = (#[trigger] nbrs@[m]) as int;
                    grid[dd] == opponent(color) && liberty_set(
                        grid,
                        dim,
                        group_of(grid, dim, dd),
                    ).is_empty() && group_of(grid, dim, dd).contains(j)
                };
            assert(adjacent(dim, i as int, nbrs@[m] as int));
        }
        assert forall|j: int| captured_set(grid, dim, i as int, color).contains(j)
            implies members(removed@).contains(j) by {
            let d0 = choose|d0: int|
                (#[trigger] adjacent(dim, i as int, d0)) && grid[d0] == opponent(color)
                    && liberty_set(grid, dim, group_of(grid, dim, d0)).is_empty() && group_of(
                    grid,
                    dim,
                    d0,
                ).contains(j);
            let m = choose|m: int| 0 <= m < nbrs@.len() && (#[trigger] nbrs@[m]) as int == d0;
            assert(marked_by(grid, dim, nbrs@, nbrs@.len() as int, color, j));
            assert(in_bounds(dim, j)) by {
                crate::group::lemma_group_members(grid, dim, d0);
            }
            assert(mask@[j]);
        }
        assert(members(removed@) =~= captured_set(grid, dim, i as int, color));
    }
    let mut w: usize = 0;
    #[verifier::loop_isolation(false)]
    while w < removed.len()
        invariant
            w <= removed@.len(),
            board.wf(),
            board.dim() == dim,
            forall|j: int| 0 <= j < nn
                ==> board.grid()[j] == (if exists|u: int|
                    0 <= u < w && (#[trigger] removed@[u]) as int == j {
                    Stone::Empty
                } else {
                    grid[j]
                }),
        decreases removed@.len() - w,
    {
        let jj = removed[w];
        board.put(jj, Stone::Empty);
        proof {
            assert forall|j: int| 0 <= j < nn implies board.grid()[j] == (if exists|u: int|
                0 <= u < w as int + 1 && (#[trigger] removed@[u]) as int == j {
                Stone::Empty
            } else {
                grid[j]
            }) by {
                if j == jj as int {
                    assert((#[trigger] removed@[w as int]) as int == j);
                } else {
                    if exists|u: int| 0 <= u < w as int && (#[trigger] removed@[u]) as int == j {
                        let u = choose|u: int|
                            0 <= u < w as int && (#[trigger] removed@[u]) as int == j;
                        assert(0 <= u < w as int + 1);
                    }
                }
            }
        }
        w = w + 1;
    }
    proof {
        assert forall|j: int| 0 <= j < nn implies board.grid()[j] == after_captures(
            grid,
            dim,
            i as int,
            color,
        )[j] by {
            if captured_set(grid, dim, i as int, color).contains(j) {
                let k = choose|k: int|
                    0 <= k < removed@.len() && (#[trigger] removed@[k]) as int == j;
                assert(board.grid()[j] == Stone::Empty);
            } else {
                if exists|u: int| 0 <= u < removed@.len() && (#[trigger] removed@[u]) as int == j {
                    let u = choose|u: int|
                        0 <= u < removed@.len() && (#[trigger] removed@[u]) as int == j;
                    assert(members(removed@).contains(j));
                    assert(false);
                }
            }
        }
        assert(board.grid() =~= after_captures(grid, dim, i as int, color));
    }
    removed
}

} // verus!
