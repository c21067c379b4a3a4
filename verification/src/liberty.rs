//! Liberty computation: the distinct empty points adjacent to a group,
//! derived from the full group, never from per-stone arithmetic.

use vstd::prelude::*;
use vstd::set::axiom_set_insert_len;
use vstd::set_lib::{lemma_int_range, lemma_len_subset, set_int_range};
use crate::board::{adjacent, in_bounds, Board, Stone};
use crate::group::{blank_mask, connected, group_of, lemma_group_eq, members};

verus! {

/// The liberties of a set of cells: every empty point adjacent to at least one
/// of them. A point adjacent to several cells of the set counts once.
pub open spec fn liberty_set(g: Seq<Stone>, n: int, s: Set<int>) -> Set<int> {
    Set::new(
        |d: int|
            in_bounds(n, d) && g[d] == Stone::Empty && exists|c: int|
                #[trigger] s.contains(c) && adjacent(n, c, d),
    )
}

/// The liberties of a group do not depend on which member seeds the traversal:
/// seeds that reach each other yield one and the same liberty set.
pub proof fn lemma_liberties_seed_independent(g: Seq<Stone>, n: int, a: int, b: int)
    requires
        connected(g, n, a, b),
    ensures
        liberty_set(g, n, group_of(g, n, a)) == liberty_set(g, n, group_of(g, n, b)),
{
    lemma_group_eq(g, n, a, b);
}

/// The indices of the set cells of a mask.
spec fn mask_set(v: Seq<bool>) -> Set<int> {
    Set::new(|j: int| 0 <= j < v.len() && v[j])
}

proof fn lemma_mask_set_finite(v: Seq<bool>)
    ensures
        mask_set(v).finite(),
        mask_set(v).len() <= v.len(),
{
    lemma_int_range(0, v.len() as int);
    assert(mask_set(v).subset_of(set_int_range(0, v.len() as int)));
    lemma_len_subset(mask_set(v), set_int_range(0, v.len() as int));
}

/// `j` is an empty point adjacent to one of the first `upto` listed cells.
spec fn found_by(g: Seq<Stone>, n: int, s: Seq<usize>, upto: int, j: int) -> bool {
    &&& in_bounds(n, j)
    &&& g[j] == Stone::Empty
    &&& exists|kk: int| 0 <= kk < upto && adjacent(n, (#[trigger] s[kk]) as int, j)
}

/// Counts the distinct empty points adjacent to the listed cells: the size of
/// their liberty set, never a sum of per-stone neighbor counts.
pub fn count_liberties(board: &Board, stones: &Vec<usize>) -> (r: usize)
    requires
        board.wf(),
        forall|k: int| 0 <= k < stones@.len()
            ==> in_bounds(board.dim(), #[trigger] stones@[k] as int),
    ensures
        r as int == liberty_set(board.grid(), board.dim(), members(stones@)).len(),
{
    let n = board.size();
    let nn = n * n;
    let ghost dim = board.dim();
    let ghost grid = board.grid();
    let mut mask = blank_mask(nn);
    let mut count: usize = 0;
    let mut k: usize = 0;
    proof {
        assert(mask_set(mask@) =~= Set::empty());
    }
    #[verifier::loop_isolation(false)]
    while k < stones.len()
        invariant
            k <= stones@.len(),
            mask@.len() == nn,
            forall|j: int| 0 <= j < nn
                ==> (mask@[j] <==> found_by(grid, dim, stones@, k as int, j)),
            count as int == mask_set(mask@).len(),
        decreases stones@.len() - k,
    {
        let c = stones[k];
        let nbrs = board.neighbors(c);
        let mut m: usize = 0;
        #[verifier::loop_isolation(false)]
        while m < nbrs.len()
            invariant
                m <= nbrs@.len(),
                mask@.len() == nn,
                forall|j: int| 0 <= j < nn
                    ==> (mask@[j] <==> (found_by(grid, dim, stones@, k as int, j) || (in_bounds(
                        dim,
                        j,
                    ) && grid[j] == Stone::Empty && exists|mm: int|
                        0 <= mm < m && (#[trigger] nbrs@[mm]) as int == j))),
                count as int == mask_set(mask@).len(),
            decreases nbrs@.len() - m,
        {
            let d = nbrs[m];
            proof {
                assert(adjacent(dim, c as int, d as int));
            }
            if board.at(d) == Stone::Empty && !mask[d] {
                proof {
                    lemma_mask_set_finite(mask@);
                    axiom_set_insert_len(mask_set(mask@), d as int);
                    assert(mask_set(mask@.update(d as int, true)) =~= mask_set(mask@).insert(
                        d as int,
                    ));
                    lemma_mask_set_finite(mask@.update(d as int, true));
                }
                mask[d] = true;
                count = count + 1;
                proof {
                    assert((#[trigger] nbrs@[m as int]) as int == d as int);
                }
            }
            m = m + 1;
        }
        proof {
            assert forall|j: int| 0 <= j < nn implies (mask@[j] <==> found_by(
                grid,
                dim,
                stones@,
                k as int + 1,
                j,
            )) by {
                if mask@[j] {
                    if found_by(grid, dim, stones@, k as int, j) {
                        let kk = choose|kk: int|
                            0 <= kk < k as int && adjacent(dim, (#[trigger] stones@[kk]) as int, j);
                        assert(adjacent(dim, stones@[kk] as int, j));
                        assert(found_by(grid, dim, stones@, k as int + 1, j));
                    } else {
                        let mm = choose|mm: int|
                            0 <= mm < m && (#[trigger] nbrs@[mm]) as int == j;
                        assert(adjacent(dim, (stones@[k as int]) as int, j));
                        assert(found_by(grid, dim, stones@, k as int + 1, j));
                    }
                }
                if found_by(grid, dim, stones@, k as int + 1, j) {
                    let kk = choose|kk: int|
                        0 <= kk < k as int + 1 && adjacent(dim, (#[trigger] stones@[kk]) as int, j);
                    if kk < k as int {
                        assert(found_by(grid, dim, stones@, k as int, j));
                    } else {
                        assert(adjacent(dim, c as int, j));
                        let w = choose|w: int|
                            0 <= w < nbrs@.len() && (#[trigger] nbrs@[w]) as int == j;
                        assert(mask@[j]);
                    }
                }
            }
        }
        k = k + 1;
    }
    proof {
        assert forall|j: int| mask_set(mask@).contains(j) implies liberty_set(
            grid,
            dim,
            members(stones@),
        ).contains(j) by {
            let kk = choose|kk: int|
                0 <= kk < stones@.len() && adjacent(dim, (#[trigger] stones@[kk]) as int, j);
            assert(members(stones@).contains(stones@[kk] as int));
            assert(adjacent(dim, stones@[kk] as int, j));
        }
        assert forall|j: int| liberty_set(grid, dim, members(stones@)).contains(j)
            implies mask_set(mask@).contains(j) by {
            let c0 = choose|c0: int| #[trigger]
                members(stones@).contains(c0) && adjacent(dim, c0, j);
            let kk = choose|kk: int| 0 <= kk < stones@.len() && (#[trigger] stones@[kk]) as int
                == c0;
            assert(adjacent(dim, stones@[kk] as int, j));
            assert(found_by(grid, dim, stones@, stones@.len() as int, j));
        }
        assert(mask_set(mask@) =~= liberty_set(grid, dim, members(stones@)));
    }
    count
}

/// Answers whether the listed cells have any liberty at all, stopping at the
/// first empty neighbor found.
pub fn has_liberties(board: &Board, stones: &Vec<usize>) -> (r: bool)
    requires
        board.wf(),
        forall|k: int| 0 <= k < stones@.len()
            ==> in_bounds(board.dim(), #[trigger] stones@[k] as int),
    ensures
        r <==> !liberty_set(board.grid(), board.dim(), members(stones@)).is_empty(),
{
    let n = board.size();
    let ghost dim = board.dim();
    let ghost grid = board.grid();
    let mut k: usize = 0;
    #[verifier::loop_isolation(false)]
    while k < stones.len()
        invariant
            k <= stones@.len(),
            forall|j: int| !found_by(grid, dim, stones@, k as int, j),
        decreases stones@.len() - k,
    {
        let c = stones[k];
        let nbrs = board.neighbors(c);
        let mut m: usize = 0;
        #[verifier::loop_isolation(false)]
        while m < nbrs.len()
            invariant
                m <= nbrs@.len(),
                forall|j: int| !found_by(grid, dim, stones@, k as int, j),
                forall|mm: int| 0 <= mm < m
                    ==> grid[(#[trigger] nbrs@[mm]) as int] != Stone::Empty,
            decreases nbrs@.len() - m,
        {
            let d = nbrs[m];
            if board.at(d) == Stone::Empty {
                proof {
                    assert(stones@[k as int] == c);
                    assert(members(stones@).contains(c as int));
                    assert(adjacent(dim, c as int, d as int));
                    assert(liberty_set(grid, dim, members(stones@)).contains(d as int));
                }
                return true;
            }
            m = m + 1;
        }
        proof {
            assert forall|j: int| !(#[trigger] found_by(grid, dim, stones@, k as int + 1, j)) by {
                if found_by(grid, dim, stones@, k as int + 1, j) {
                    let kk = choose|kk: int|
                        0 <= kk < k as int + 1 && adjacent(dim, (#[trigger] stones@[kk]) as int, j);
                    if kk == k as int {
                        let w = choose|w: int|
                            0 <= w < nbrs@.len() && (#[trigger] nbrs@[w]) as int == j;
                        assert(grid[nbrs@[w] as int] != Stone::Empty);
                    } else {
                        assert(found_by(grid, dim, stones@, k as int, j));
                    }
                }
            }
        }
        k = k + 1;
    }
    proof {
        assert forall|j: int| !(#[trigger] liberty_set(grid, dim, members(stones@)).contains(j)) by {
            if liberty_set(grid, dim, members(stones@)).contains(j) {
                let c0 = choose|c0: int| #[trigger]
                    members(stones@).contains(c0) && adjacent(dim, c0, j);
                let kk = choose|kk: int| 0 <= kk < stones@.len() && (#[trigger] stones@[kk]) as int
                    == c0;
                assert(adjacent(dim, stones@[kk] as int, j));
                assert(found_by(grid, dim, stones@, stones@.len() as int, j));
            }
        }
        assert(liberty_set(grid, dim, members(stones@)) =~= Set::empty());
    }
    false
}

} // verus!
