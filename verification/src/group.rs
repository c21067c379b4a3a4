//! Connected-group discovery: the reachability model on same-color stones,
//! the flood-fill traversal that realizes it, and the partition laws.

use vstd::prelude::*;
use crate::board::{adjacent, in_bounds, Board, Stone};

verus! {

/// `p` walks through cells of color `color`: it is nonempty, every cell on it
/// is in bounds and of that color, and consecutive cells are adjacent.
pub open spec fn is_path(g: Seq<Stone>, n: int, color: Stone, p: Seq<int>) -> bool {
    &&& p.len() > 0
    &&& forall|k: int| 0 <= k < p.len() ==> in_bounds(n, #[trigger] p[k]) && g[p[k]] == color
    &&& forall|k: int| 1 <= k < p.len() ==> adjacent(n, p[k - 1], #[trigger] p[k])
}

/// `b` can be reached from `a` by adjacency steps through cells of `a`'s color.
pub open spec fn connected(g: Seq<Stone>, n: int, a: int, b: int) -> bool {
    exists|p: Seq<int>| is_path(g, n, g[a], p) && p.first() == a && p.last() == b
}

/// The maximal connected set of same-color cells containing `a`.
pub open spec fn group_of(g: Seq<Stone>, n: int, a: int) -> Set<int> {
    Set::new(|b: int| connected(g, n, a, b))
}

/// The set of flat indices that a vector of coordinates holds.
pub open spec fn members(s: Seq<usize>) -> Set<int> {
    Set::new(|j: int| exists|k: int| 0 <= k < s.len() && (#[trigger] s[k]) as int == j)
}

/// Pushing a coordinate inserts exactly it into the vector's member set.
pub proof fn lemma_members_push(s: Seq<usize>, x: usize)
    ensures
        members(s.push(x)) == members(s).insert(x as int),
{
    assert forall|j: int| members(s.push(x)).contains(j)
        implies members(s).insert(x as int).contains(j) by {
        let k = choose|k: int| 0 <= k < s.push(x).len() && (#[trigger] s.push(x)[k]) as int == j;
        if k < s.len() {
            assert(s[k] as int == j);
        } else {
            assert(j == x as int);
        }
    }
    assert forall|j: int| members(s).insert(x as int).contains(j)
        implies members(s.push(x)).contains(j) by {
        if j == x as int {
            assert(s.push(x)[s.len() as int] as int == j);
        } else {
            let k = choose|k: int| 0 <= k < s.len() && (#[trigger] s[k]) as int == j;
            assert(s.push(x)[k] as int == j);
        }
    }
    assert(members(s.push(x)) =~= members(s).insert(x as int));
}

/// Every in-bounds cell reaches itself.
pub proof fn lemma_connected_refl(g: Seq<Stone>, n: int, a: int)
    requires
        in_bounds(n, a),
    ensures
        connected(g, n, a, a),
{
    let p = seq![a];
    assert(is_path(g, n, g[a], p));
    assert(p.first() == a && p.last() == a);
}

/// Reachability extends along one same-color adjacency step.
pub proof fn lemma_connected_step(g: Seq<Stone>, n: int, a: int, b: int, c: int)
    requires
        connected(g, n, a, b),
        adjacent(n, b, c),
        g[c] == g[a],
    ensures
        connected(g, n, a, c),
{
    let p = choose|p: Seq<int>| is_path(g, n, g[a], p) && p.first() == a && p.last() == b;
    let q = p.push(c);
    assert forall|k: int| 0 <= k < q.len() implies in_bounds(n, #[trigger] q[k]) && g[q[k]] == g[a] by {
        if k < p.len() {
            assert(q[k] == p[k]);
        } else {
            assert(q[k] == c);
        }
    }
    assert forall|k: int| 1 <= k < q.len() implies adjacent(n, q[k - 1], #[trigger] q[k]) by {
        if k < p.len() {
            assert(q[k - 1] == p[k - 1] && q[k] == p[k]);
        } else {
            assert(q[k - 1] == p.last() && q[k] == c);
        }
    }
    assert(is_path(g, n, g[a], q));
    assert(q.first() == a && q.last() == c);
}

/// Reachability is symmetric, and joins only cells of one color.
pub proof fn lemma_connected_sym(g: Seq<Stone>, n: int, a: int, b: int)
    requires
        connected(g, n, a, b),
    ensures
        connected(g, n, b, a),
        g[b] == g[a],
{
    let p = choose|p: Seq<int>| is_path(g, n, g[a], p) && p.first() == a && p.last() == b;
    assert(g[b] == g[a]);
    let len = p.len() as int;
    let q = Seq::new(p.len(), |k: int| p[len - 1 - k]);
    assert forall|k: int| 1 <= k < q.len() implies adjacent(n, q[k - 1], #[trigger] q[k]) by {
        assert(q[k - 1] == p[len - k]);
        assert(q[k] == p[len - 1 - k]);
        assert(adjacent(n, p[len - k - 1], p[len - k]));
    }
    assert(is_path(g, n, g[b], q));
    assert(q.first() == b && q.last() == a);
}

/// Reachability is transitive.
pub proof fn lemma_connected_trans(g: Seq<Stone>, n: int, a: int, b: int, c: int)
    requires
        connected(g, n, a, b),
        connected(g, n, b, c),
    ensures
        connected(g, n, a, c),
{
    let p = choose|p: Seq<int>| is_path(g, n, g[a], p) && p.first() == a && p.last() == b;
    assert(g[b] == g[a]);
    let q = choose|q: Seq<int>| is_path(g, n, g[b], q) && q.first() == b && q.last() == c;
    if q.len() == 1 {
        assert(c == b);
    } else {
        let w = p + q.subrange(1, q.len() as int);
        assert forall|k: int| 0 <= k < w.len() implies in_bounds(n, #[trigger] w[k]) && g[w[k]] == g[a] by {
            if k < p.len() {
                assert(w[k] == p[k]);
            } else {
                assert(w[k] == q[k - p.len() + 1]);
            }
        }
        assert forall|k: int| 1 <= k < w.len() implies adjacent(n, w[k - 1], #[trigger] w[k]) by {
            if k < p.len() {
                assert(w[k - 1] == p[k - 1] && w[k] == p[k]);
            } else if k == p.len() {
                assert(w[k - 1] == p.last());
                assert(w[k] == q[1]);
                assert(adjacent(n, q[0], q[1]));
            } else {
                assert(w[k - 1] == q[k - p.len()] && w[k] == q[k - p.len() + 1]);
                assert(adjacent(n, q[k - p.len()], q[k - p.len() + 1]));
            }
        }
        assert(is_path(g, n, g[a], w));
        assert(w.first() == a && w.last() == c);
    }
}

/// Cells that reach each other have one and the same group.
pub proof fn lemma_group_eq(g: Seq<Stone>, n: int, a: int, b: int)
    requires
        connected(g, n, a, b),
    ensures
        group_of(g, n, a) == group_of(g, n, b),
{
    lemma_connected_sym(g, n, a, b);
    assert forall|x: int| group_of(g, n, a).contains(x)
        implies group_of(g, n, b).contains(x) by {
        lemma_connected_trans(g, n, b, a, x);
    }
    assert forall|x: int| group_of(g, n, b).contains(x)
        implies group_of(g, n, a).contains(x) by {
        lemma_connected_trans(g, n, a, b, x);
    }
    assert(group_of(g, n, a) =~= group_of(g, n, b));
}

/// A group is color-homogeneous and stays on the board.
pub proof fn lemma_group_members(g: Seq<Stone>, n: int, a: int)
    ensures
        forall|b: int| group_of(g, n, a).contains(b) ==> in_bounds(n, b) && g[b] == g[a],
{
    assert forall|b: int| group_of(g, n, a).contains(b)
        implies in_bounds(n, b) && g[b] == g[a] by {
        let p = choose|p: Seq<int>| is_path(g, n, g[a], p) && p.first() == a && p.last() == b;
        assert(in_bounds(n, p[p.len() - 1]) && g[p[p.len() - 1]] == g[a]);
    }
}

/// Groups partition the board: every in-bounds cell lies in its own group,
/// and two groups either coincide or share no cell.
pub proof fn lemma_groups_partition(g: Seq<Stone>, n: int, a: int, b: int)
    requires
        in_bounds(n, a),
        in_bounds(n, b),
    ensures
        group_of(g, n, a).contains(a),
        group_of(g, n, a) == group_of(g, n, b) || group_of(g, n, a).disjoint(group_of(g, n, b)),
{
    lemma_connected_refl(g, n, a);
    if exists|x: int| group_of(g, n, a).contains(x) && group_of(g, n, b).contains(x) {
        let x = choose|x: int| group_of(g, n, a).contains(x) && group_of(g, n, b).contains(x);
        lemma_connected_sym(g, n, b, x);
        lemma_connected_trans(g, n, a, x, b);
        lemma_group_eq(g, n, a, b);
    } else {
        assert(group_of(g, n, a).disjoint(group_of(g, n, b)));
    }
}

/// A set of cells closed under same-color adjacency that holds the first cell
/// of a path holds its last cell too.
proof fn lemma_path_reaches_marked(g: Seq<Stone>, n: int, color: Stone, v: Seq<bool>, p: Seq<int>)
    requires
        v.len() == n * n,
        is_path(g, n, color, p),
        v[p.first()],
        forall|x: int, y: int| #![trigger v[x], adjacent(n, x, y)]
            in_bounds(n, x) && v[x] && adjacent(n, x, y) && g[y] == color ==> v[y],
    ensures
        v[p.last()],
    decreases p.len(),
{
    if p.len() > 1 {
        let q = p.drop_last();
        assert(is_path(g, n, color, q));
        lemma_path_reaches_marked(g, n, color, v, q);
        assert(adjacent(n, p[p.len() - 2], p[p.len() - 1]));
        assert(v[p.last()]);
    }
}

/// How many cells of a mask are set.
spec fn count_marked(v: Seq<bool>) -> int
    decreases v.len(),
{
    if v.len() == 0 {
        0
    } else {
        count_marked(v.drop_last()) + (if v.last() {
            1int
        } else {
            0int
        })
    }
}

proof fn lemma_count_marked_bounds(v: Seq<bool>)
    ensures
        0 <= count_marked(v) <= v.len(),
    decreases v.len(),
{
    if v.len() > 0 {
        lemma_count_marked_bounds(v.drop_last());
    }
}

proof fn lemma_count_marked_update(v: Seq<bool>, i: int)
    requires
        0 <= i < v.len(),
        !v[i],
    ensures
        count_marked(v.update(i, true)) == count_marked(v) + 1,
    decreases v.len(),
{
    let w = v.update(i, true);
    if i == v.len() - 1 {
        assert(w.drop_last() =~= v.drop_last());
        assert(w.last());
    } else {
        assert(w.drop_last() =~= v.drop_last().update(i, true));
        assert(w.last() == v.last());
        lemma_count_marked_update(v.drop_last(), i);
    }
}

/// A mask of `len` cells, none set.
pub(crate) fn blank_mask(len: usize) -> (v: Vec<bool>)
    ensures
        v@.len() == len,
        forall|j: int| 0 <= j < len ==> !v@[j],
{
    let mut v: Vec<bool> = Vec::new();
    let mut k: usize = 0;
    #[verifier::loop_isolation(false)]
    while k < len
        invariant
            k <= len,
            v@.len() == k,
            forall|j: int| 0 <= j < k ==> !v@[j],
        decreases len - k,
    {
        v.push(false);
        k = k + 1;
    }
    v
}

/// Finds the group of the stone at `seed`: the maximal connected set of
/// same-color stones reachable from it, each listed once. An empty seed cell
/// has no group, and the result is empty.
pub fn find_group(board: &Board, seed: usize) -> (out: Vec<usize>)
    requires
        board.wf(),
        in_bounds(board.dim(), seed as int),
    ensures
        board.grid()[seed as int] == Stone::Empty ==> out@.len() == 0,
        board.grid()[seed as int] != Stone::Empty ==> members(out@) == group_of(
            board.grid(),
            board.dim(),
            seed as int,
        ),
        forall|k: int| 0 <= k < out@.len()
            ==> in_bounds(board.dim(), #[trigger] out@[k] as int)
                && board.grid()[out@[k] as int] == board.grid()[seed as int],
        forall|k1: int, k2: int| 0 <= k1 < k2 < out@.len() ==> out@[k1] != out@[k2],
{
    let color = board.at(seed);
    if color == Stone::Empty {
        return Vec::new();
    }
    let n = board.size();
    let nn = n * n;
    let ghost dim = board.dim();
    let ghost grid = board.grid();
    let mut visited = blank_mask(nn);
    let mut stack: Vec<usize> = Vec::new();
    let mut out: Vec<usize> = Vec::new();
    visited[seed] = true;
    stack.push(seed);
    out.push(seed);
    proof {
        lemma_connected_refl(grid, dim, seed as int);
        assert(out@[0] == seed);
        assert(members(out@).contains(seed as int));
    }
    #[verifier::loop_isolation(false)]
    while stack.len() > 0
        invariant
            visited@.len() == nn,
            forall|j: int| 0 <= j < nn && visited@[j]
                ==> grid[j] == color && connected(grid, dim, seed as int, j),
            visited@[seed as int],
            forall|k: int| 0 <= k < out@.len()
                ==> in_bounds(dim, #[trigger] out@[k] as int) && visited@[out@[k] as int],
            forall|k1: int, k2: int| 0 <= k1 < k2 < out@.len() ==> out@[k1] != out@[k2],
            forall|j: int| 0 <= j < nn && visited@[j] ==> members(out@).contains(j),
            forall|k: int| 0 <= k < stack@.len()
                ==> in_bounds(dim, #[trigger] stack@[k] as int) && visited@[stack@[k] as int],
            forall|x: int, y: int| #![trigger visited@[x], adjacent(dim, x, y)]
                in_bounds(dim, x) && visited@[x] && !members(stack@).contains(x)
                    && adjacent(dim, x, y) && grid[y] == color ==> visited@[y],
        decreases nn - count_marked(visited@), stack@.len(),
    {
        proof {
            lemma_count_marked_bounds(visited@);
        }
        let ghost count0 = count_marked(visited@);
        let ghost stack0 = stack@;
        let cc = stack.pop().unwrap();
        proof {
            assert forall|x: int, y: int| #![trigger visited@[x], adjacent(dim, x, y)]
                in_bounds(dim, x) && visited@[x] && !members(stack@).contains(x)
                    && x != cc as int && adjacent(dim, x, y) && grid[y] == color
                implies visited@[y] by {
                if members(stack0).contains(x) {
                    let k = choose|k: int| 0 <= k < stack0.len() && (#[trigger] stack0[k]) as int
                        == x;
                    assert(k < stack0.len() - 1);
                    assert(stack@[k] as int == x);
                    assert(members(stack@).contains(x));
                } else {
                    assert(visited@[y]);
                }
            }
        }
        let nbrs = board.neighbors(cc);
        let mut m: usize = 0;
        #[verifier::loop_isolation(false)]
        while m < nbrs.len()
            invariant
                m <= nbrs@.len(),
                visited@.len() == nn,
                forall|j: int| 0 <= j < nn && visited@[j]
                    ==> grid[j] == color && connected(grid, dim, seed as int, j),
                visited@[seed as int],
                visited@[cc as int],
                forall|k: int| 0 <= k < out@.len()
                    ==> in_bounds(dim, #[trigger] out@[k] as int) && visited@[out@[k] as int],
                forall|k1: int, k2: int| 0 <= k1 < k2 < out@.len() ==> out@[k1] != out@[k2],
                forall|j: int| 0 <= j < nn && visited@[j] ==> members(out@).contains(j),
                forall|k: int| 0 <= k < stack@.len()
                    ==> in_bounds(dim, #[trigger] stack@[k] as int) && visited@[stack@[k] as int],
                forall|x: int, y: int| #![trigger visited@[x], adjacent(dim, x, y)]
                    in_bounds(dim, x) && visited@[x] && !members(stack@).contains(x)
                        && x != cc as int && adjacent(dim, x, y) && grid[y] == color
                        ==> visited@[y],
                forall|mm: int| 0 <= mm < m && grid[#[trigger] nbrs@[mm] as int] == color
                    ==> visited@[nbrs@[mm] as int],
                count_marked(visited@) - count0 == stack@.len() - stack0.len() + 1,
                stack@.len() + 1 >= stack0.len(),
            decreases nbrs@.len() - m,
        {
            let d = nbrs[m];
            proof {
                assert(adjacent(dim, cc as int, d as int));
            }
            if board.at(d) == color && !visited[d] {
                proof {
                    lemma_count_marked_update(visited@, d as int);
                    assert(0 <= (cc as int) < nn && visited@[cc as int]);
                    assert(grid[cc as int] == color && connected(grid, dim, seed as int, cc as int));
                    lemma_connected_step(grid, dim, seed as int, cc as int, d as int);
                    lemma_members_push(out@, d);
                    lemma_members_push(stack@, d);
                }
                visited[d] = true;
                stack.push(d);
                out.push(d);
            }
            m = m + 1;
        }
        proof {
            lemma_count_marked_bounds(visited@);
            assert forall|x: int, y: int| #![trigger visited@[x], adjacent(dim, x, y)]
                in_bounds(dim, x) && visited@[x] && !members(stack@).contains(x)
                    && adjacent(dim, x, y) && grid[y] == color implies visited@[y] by {
                if x == cc as int {
                    let kk = choose|kk: int| 0 <= kk < nbrs@.len() && (#[trigger] nbrs@[
                        kk]) as int == y;
                    assert(visited@[nbrs@[kk] as int]);
                }
            }
        }
    }
    proof {
        assert forall|b: int| group_of(grid, dim, seed as int).contains(b)
            implies members(out@).contains(b) by {
            let p = choose|p: Seq<int>|
                is_path(grid, dim, grid[seed as int], p) && p.first() == seed as int
                    && p.last() == b;
            lemma_path_reaches_marked(grid, dim, color, visited@, p);
        }
        assert forall|j: int| members(out@).contains(j)
            implies group_of(grid, dim, seed as int).contains(j) by {
            let k = choose|k: int| 0 <= k < out@.len() && (#[trigger] out@[k]) as int == j;
            assert(in_bounds(dim, out@[k] as int));
            assert(0 <= j < nn);
            assert(visited@[j]);
            assert(grid[j] == color && connected(grid, dim, seed as int, j));
        }
        assert(members(out@) =~= group_of(grid, dim, seed as int));
    }
    out
}

} // verus!
