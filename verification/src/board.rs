//! The board: a square grid of stones, addressed by flat row-major indices,
//! together with the 4-connectivity adjacency relation on those indices.

use vstd::prelude::*;
use vstd::arithmetic::div_mod::{
    lemma_fundamental_div_mod, lemma_fundamental_div_mod_converse, lemma_mod_bound,
};

verus! {

/// The contents of one board cell.
#[derive(Clone, Copy, PartialEq, Eq, Structural, Debug)]
pub enum Stone {
    Empty,
    Black,
    White,
}

/// The color on the opposing side of `c`; `Empty` has no opponent.
pub open spec fn opponent(c: Stone) -> Stone {
    match c {
        Stone::Black => Stone::White,
        Stone::White => Stone::Black,
        Stone::Empty => Stone::Empty,
    }
}

/// The opposing color, as executable code.
pub fn opponent_of(c: Stone) -> (r: Stone)
    ensures
        r == opponent(c),
{
    match c {
        Stone::Black => Stone::White,
        Stone::White => Stone::Black,
        Stone::Empty => Stone::Empty,
    }
}

/// `i` is a legal flat index on an `n` by `n` board.
pub open spec fn in_bounds(n: int, i: int) -> bool {
    0 <= i < n * n
}

/// The row of flat index `i` on an `n` by `n` board.
pub open spec fn row_of(n: int, i: int) -> int {
    i / n
}

/// The column of flat index `i` on an `n` by `n` board.
pub open spec fn col_of(n: int, i: int) -> int {
    i % n
}

/// Four-connectivity: the two cells differ by one step along exactly one axis.
/// No diagonal adjacency; a cell is not adjacent to itself.
pub open spec fn adjacent(n: int, i: int, j: int) -> bool {
    &&& in_bounds(n, i)
    &&& in_bounds(n, j)
    &&& {
        ||| (row_of(n, i) == row_of(n, j)
            && (col_of(n, i) == col_of(n, j) + 1 || col_of(n, j) == col_of(n, i) + 1))
        ||| (col_of(n, i) == col_of(n, j)
            && (row_of(n, i) == row_of(n, j) + 1 || row_of(n, j) == row_of(n, i) + 1))
    }
}

/// Row and column of an in-bounds flat index are themselves in range.
pub proof fn lemma_row_col_range(n: int, i: int)
    requires
        n >= 1,
        in_bounds(n, i),
    ensures
        0 <= row_of(n, i) < n,
        0 <= col_of(n, i) < n,
        i == n * row_of(n, i) + col_of(n, i),
{
    lemma_fundamental_div_mod(i, n);
    lemma_mod_bound(i, n);
    assert(0 <= i / n < n) by (nonlinear_arith)
        requires
            n >= 1,
            0 <= i < n * n,
            i == n * (i / n) + i % n,
            0 <= i % n < n,
    ;
}

/// The neighbors of `i` are exactly the in-range offsets by one row or one column.
pub proof fn lemma_adjacent_iff(n: int, i: int, j: int)
    requires
        n >= 1,
        in_bounds(n, i),
    ensures
        adjacent(n, i, j) <==> {
            ||| (j == i - n && row_of(n, i) > 0)
            ||| (j == i + n && row_of(n, i) < n - 1)
            ||| (j == i - 1 && col_of(n, i) > 0)
            ||| (j == i + 1 && col_of(n, i) < n - 1)
        },
{
    let r = row_of(n, i);
    let c = col_of(n, i);
    lemma_row_col_range(n, i);
    if adjacent(n, i, j) {
        let rj = row_of(n, j);
        let cj = col_of(n, j);
        lemma_row_col_range(n, j);
        if r == rj && c == cj + 1 {
            assert(j == i - 1);
        } else if r == rj && cj == c + 1 {
            assert(j == i + 1 && c < n - 1);
        } else if c == cj && r == rj + 1 {
            assert(j == i - n) by (nonlinear_arith)
                requires
                    i == n * r + c,
                    j == n * rj + cj,
                    c == cj,
                    r == rj + 1,
            ;
        } else {
            assert(c == cj && rj == r + 1);
            assert(j == i + n) by (nonlinear_arith)
                requires
                    i == n * r + c,
                    j == n * rj + cj,
                    c == cj,
                    rj == r + 1,
            ;
            assert(r < n - 1);
        }
    }
    if j == i - n && r > 0 {
        assert(j == (r - 1) * n + c) by (nonlinear_arith)
            requires
                i == n * r + c,
                j == i - n,
        ;
        lemma_fundamental_div_mod_converse(j, n, r - 1, c);
        assert(in_bounds(n, j)) by (nonlinear_arith)
            requires
                n >= 1,
                j == (r - 1) * n + c,
                0 <= r - 1 < n,
                0 <= c < n,
                j < i < n * n,
        ;
        assert(adjacent(n, i, j));
    }
    if j == i + n && r < n - 1 {
        assert(j == (r + 1) * n + c) by (nonlinear_arith)
            requires
                i == n * r + c,
                j == i + n,
        ;
        lemma_fundamental_div_mod_converse(j, n, r + 1, c);
        assert(in_bounds(n, j)) by (nonlinear_arith)
            requires
                n >= 1,
                j == (r + 1) * n + c,
                0 <= r + 1 < n,
                0 <= c < n,
        ;
        assert(adjacent(n, i, j));
    }
    if j == i - 1 && c > 0 {
        assert(j == r * n + (c - 1)) by (nonlinear_arith)
            requires
                i == n * r + c,
                j == i - 1,
        ;
        lemma_fundamental_div_mod_converse(j, n, r, c - 1);
        assert(adjacent(n, i, j));
    }
    if j == i + 1 && c < n - 1 {
        assert(j == r * n + (c + 1)) by (nonlinear_arith)
            requires
                i == n * r + c,
                j == i + 1,
        ;
        lemma_fundamental_div_mod_converse(j, n, r, c + 1);
        assert(in_bounds(n, j)) by (nonlinear_arith)
            requires
                n >= 1,
                j == r * n + (c + 1),
                0 <= r < n,
                0 <= c + 1 < n,
        ;
        assert(adjacent(n, i, j));
    }
}

/// A square grid of stones. The sole owner of cell state: every other
/// component reads it, or asks it to rewrite exactly one cell.
pub struct Board {
    n: usize,
    cells: Vec<Stone>,
}

impl Board {
    /// The board's side length.
    pub closed spec fn dim(self) -> int {
        self.n as int
    }

    /// The cells in row-major order: cell (r, c) stands at index r * dim + c.
    pub closed spec fn grid(self) -> Seq<Stone> {
        self.cells@
    }

    /// Structural invariant: positive side, one cell per point, and index
    /// arithmetic that stays within `usize`.
    pub open spec fn wf(self) -> bool {
        &&& self.dim() >= 1
        &&& self.grid().len() == self.dim() * self.dim()
        &&& self.dim() * self.dim() <= usize::MAX
    }

    /// A fresh all-empty board of side `n`.
    pub fn new(n: usize) -> (b: Board)
        requires
            1 <= n,
            n * n <= usize::MAX,
        ensures
            b.wf(),
            b.dim() == n,
            forall|j: int| in_bounds(n as int, j) ==> b.grid()[j] == Stone::Empty,
    {
        let total = n * n;
        let mut cells: Vec<Stone> = Vec::new();
        let mut k: usize = 0;
        #[verifier::loop_isolation(false)]
        while k < total
            invariant
                k <= total,
                cells@.len() == k,
                forall|j: int| 0 <= j < k ==> cells@[j] == Stone::Empty,
            decreases total - k,
        {
            cells.push(Stone::Empty);
            k = k + 1;
        }
        Board { n, cells }
    }

    /// The side length.
    pub fn size(&self) -> (r: usize)
        ensures
            r as int == self.dim(),
    {
        self.n
    }

    /// The stone at flat index `i`.
    pub fn at(&self, i: usize) -> (s: Stone)
        requires
            self.wf(),
            in_bounds(self.dim(), i as int),
        ensures
            s == self.grid()[i as int],
    {
        self.cells[i]
    }

    /// Rewrites exactly the cell at flat index `i`. An unchecked primitive:
    /// legality lives with the callers, not here.
    pub fn put(&mut self, i: usize, s: Stone)
        requires
            old(self).wf(),
            in_bounds(old(self).dim(), i as int),
        ensures
            final(self).wf(),
            final(self).dim() == old(self).dim(),
            final(self).grid() == old(self).grid().update(i as int, s),
    {
        self.cells[i] = s;
    }

    /// An independent copy, for simulating a move without touching this board.
    pub fn snapshot(&self) -> (b: Board)
        requires
            self.wf(),
        ensures
            b.wf(),
            b.dim() == self.dim(),
            b.grid() == self.grid(),
    {
        let mut cells: Vec<Stone> = Vec::new();
        let mut k: usize = 0;
        #[verifier::loop_isolation(false)]
        while k < self.cells.len()
            invariant
                k <= self.cells@.len(),
                cells@.len() == k,
                forall|j: int| 0 <= j < k ==> cells@[j] == self.cells@[j],
            decreases self.cells@.len() - k,
        {
            cells.push(self.cells[k]);
            k = k + 1;
        }
        proof {
            assert(cells@ =~= self.cells@);
        }
        Board { n: self.n, cells }
    }

    /// The flat indices adjacent to `i`: each listed index is a neighbor,
    /// every neighbor is listed, and none is listed twice.
    pub fn neighbors(&self, i: usize) -> (v: Vec<usize>)
        requires
            self.wf(),
            in_bounds(self.dim(), i as int),
        ensures
            forall|k: int| 0 <= k < v@.len() ==> adjacent(self.dim(), i as int, #[trigger] v@[k] as int),
            forall|j: int| adjacent(self.dim(), i as int, j)
                ==> exists|k: int| 0 <= k < v@.len() && #[trigger] v@[k] as int == j,
            forall|k1: int, k2: int| 0 <= k1 < k2 < v@.len() ==> v@[k1] != v@[k2],
    {
        let n = self.n;
        let r = i / n;
        let c = i % n;
        proof {
            lemma_row_col_range(n as int, i as int);
            assert(r as int == row_of(n as int, i as int));
            assert(c as int == col_of(n as int, i as int));
        }
        let mut v: Vec<usize> = Vec::new();
        let ghost mut k_up: int = -1;
        let ghost mut k_down: int = -1;
        let ghost mut k_left: int = -1;
        let ghost mut k_right: int = -1;
        if r > 0 {
            proof {
                assert(i >= n) by (nonlinear_arith)
                    requires
                        i as int == n as int * r as int + c as int,
                        r >= 1,
                        c >= 0,
                        n >= 1,
                ;
                lemma_adjacent_iff(n as int, i as int, i as int - n as int);
                k_up = v@.len() as int;
            }
            v.push(i - n);
        }
        if r < n - 1 {
            proof {
                assert(i + n < n * n) by (nonlinear_arith)
                    requires
                        i as int == n as int * r as int + c as int,
                        (r as int) < (n as int) - 1,
                        (c as int) < (n as int),
                        n >= 1,
                ;
                lemma_adjacent_iff(n as int, i as int, i as int + n as int);
                k_down = v@.len() as int;
            }
            v.push(i + n);
        }
        if c > 0 {
            proof {
                lemma_adjacent_iff(n as int, i as int, i as int - 1);
                k_left = v@.len() as int;
            }
            v.push(i - 1);
        }
        if c + 1 < n {
            proof {
                lemma_adjacent_iff(n as int, i as int, i as int + 1);
                k_right = v@.len() as int;
            }
            v.push(i + 1);
        }
        proof {
            assert forall|j: int| adjacent(self.dim(), i as int, j)
                implies exists|k: int| 0 <= k < v@.len() && #[trigger] v@[k] as int == j by {
                lemma_adjacent_iff(n as int, i as int, j);
                if j == i as int - n as int && r > 0 {
                    assert(v@[k_up] as int == j);
                } else if j == i as int + n as int && r < n - 1 {
                    assert(v@[k_down] as int == j);
                } else if j == i as int - 1 && c > 0 {
                    assert(v@[k_left] as int == j);
                } else {
                    assert(v@[k_right] as int == j);
                }
            }
        }
        v
    }
}

} // verus!
