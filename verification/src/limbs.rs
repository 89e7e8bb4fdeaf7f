//! Limb vectors: polynomials whose coefficients are split into base-`2^k` limbs.
//!
//! Coefficients are stored limb by limb, then column by column, then by degree.

use vstd::prelude::*;

verus! {

/// `cols` columns of `size` limbs of `n` coefficients.
#[derive(Debug)]
pub struct LimbVec {
    pub n: usize,
    pub cols: usize,
    pub size: usize,
    pub data: Vec<i64>,
}

/// Position of coefficient `i` of limb `limb` of column `col`.
pub open spec fn limb_index(n: int, cols: int, col: int, limb: int, i: int) -> int {
    (limb * cols + col) * n + i
}

impl LimbVec {
    pub open spec fn wf(&self) -> bool {
        self.data@.len() == self.n * self.cols * self.size
    }

    /// Same shape.
    pub open spec fn same_shape(&self, other: &LimbVec) -> bool {
        self.n == other.n && self.cols == other.cols && self.size == other.size
    }

    pub open spec fn contains(&self, col: int, limb: int, i: int) -> bool {
        0 <= col < self.cols && 0 <= limb < self.size && 0 <= i < self.n
    }

    /// The coefficient of `X^i` in limb `limb` of column `col`.
    pub open spec fn coeff(&self, col: int, limb: int, i: int) -> i64 {
        self.data@[limb_index(self.n as int, self.cols as int, col, limb, i)]
    }

    /// A zero vector.
    pub fn zeros(n: usize, cols: usize, size: usize) -> (r: LimbVec)
        requires
            n * cols * size <= usize::MAX,
            n * cols <= usize::MAX,
        ensures
            r.wf(),
            r.n == n && r.cols == cols && r.size == size,
            r.data@ == Seq::new((n * cols * size) as nat, |j: int| 0i64),
            forall|col: int, limb: int, i: int|
                r.contains(col, limb, i) ==> #[trigger] r.coeff(col, limb, i) == 0,
    {
        assert(n * cols >= 0) by (nonlinear_arith)
            requires
                n >= 0,
                cols >= 0,
        ;
        let cells: usize = n * cols;
        assert(cells * size >= 0) by (nonlinear_arith)
            requires
                cells >= 0,
                size >= 0,
        ;
        let total: usize = cells * size;
        let data: Vec<i64> = vec![0i64; total];
        let r = LimbVec { n, cols, size, data };
        proof {
            assert(r.data@ =~= Seq::new(total as nat, |j: int| 0i64));
            assert forall|col: int, limb: int, i: int|
                r.contains(col, limb, i) implies #[trigger] r.coeff(col, limb, i) == 0 by {
                lemma_limb_index(n as int, cols as int, size as int, col, limb, i);
            }
        }
        r
    }

    /// Position of a coefficient in the storage.
    pub fn index(&self, col: usize, limb: usize, i: usize) -> (r: usize)
        requires
            self.wf(),
            self.contains(col as int, limb as int, i as int),
        ensures
            r == limb_index(self.n as int, self.cols as int, col as int, limb as int, i as int),
            r < self.data@.len(),
    {
        proof {
            lemma_limb_index(
                self.n as int,
                self.cols as int,
                self.size as int,
                col as int,
                limb as int,
                i as int,
            );
        }
        let total: usize = self.data.len();
        assert(limb_index(self.n as int, self.cols as int, col as int, limb as int, i as int) < total);
        (limb * self.cols + col) * self.n + i
    }

    /// Reads a coefficient.
    pub fn get(&self, col: usize, limb: usize, i: usize) -> (r: i64)
        requires
            self.wf(),
            self.contains(col as int, limb as int, i as int),
        ensures
            r == self.coeff(col as int, limb as int, i as int),
    {
        let at: usize = self.index(col, limb, i);
        self.data[at]
    }

    /// Writes a coefficient; every other one keeps its value.
    pub fn set(&mut self, col: usize, limb: usize, i: usize, value: i64)
        requires
            old(self).wf(),
            old(self).contains(col as int, limb as int, i as int),
        ensures
            final(self).wf(),
            final(self).same_shape(old(self)),
            final(self).coeff(col as int, limb as int, i as int) == value,
            forall|c: int, l: int, j: int|
                old(self).contains(c, l, j) && !(c == col && l == limb && j == i)
                    ==> #[trigger] final(self).coeff(c, l, j) == old(self).coeff(c, l, j),
    {
        let at: usize = self.index(col, limb, i);
        let ghost before = *self;
        self.data.set(at, value);
        proof {
            assert forall|c: int, l: int, j: int|
                before.contains(c, l, j) && !(c == col && l == limb && j == i) implies #[trigger] self.coeff(
                c,
                l,
                j,
            ) == before.coeff(c, l, j) by {
                lemma_limb_index(self.n as int, self.cols as int, self.size as int, c, l, j);
                if limb_index(self.n as int, self.cols as int, c, l, j) == at {
                    lemma_limb_index_injective(
                        self.n as int,
                        self.cols as int,
                        c,
                        l,
                        j,
                        col as int,
                        limb as int,
                        i as int,
                    );
                }
            }
        }
    }
}

/// Every coefficient of the shape lies within the storage.
pub proof fn lemma_limb_index(n: int, cols: int, size: int, col: int, limb: int, i: int)
    requires
        0 <= col < cols,
        0 <= limb < size,
        0 <= i < n,
    ensures
        0 <= limb_index(n, cols, col, limb, i) < n * cols * size,
        0 <= limb * cols,
        0 <= limb * cols + col < cols * size,
        0 <= (limb * cols + col) * n,
        (limb * cols + col) * n <= limb_index(n, cols, col, limb, i),
        limb * cols + col <= limb_index(n, cols, col, limb, i),
{
    let row = limb * cols + col;
    assert(0 <= limb * cols && row < cols * size) by (nonlinear_arith)
        requires
            0 <= col < cols,
            0 <= limb < size,
            row == limb * cols + col,
    ;
    assert(row * n + i < (cols * size) * n && 0 <= row * n && row <= row * n) by (nonlinear_arith)
        requires
            0 <= row < cols * size,
            0 <= i < n,
    ;
    assert((cols * size) * n == n * cols * size) by (nonlinear_arith);
}

/// Distinct coefficients have distinct positions.
pub proof fn lemma_limb_index_injective(
    n: int,
    cols: int,
    c1: int,
    l1: int,
    i1: int,
    c2: int,
    l2: int,
    i2: int,
)
    requires
        0 <= c1 < cols,
        0 <= c2 < cols,
        0 <= l1,
        0 <= l2,
        0 <= i1 < n,
        0 <= i2 < n,
        limb_index(n, cols, c1, l1, i1) == limb_index(n, cols, c2, l2, i2),
    ensures
        c1 == c2,
        l1 == l2,
        i1 == i2,
{
    let r1 = l1 * cols + c1;
    let r2 = l2 * cols + c2;
    crate::arith::lemma_quotient(r1 * n + i1, n, r1, i1);
    crate::arith::lemma_quotient(r1 * n + i1, n, r2, i2);
    crate::arith::lemma_quotient(r1, cols, l1, c1);
    crate::arith::lemma_quotient(r1, cols, l2, c2);
}

/// Coefficients are stored limb by limb, within a limb column by column, and within a column
/// by degree.
pub proof fn law_coefficients_are_stored_by_limbs(
    v: &LimbVec,
    col: usize,
    limb: usize,
    i: usize,
    at: usize,
    x: i64,
)
    requires
        call_ensures(LimbVec::index, (v, col, limb, i), at),
        call_ensures(LimbVec::get, (v, col, limb, i), x),
    ensures
        at == (limb * v.cols + col) * v.n + i,
        x == v.data@[(limb * v.cols + col) * v.n + i],
{
}

} // verus!
