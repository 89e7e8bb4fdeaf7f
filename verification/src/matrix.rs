//! Dense matrices of 16-bit coefficients.

use vstd::prelude::*;

verus! {

/// A `rows_out x rows_in` matrix of coefficients, stored row after row.
#[derive(Debug)]
pub struct CoeffMatrix {
    pub rows_out: usize,
    pub rows_in: usize,
    pub data: Vec<i16>,
}

/// Rows of `rows_in` entries, one after the other, fill the buffer without overlap.
pub proof fn lemma_flat_index(row: int, col: int, rows_out: int, rows_in: int)
    requires
        0 <= row < rows_out,
        0 <= col < rows_in,
    ensures
        0 <= row * rows_in + col < rows_out * rows_in,
        0 <= row * rows_in,
{
    assert(0 <= row * rows_in && row * rows_in + rows_in <= rows_out * rows_in)
        by (nonlinear_arith)
        requires
            0 <= row,
            row + 1 <= rows_out,
            rows_in >= 1,
    ;
}

/// Two positions with the same flat index are the same position.
pub proof fn lemma_flat_index_injective(r1: int, c1: int, r2: int, c2: int, rows_in: int)
    requires
        0 <= c1 < rows_in,
        0 <= c2 < rows_in,
        r1 * rows_in + c1 == r2 * rows_in + c2,
    ensures
        r1 == r2,
        c1 == c2,
{
    assert(r1 == r2) by (nonlinear_arith)
        requires
            0 <= c1 < rows_in,
            0 <= c2 < rows_in,
            r1 * rows_in + c1 == r2 * rows_in + c2,
    ;
}

impl CoeffMatrix {
    /// The buffer holds exactly the entries.
    pub open spec fn wf(self) -> bool {
        self.data@.len() == self.rows_out * self.rows_in
    }

    /// Whether a position lies in the matrix.
    pub open spec fn contains(self, row: int, col: int) -> bool {
        0 <= row < self.rows_out && 0 <= col < self.rows_in
    }

    /// Entry of row `row` and column `col`.
    pub open spec fn entry(self, row: int, col: int) -> i16 {
        self.data@[row * self.rows_in + col]
    }

    /// An all-zero matrix.
    pub fn zeros(rows_out: usize, rows_in: usize) -> (r: Self)
        requires
            rows_out * rows_in <= usize::MAX,
        ensures
            r.wf(),
            r.rows_out == rows_out,
            r.rows_in == rows_in,
            forall|row: int, col: int| r.contains(row, col) ==> r.entry(row, col) == 0,
    {
        let total: usize = rows_out * rows_in;
        let data: Vec<i16> = vec![0i16; total];
        let r = CoeffMatrix { rows_out, rows_in, data };
        proof {
            assert forall|row: int, col: int| r.contains(row, col) implies r.entry(row, col)
                == 0 by {
                lemma_flat_index(row, col, rows_out as int, rows_in as int);
            }
        }
        r
    }

    pub fn rows_out(&self) -> (r: usize)
        ensures
            r == self.rows_out,
    {
        self.rows_out
    }

    pub fn rows_in(&self) -> (r: usize)
        ensures
            r == self.rows_in,
    {
        self.rows_in
    }

    /// Entry of row `row` and column `col`.
    pub fn at(&self, row: usize, col: usize) -> (r: i16)
        requires
            self.wf(),
            self.contains(row as int, col as int),
        ensures
            r == self.entry(row as int, col as int),
    {
        proof {
            lemma_flat_index(row as int, col as int, self.rows_out as int, self.rows_in as int);
        }
        let total: usize = self.data.len();
        self.data[row * self.rows_in + col]
    }

    /// Replaces the entry of row `row` and column `col`.
    pub fn set(&mut self, row: usize, col: usize, value: i16)
        requires
            old(self).wf(),
            old(self).contains(row as int, col as int),
        ensures
            final(self).wf(),
            final(self).rows_out == old(self).rows_out,
            final(self).rows_in == old(self).rows_in,
            final(self).entry(row as int, col as int) == value,
            forall|r: int, c: int|
                old(self).contains(r, c) && (r != row || c != col) ==> #[trigger] final(self).entry(
                    r,
                    c,
                ) == old(self).entry(r, c),
    {
        proof {
            lemma_flat_index(row as int, col as int, self.rows_out as int, self.rows_in as int);
            assert forall|r: int, c: int|
                old(self).contains(r, c) && (r != row || c != col) implies r * self.rows_in + c
                != row * self.rows_in + col && 0 <= r * self.rows_in + c < self.data@.len() by {
                lemma_flat_index(r, c, self.rows_out as int, self.rows_in as int);
                if r * self.rows_in + c == row * self.rows_in + col {
                    lemma_flat_index_injective(
                        r,
                        c,
                        row as int,
                        col as int,
                        self.rows_in as int,
                    );
                }
            }
        }
        let total: usize = self.data.len();
        let at: usize = row * self.rows_in + col;
        self.data[at] = value;
    }

    /// The entries, row after row.
    pub fn flat(&self) -> (r: &[i16])
        ensures
            r@ == self.data@,
    {
        self.data.as_slice()
    }

    /// Bytes of the entries.
    pub fn allocated_bytes(&self) -> (r: usize)
        requires
            self.data@.len() * 2 <= usize::MAX,
        ensures
            r == self.data@.len() * 2,
    {
        self.data.len() * 2
    }
}

/// A matrix is stored row after row.
pub proof fn law_matrices_are_stored_by_rows(
    m: &CoeffMatrix,
    row: usize,
    col: usize,
    entry: i16,
    flat: &[i16],
)
    requires
        call_ensures(CoeffMatrix::at, (m, row, col), entry),
        call_ensures(CoeffMatrix::flat, (m,), flat),
    ensures
        entry == flat@[row * m.rows_in + col],
{
}

} // verus!
