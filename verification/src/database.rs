//! The payload database: its shape, the place of every payload in it, and the
//! coefficient matrices that hold it.
//!
//! Payloads are stored in columns of `height` rows: one digit per row. A column holds
//! `height / EXPONENT` payloads; the remaining rows are slack. The columns of one
//! block-row (a "matrix") are filled with their first payloads, then with their
//! second ones, and so on.

use core::marker::PhantomData;
use vstd::prelude::*;
use vstd::arithmetic::div_mod::*;
use vstd::arithmetic::power2::is_pow2;
use crate::arith::{div_ceil, just_enough, lemma_just_enough, lemma_quotient, spec_div_ceil};
use crate::error::PirError;
use crate::payload::Payload;

verus! {

/// Shape of a payload database.
#[derive(Debug)]
pub struct DatabaseLayout<P> {
    pub rows: usize,
    pub cols: usize,
    pub _phantom: PhantomData<P>,
}

impl<P> Clone for DatabaseLayout<P> {
    fn clone(&self) -> (r: Self)
        ensures
            r == *self,
    {
        *self
    }
}

impl<P> Copy for DatabaseLayout<P> {}

/// Where a payload lives.
#[derive(Clone, Copy, Debug, PartialEq, Eq, Structural)]
pub struct PayloadAddress {
    /// Block-row that holds the payload.
    pub matrix: usize,
    /// Column of the payload.
    pub column: usize,
    /// First row of the payload within its column.
    pub row_offset: usize,
    /// Column block of the column.
    pub block: usize,
    /// Position of the column within its block.
    pub column_in_block: usize,
}

/// The least power of two that is at least `x`.
pub open spec fn is_next_power_of_two(x: int, r: int) -> bool {
    is_pow2(r) && r >= x && (x >= 1 ==> r < 2 * x) && (x <= 1 ==> r == 1)
}

impl<P: Payload<[u8; 32]>> DatabaseLayout<P> {
    /// Non-empty dimensions whose product fits the machine.
    pub open spec fn wf(self) -> bool {
        self.rows >= 1 && self.cols >= 1 && self.rows * self.cols <= usize::MAX
    }

    /// Heights at which a payload fits a column.
    pub open spec fn fits(self, height: int) -> bool {
        1 <= P::EXPONENT <= height
    }

    pub open spec fn spec_payloads_per_column(self, height: int) -> int {
        height / P::EXPONENT as int
    }

    pub open spec fn spec_payloads_per_block_row(self, height: int) -> int {
        self.spec_payloads_per_column(height) * self.cols
    }

    pub open spec fn spec_block_rows(self, height: int) -> int {
        self.rows as int / height
    }

    pub open spec fn spec_num_payloads(self, height: int) -> int {
        self.spec_block_rows(height) * self.spec_payloads_per_block_row(height)
    }

    /// A layout, rejected when a dimension is zero.
    pub fn try_new(rows: usize, cols: usize) -> (r: Result<Self, PirError>)
        ensures
            match r {
                Ok(layout) => rows > 0 && cols > 0 && layout.rows == rows && layout.cols == cols,
                Err(e) => (rows == 0 || cols == 0) && e == (PirError::InvalidLayout { rows, cols }),
            },
    {
        if rows == 0 || cols == 0 {
            Err(PirError::InvalidLayout { rows, cols })
        } else {
            Ok(DatabaseLayout { rows, cols, _phantom: PhantomData })
        }
    }

    /// A layout of non-zero dimensions.
    pub fn new(rows: usize, cols: usize) -> (r: Self)
        requires
            rows > 0,
            cols > 0,
        ensures
            r.rows == rows,
            r.cols == cols,
    {
        DatabaseLayout { rows, cols, _phantom: PhantomData }
    }

    pub fn rows(&self) -> (r: usize)
        ensures
            r == self.rows,
    {
        self.rows
    }

    pub fn cols(&self) -> (r: usize)
        ensures
            r == self.cols,
    {
        self.cols
    }

    /// Number of digits of a payload.
    pub fn payload_digits(&self) -> (r: usize)
        ensures
            r == P::EXPONENT,
    {
        P::EXPONENT
    }

    /// Digit radix.
    pub fn p(&self) -> (r: i64)
        ensures
            r == P::BASIS,
    {
        P::BASIS as i64
    }

    /// Payloads in one column of the given height.
    pub fn payloads_per_column(&self, height: usize) -> (r: usize)
        requires
            self.fits(height as int),
        ensures
            r == self.spec_payloads_per_column(height as int),
            1 <= r <= height,
    {
        proof {
            self.lemma_per_column(height as int);
        }
        height / P::EXPONENT
    }

    proof fn lemma_per_column(self, height: int)
        requires
            self.fits(height),
        ensures
            1 <= self.spec_payloads_per_column(height) <= height,
            self.spec_payloads_per_column(height) * P::EXPONENT <= height,
    {
        let e = P::EXPONENT as int;
        let q = height / e;
        lemma_fundamental_div_mod(height, e);
        lemma_mod_pos_bound(height, e);
        assert(q >= 1 && q <= height && q * e <= height) by (nonlinear_arith)
            requires
                height == e * q + height % e,
                0 <= height % e < e,
                1 <= e <= height,
        ;
    }

    /// Capacity never exceeds the number of digit slots.
    pub proof fn lemma_capacity(self, height: int)
        requires
            self.wf(),
            self.fits(height),
        ensures
            0 <= self.spec_block_rows(height),
            1 <= self.spec_payloads_per_block_row(height),
            0 <= self.spec_num_payloads(height) <= self.rows * self.cols,
            self.spec_num_payloads(height) * P::EXPONENT <= self.rows * self.cols,
            self.spec_block_rows(height) * height <= self.rows,
            self.spec_block_rows(height) >= 1 ==> self.spec_payloads_per_block_row(height)
                <= self.rows * self.cols,
    {
        let b = self.spec_block_rows(height);
        let q = self.spec_payloads_per_column(height);
        let c = self.cols as int;
        let e = P::EXPONENT as int;
        self.lemma_per_column(height);
        lemma_fundamental_div_mod(self.rows as int, height);
        lemma_mod_pos_bound(self.rows as int, height);
        lemma_div_pos_is_pos(self.rows as int, height);
        assert(b * height == height * b) by (nonlinear_arith);
        assert(q * c >= 1) by (nonlinear_arith)
            requires
                q >= 1,
                c >= 1,
        ;
        assert(b * (q * c) >= 0) by (nonlinear_arith)
            requires
                b >= 0,
                q * c >= 1,
        ;
        assert(b * (q * c) * e <= self.rows * c) by (nonlinear_arith)
            requires
                b >= 0,
                c >= 1,
                q >= 1,
                q * e <= height,
                b * height <= self.rows,
        ;
        assert(b * (q * c) <= b * (q * c) * e) by (nonlinear_arith)
            requires
                b * (q * c) >= 0,
                e >= 1,
        ;
        if b >= 1 {
            assert(q * c <= b * (q * c)) by (nonlinear_arith)
                requires
                    b >= 1,
                    q * c >= 1,
            ;
        }
    }

    /// Payloads in one block-row of columns of the given height.
    pub fn payloads_per_block_row(&self, height: usize) -> (r: usize)
        requires
            self.wf(),
            self.fits(height as int),
            height <= self.rows,
        ensures
            r == self.spec_payloads_per_block_row(height as int),
            r >= 1,
    {
        proof {
            self.lemma_capacity(height as int);
            self.lemma_at_least_one_row(height as int);
        }
        self.payloads_per_column(height) * self.cols
    }

    proof fn lemma_at_least_one_row(self, height: int)
        requires
            1 <= height <= self.rows,
        ensures
            self.spec_block_rows(height) >= 1,
    {
        lemma_fundamental_div_mod(self.rows as int, height);
        lemma_mod_pos_bound(self.rows as int, height);
        let b = self.spec_block_rows(height);
        assert(b >= 1) by (nonlinear_arith)
            requires
                self.rows == height * b + self.rows as int % height,
                self.rows as int % height < height,
                1 <= height <= self.rows,
        ;
    }

    /// Block-rows of the given height.
    pub fn block_rows(&self, height: usize) -> (r: usize)
        requires
            height >= 1,
        ensures
            r == self.spec_block_rows(height as int),
    {
        self.rows / height
    }

    /// Batches of `gamma0` rows.
    pub fn grid_rows_for(&self, gamma0: usize) -> (r: usize)
        requires
            gamma0 >= 1,
        ensures
            r == self.spec_block_rows(gamma0 as int),
    {
        self.rows / gamma0
    }

    /// Whole column blocks of `n` columns.
    pub fn block_cols(&self, n: usize) -> (r: usize)
        requires
            n >= 1,
        ensures
            r == self.cols as int / n as int,
    {
        self.cols / n
    }

    /// Column blocks of `n` columns, the last one possibly short.
    pub fn column_blocks(&self, n: usize) -> (r: usize)
        requires
            n >= 1,
        ensures
            r == spec_div_ceil(self.cols as int, n as int),
    {
        div_ceil(self.cols, n)
    }

    /// Capacity in payloads.
    pub fn num_payloads(&self, height: usize) -> (r: usize)
        requires
            self.wf(),
            self.fits(height as int),
        ensures
            r == self.spec_num_payloads(height as int),
    {
        proof {
            self.lemma_capacity(height as int);
        }
        let block_rows: usize = self.rows / height;
        if block_rows == 0 {
            proof {
                assert(0 * self.spec_payloads_per_block_row(height as int) == 0) by (nonlinear_arith);
            }
            return 0;
        }
        let per_row: usize = self.payloads_per_column(height) * self.cols;
        block_rows * per_row
    }

    /// Number of stored digits, slack included.
    pub fn total_i16_slots(&self) -> (r: usize)
        requires
            self.wf(),
        ensures
            r == self.rows * self.cols,
    {
        self.rows * self.cols
    }

    /// Capacity in payload bytes.
    pub fn total_payload_bytes(&self, height: usize) -> (r: usize)
        requires
            self.wf(),
            self.fits(height as int),
            self.spec_num_payloads(height as int) * 32 <= usize::MAX,
        ensures
            r == self.spec_num_payloads(height as int) * 32,
    {
        self.num_payloads(height) * 32
    }

    /// Size of the second dimension: the block-rows, rounded up to a power of two.
    /// There are only `2n` roots of unity to place them on.
    pub fn interpolation_t(&self, n: usize) -> (r: usize)
        requires
            n >= 1,
            self.second_dimension_fits(n as int),
        ensures
            is_next_power_of_two(self.spec_block_rows(n as int), r as int),
            r <= 2 * n,
    {
        let b: usize = self.rows / n;
        let mut t: usize = 1;
        proof {
            reveal_with_fuel(is_pow2, 1);
        }
        while t < b
            invariant
                n >= 1,
                b == self.spec_block_rows(n as int),
                self.second_dimension_fits(n as int),
                t >= 1,
                is_pow2(t as int),
                t == 1 || t < 2 * b,
            decreases
                if t < b {
                    b - t
                } else {
                    0
                },
        {
            proof {
                reveal_with_fuel(is_pow2, 1);
                assert((2 * t) / 2 == t && (2 * t) % 2 == 0);
                lemma_doubling_bounded(b as int, t as int, 2 * n as int);
                lemma_fundamental_div_mod(self.rows as int, n as int);
                assert(b * n == n * b) by (nonlinear_arith);
                assert(2 * t <= usize::MAX) by (nonlinear_arith)
                    requires
                        t < b,
                        b * n <= self.rows,
                        self.rows <= usize::MAX,
                        n >= 1,
                        n == 1 ==> 2 * t <= 2 * n,
                ;
            }
            t = 2 * t;
        }
        assert(is_next_power_of_two(self.spec_block_rows(n as int), t as int));
        t
    }

    /// The second dimension does not exceed the `2n` roots of unity.
    pub open spec fn second_dimension_fits(self, n: int) -> bool {
        forall|t: int|
            #[trigger] is_next_power_of_two(self.spec_block_rows(n), t) ==> t <= 2 * n
    }

    /// [`Self::interpolation_t`], or nothing when it would exceed `2n`.
    pub fn try_interpolation_t(&self, n: usize) -> (r: Option<usize>)
        requires
            n >= 1,
            2 * n <= usize::MAX,
        ensures
            match r {
                Some(t) => self.second_dimension_fits(n as int) && is_next_power_of_two(
                    self.spec_block_rows(n as int),
                    t as int,
                ),
                None => !self.second_dimension_fits(n as int),
            },
    {
        let b: usize = self.rows / n;
        let mut t: usize = 1;
        proof {
            reveal_with_fuel(is_pow2, 1);
        }
        while t < b
            invariant
                n >= 1,
                2 * n <= usize::MAX,
                b == self.spec_block_rows(n as int),
                t >= 1,
                is_pow2(t as int),
                t == 1 || t < 2 * b,
            decreases
                if t < b {
                    b - t
                } else {
                    0
                },
        {
            proof {
                reveal_with_fuel(is_pow2, 1);
                assert((2 * t) / 2 == t && (2 * t) % 2 == 0);
            }
            if t > n {
                proof {
                    lemma_next_power_exists(b as int, t as int);
                    let u = choose|u: int| is_next_power_of_two(b as int, u) && u > t;
                    lemma_powers_apart(t as int, u);
                }
                return None;
            }
            t = 2 * t;
        }
        if t > 2 * n {
            assert(is_next_power_of_two(b as int, t as int));
            return None;
        }
        assert forall|u: int| #[trigger] is_next_power_of_two(b as int, u) implies u <= 2 * n by {
            lemma_next_power_unique(b as int, t as int, u);
        }
        Some(t)
    }

    /// Place of a payload, for column blocks of `n` columns.
    pub open spec fn spec_address(self, index: int, n: int, height: int) -> (int, int, int) {
        let per_row = self.spec_payloads_per_block_row(height);
        let local = index % per_row;
        (index / per_row, local % self.cols as int, (local / self.cols as int) * P::EXPONENT)
    }

    /// Place of payload `index`.
    pub fn address(&self, index: usize, n: usize, height: usize) -> (r: PayloadAddress)
        requires
            self.wf(),
            self.fits(height as int),
            n >= 1,
            index < self.spec_num_payloads(height as int),
        ensures
            (r.matrix as int, r.column as int, r.row_offset as int) == self.spec_address(
                index as int,
                n as int,
                height as int,
            ),
            r.block == r.column as int / n as int,
            r.column_in_block == r.column as int % n as int,
            r.matrix < self.spec_block_rows(height as int),
            r.column < self.cols,
            r.row_offset + P::EXPONENT <= height,
    {
        proof {
            self.lemma_capacity(height as int);
            self.lemma_address(index as int, n as int, height as int);
        }
        let per_row: usize = self.payloads_per_column(height) * self.cols;
        let matrix: usize = index / per_row;
        let local: usize = index % per_row;
        let column: usize = local % self.cols;
        let row_offset: usize = (local / self.cols) * P::EXPONENT;
        PayloadAddress {
            matrix,
            column,
            row_offset,
            block: column / n,
            column_in_block: column % n,
        }
    }

    /// Place of payload `index`, or an error when there is no such payload.
    pub fn try_address(&self, index: usize, n: usize, height: usize) -> (r: Result<
        PayloadAddress,
        PirError,
    >)
        requires
            self.wf(),
            self.fits(height as int),
            n >= 1,
        ensures
            match r {
                Ok(a) => index < self.spec_num_payloads(height as int) && (
                    a.matrix as int,
                    a.column as int,
                    a.row_offset as int,
                ) == self.spec_address(index as int, n as int, height as int) && a.block
                    == a.column as int / n as int && a.column_in_block == a.column as int % n as int,
                Err(e) => index >= self.spec_num_payloads(height as int) && e
                    == (PirError::PayloadOutOfBounds {
                    index,
                    capacity: self.spec_num_payloads(height as int) as usize,
                }),
            },
    {
        let capacity: usize = self.num_payloads(height);
        if index >= capacity {
            Err(PirError::PayloadOutOfBounds { index, capacity })
        } else {
            Ok(self.address(index, n, height))
        }
    }

    /// Every payload lies within the grid.
    pub proof fn lemma_address(self, index: int, n: int, height: int)
        requires
            self.wf(),
            self.fits(height),
            0 <= index < self.spec_num_payloads(height),
        ensures
            ({
                let (matrix, column, row) = self.spec_address(index, n, height);
                &&& 0 <= matrix < self.spec_block_rows(height)
                &&& 0 <= column < self.cols
                &&& 0 <= row
                &&& row + P::EXPONENT <= height
                &&& index == matrix * self.spec_payloads_per_block_row(height) + (row
                    / P::EXPONENT as int) * self.cols + column
                &&& row / (P::EXPONENT as int) < self.spec_payloads_per_column(height)
                &&& 0 <= row / P::EXPONENT as int
                &&& row % P::EXPONENT as int == 0
            }),
            self.spec_block_rows(height) >= 1,
            self.spec_payloads_per_block_row(height) <= self.rows * self.cols,
    {
        let per = self.spec_payloads_per_block_row(height);
        let b = self.spec_block_rows(height);
        let q = self.spec_payloads_per_column(height);
        let c = self.cols as int;
        let e = P::EXPONENT as int;
        self.lemma_capacity(height);
        self.lemma_per_column(height);
        assert(b >= 1) by (nonlinear_arith)
            requires
                index < b * per,
                index >= 0,
                per >= 1,
                b >= 0,
        ;
        let m = index / per;
        let local = index % per;
        lemma_fundamental_div_mod(index, per);
        lemma_mod_pos_bound(index, per);
        lemma_div_pos_is_pos(index, per);
        assert(m < b) by (nonlinear_arith)
            requires
                index == per * m + local,
                index < b * per,
                local >= 0,
                per >= 1,
        ;
        let slot = local / c;
        lemma_fundamental_div_mod(local, c);
        lemma_mod_pos_bound(local, c);
        lemma_div_pos_is_pos(local, c);
        assert(slot < q) by (nonlinear_arith)
            requires
                local == c * slot + local % c,
                local < q * c,
                local % c >= 0,
                c >= 1,
        ;
        assert(slot * e + e <= q * e && slot * e >= 0) by (nonlinear_arith)
            requires
                0 <= slot,
                slot + 1 <= q,
                e >= 1,
        ;
        lemma_quotient(slot * e, e, slot, 0);
        assert(per * m == m * per && c * slot == slot * c) by (nonlinear_arith);
    }

    /// Two payloads whose digits share a row of a column are the same payload.
    pub proof fn law_payloads_disjoint(
        self,
        i: int,
        j: int,
        n: int,
        height: int,
        di: int,
        dj: int,
    )
        requires
            self.wf(),
            self.fits(height),
            0 <= i < self.spec_num_payloads(height),
            0 <= j < self.spec_num_payloads(height),
            0 <= di < P::EXPONENT,
            0 <= dj < P::EXPONENT,
            self.spec_address(i, n, height).0 == self.spec_address(j, n, height).0,
            self.spec_address(i, n, height).1 == self.spec_address(j, n, height).1,
            self.spec_address(i, n, height).2 + di == self.spec_address(j, n, height).2 + dj,
        ensures
            i == j,
            di == dj,
    {
        self.lemma_address(i, n, height);
        self.lemma_address(j, n, height);
        let e = P::EXPONENT as int;
        let ri = self.spec_address(i, n, height).2;
        let rj = self.spec_address(j, n, height).2;
        lemma_fundamental_div_mod(ri, e);
        lemma_fundamental_div_mod(rj, e);
        lemma_quotient(ri + di, e, ri / e, di);
        lemma_quotient(rj + dj, e, rj / e, dj);
    }
}

impl<P: Payload<[u8; 32]>> DatabaseLayout<P> {
    /// There is a next power of two of the block-rows.
    pub proof fn lemma_second_dimension(self, n: int) -> (t: int)
        ensures
            is_next_power_of_two(self.spec_block_rows(n), t),
    {
        let b = self.spec_block_rows(n);
        reveal_with_fuel(is_pow2, 1);
        if b <= 1 {
            assert(is_next_power_of_two(b, 1));
            1
        } else {
            lemma_next_power_exists(b, 1);
            choose|u: int| is_next_power_of_two(b, u) && u > 1
        }
    }
}

impl<P: Payload<[u8; 32]>> DatabaseLayout<P> {
    /// In a ring whose degree is a power of two, the roots of unity suffice exactly where
    /// there is one for every block-row.
    pub proof fn lemma_second_dimension_fits(self, n: int)
        requires
            n >= 1,
            is_pow2(n),
        ensures
            self.second_dimension_fits(n) <==> self.spec_block_rows(n) <= 2 * n,
    {
        let b = self.spec_block_rows(n);
        let t = self.lemma_second_dimension(n);
        reveal_with_fuel(is_pow2, 2);
        assert((2 * n) / 2 == n && (2 * n) % 2 == 0);
        if b <= 2 * n {
            assert forall|u: int| #[trigger] is_next_power_of_two(b, u) implies u <= 2 * n by {
                if u > 2 * n {
                    lemma_powers_apart(2 * n, u);
                }
            }
        }
    }
}

/// There is only one next power of two.
pub proof fn lemma_next_power_unique(x: int, a: int, b: int)
    requires
        is_next_power_of_two(x, a),
        is_next_power_of_two(x, b),
    ensures
        a == b,
{
    if a < b {
        lemma_powers_apart(a, b);
    } else if b < a {
        lemma_powers_apart(b, a);
    }
}

/// Above every power of two below `x` lies the next power of two of `x`.
proof fn lemma_next_power_exists(x: int, v: int)
    requires
        is_pow2(v),
        1 <= v < x,
    ensures
        exists|u: int| is_next_power_of_two(x, u) && u > v,
    decreases x - v,
{
    reveal_with_fuel(is_pow2, 1);
    assert((2 * v) / 2 == v && (2 * v) % 2 == 0);
    assert(is_pow2(2 * v));
    if 2 * v < x {
        lemma_next_power_exists(x, 2 * v);
    } else {
        assert(is_next_power_of_two(x, 2 * v));
    }
}

/// A power of two below `x` stays within any bound on the next power of two of `x`
/// when doubled.
proof fn lemma_doubling_bounded(x: int, v: int, bound: int)
    requires
        is_pow2(v),
        1 <= v < x,
        forall|t: int| #[trigger] is_next_power_of_two(x, t) ==> t <= bound,
    ensures
        2 * v <= bound,
{
    lemma_next_power_exists(x, v);
    let u = choose|u: int| is_next_power_of_two(x, u) && u > v;
    lemma_powers_apart(v, u);
}

/// Distinct powers of two differ by a factor of at least two.
proof fn lemma_powers_apart(a: int, b: int)
    requires
        is_pow2(a),
        is_pow2(b),
        a < b,
    ensures
        2 * a <= b,
    decreases b,
{
    reveal_with_fuel(is_pow2, 1);
    if a > 1 {
        lemma_powers_apart(a / 2, b / 2);
    }
}

// ---------------------------------------------------------------------------
// What the numbers count
// ---------------------------------------------------------------------------

/// Columns hold as many payloads as fit, block-rows as many as their columns, and the
/// database as many as its whole block-rows. Blocks of `n` columns are just enough for all
/// columns.
pub proof fn law_capacity_counts_payloads<P: Payload<[u8; 32]>>(
    layout: &DatabaseLayout<P>,
    n: usize,
    height: usize,
    per_column: usize,
    per_block_row: usize,
    block_rows: usize,
    capacity: usize,
    bytes: usize,
    blocks: usize,
)
    requires
        layout.wf(),
        1 <= P::EXPONENT <= height,
        n >= 1,
        call_ensures(DatabaseLayout::<P>::payloads_per_column, (layout, height), per_column),
        call_ensures(DatabaseLayout::<P>::payloads_per_block_row, (layout, height), per_block_row),
        call_ensures(DatabaseLayout::<P>::block_rows, (layout, height), block_rows),
        call_ensures(DatabaseLayout::<P>::num_payloads, (layout, height), capacity),
        call_ensures(DatabaseLayout::<P>::total_payload_bytes, (layout, height), bytes),
        call_ensures(DatabaseLayout::<P>::column_blocks, (layout, n), blocks),
    ensures
        per_column * P::EXPONENT <= height < (per_column + 1) * P::EXPONENT,
        per_block_row == per_column * layout.cols,
        block_rows * height <= layout.rows < (block_rows + 1) * height,
        capacity == block_rows * per_block_row,
        bytes == capacity * 32,
        just_enough(blocks as int, n as int, layout.cols as int),
{
    let e = P::EXPONENT as int;
    let h = height as int;
    let q = h / e;
    let b = layout.rows as int / h;
    lemma_fundamental_div_mod(h, e);
    lemma_mod_pos_bound(h, e);
    assert(q * e <= h < (q + 1) * e) by (nonlinear_arith)
        requires
            h == e * q + h % e,
            0 <= h % e < e,
    ;
    lemma_fundamental_div_mod(layout.rows as int, h);
    lemma_mod_pos_bound(layout.rows as int, h);
    assert(b * h <= layout.rows < (b + 1) * h) by (nonlinear_arith)
        requires
            layout.rows == h * b + layout.rows as int % h,
            0 <= layout.rows as int % h < h,
    ;
    lemma_just_enough(blocks as int, n as int, layout.cols as int);
}

/// Every payload below the capacity has a place, and no other: columns are filled with
/// their first payloads from left to right, then with their second ones, and matrices one
/// after the other.
pub proof fn law_payloads_have_places<P: Payload<[u8; 32]>>(
    layout: &DatabaseLayout<P>,
    index: usize,
    n: usize,
    height: usize,
    per_column: usize,
    block_rows: usize,
    capacity: usize,
    r: Result<PayloadAddress, PirError>,
    address: PayloadAddress,
)
    requires
        layout.wf(),
        1 <= P::EXPONENT <= height,
        n >= 1,
        call_ensures(DatabaseLayout::<P>::payloads_per_column, (layout, height), per_column),
        call_ensures(DatabaseLayout::<P>::block_rows, (layout, height), block_rows),
        call_ensures(DatabaseLayout::<P>::num_payloads, (layout, height), capacity),
        call_ensures(DatabaseLayout::<P>::try_address, (layout, index, n, height), r),
        index < capacity ==> call_ensures(
            DatabaseLayout::<P>::address,
            (layout, index, n, height),
            address,
        ),
    ensures
        capacity == block_rows * (per_column * layout.cols),
        index < capacity ==> r == Ok::<PayloadAddress, PirError>(address),
        index >= capacity ==> r == Err::<PayloadAddress, PirError>(
            PirError::PayloadOutOfBounds { index, capacity },
        ),
        index < capacity ==> {
            let slot = address.row_offset as int / P::EXPONENT as int;
            &&& address.row_offset == slot * P::EXPONENT
            &&& 0 <= slot < per_column
            &&& address.column < layout.cols
            &&& address.matrix < block_rows
            &&& index == address.matrix * (per_column * layout.cols) + slot * layout.cols
                + address.column
            &&& address.column == address.block * n + address.column_in_block
            &&& address.column_in_block < n
        },
{
    if index < capacity {
        let e = P::EXPONENT as int;
        layout.lemma_address(index as int, n as int, height as int);
        lemma_fundamental_div_mod(address.row_offset as int, e);
        assert(e * (address.row_offset as int / e) == (address.row_offset as int / e) * e)
            by (nonlinear_arith);
        lemma_fundamental_div_mod(address.column as int, n as int);
        lemma_mod_pos_bound(address.column as int, n as int);
        assert(n * (address.column as int / n as int) == (address.column as int / n as int) * n)
            by (nonlinear_arith);
        let a = layout.spec_address(index as int, n as int, height as int);
        match r {
            Ok(found) => {
                assert(found.matrix == a.0 && found.column == a.1 && found.row_offset == a.2);
                assert(found == address);
            },
            Err(_) => {},
        }
    }
}

/// The second dimension is the least power of two that holds the block-rows. In a ring
/// whose degree is a power of two it exists exactly where there is a root of unity for
/// every block-row.
pub proof fn law_second_dimension_holds_block_rows<P: Payload<[u8; 32]>>(
    layout: &DatabaseLayout<P>,
    n: usize,
    r: Option<usize>,
)
    requires
        n >= 1,
        is_pow2(n as int),
        call_ensures(DatabaseLayout::<P>::try_interpolation_t, (layout, n), r),
    ensures
        r is Some <==> layout.rows as int / n as int <= 2 * n,
        r matches Some(t) ==> {
            &&& is_pow2(t as int)
            &&& t >= 1
            &&& t >= layout.rows as int / n as int
            &&& t <= 2 * n
            &&& t >= 2 ==> t < 2 * (layout.rows as int / n as int)
            &&& call_requires(DatabaseLayout::<P>::interpolation_t, (layout, n))
            &&& forall|s: usize| #[trigger]
                call_ensures(DatabaseLayout::<P>::interpolation_t, (layout, n), s) ==> s == t
        },
{
    let b = layout.rows as int / n as int;
    reveal_with_fuel(is_pow2, 2);
    assert((2 * n) / 2 == n as int && (2 * n) % 2 == 0);
    assert(is_pow2(2 * n));
    match r {
        Some(t) => {
            assert forall|s: usize| #[trigger]
                call_ensures(DatabaseLayout::<P>::interpolation_t, (layout, n), s) implies s
                == t by {
                lemma_next_power_unique(b, t as int, s as int);
            }
        },
        None => {
            let t = choose|t: int|
                #[trigger] is_next_power_of_two(layout.spec_block_rows(n as int), t) && t > 2 * n;
            if b <= 2 * n {
                lemma_powers_apart(2 * n, t);
                assert(b < 2 * n || b == 2 * n);
            }
        },
    }
}

/// Whole blocks of columns and whole batches of rows are as many as fit, and the slots are all
/// cells of the grid.
pub proof fn law_grid_counts<P: Payload<[u8; 32]>>(
    layout: &DatabaseLayout<P>,
    n: usize,
    gamma0: usize,
    blocks: usize,
    batches: usize,
    slots: usize,
)
    requires
        n >= 1,
        gamma0 >= 1,
        call_ensures(DatabaseLayout::<P>::block_cols, (layout, n), blocks),
        call_ensures(DatabaseLayout::<P>::grid_rows_for, (layout, gamma0), batches),
        call_ensures(DatabaseLayout::<P>::total_i16_slots, (layout,), slots),
    ensures
        blocks * n <= layout.cols < (blocks + 1) * n,
        batches * gamma0 <= layout.rows < (batches + 1) * gamma0,
        slots == layout.rows * layout.cols,
{
    let cols = layout.cols as int;
    let rows = layout.rows as int;
    let w = n as int;
    let h = gamma0 as int;
    lemma_fundamental_div_mod(cols, w);
    lemma_mod_pos_bound(cols, w);
    lemma_fundamental_div_mod(rows, h);
    lemma_mod_pos_bound(rows, h);
    assert(blocks * w <= cols < (blocks + 1) * w) by (nonlinear_arith)
        requires
            cols == w * blocks + cols % w,
            0 <= cols % w < w,
    ;
    assert(batches * h <= rows < (batches + 1) * h) by (nonlinear_arith)
        requires
            rows == h * batches + rows % h,
            0 <= rows % h < h,
    ;
}

} // verus!
