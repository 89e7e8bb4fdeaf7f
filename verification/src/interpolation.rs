//! Interpolation of the database over roots of unity.
//!
//! The matrices of a database are the values of a polynomial at the roots
//! `1, w, w^2, ..` with `w = X^(2n / t)`, which are units of order `t` in the ring where
//! `X^n = -1`. Its coefficients, the panels, are what the server multiplies with a query;
//! evaluating the answers at root `m` leaves the answer of matrix `m`.

use vstd::prelude::*;
use vstd::arithmetic::div_mod::*;
use vstd::arithmetic::power2::is_pow2;
use crate::arith::lemma_quotient;
use crate::encoding::{centre_i128, centred_residue, lemma_centred_residue};
use crate::matrix::{lemma_flat_index, CoeffMatrix};
use crate::payload::Payload;
use crate::query::{law_roots_are_distinct, root_exponent, root_monomial, Monomial};
use crate::ring::{
    lemma_congruent_coefficients, lemma_periodic, negacyclic, poly_zero, rotate, Poly,
};
use crate::store::Database;
use crate::sums::{
    int_sum, lemma_int_sum_congruent, lemma_int_sum_constant, lemma_int_sum_mod,
    lemma_int_sum_negate, lemma_int_sum_scale, lemma_int_sum_shift, lemma_int_sum_single,
    lemma_int_sum_split, lemma_multiple_scales, lemma_multiples_add, lemma_sum_swap,
};

verus! {

/// Exponent of the primitive root of order `t`.
pub open spec fn root_step(n: int, t: int) -> int {
    (2 * n) / t
}

/// The coefficients of `f` at `x, x + by, x + 2 * by, ..`.
pub open spec fn strided(f: Poly, x: int, by: int) -> spec_fn(int) -> int {
    |j: int| f(x + by * j)
}

/// Coefficient `x` of `w^(-j * k) * f(k)`, for every `k`.
pub open spec fn inverse_terms(f: spec_fn(int) -> Poly, step: int, j: int, x: int) -> spec_fn(
    int,
) -> int {
    |k: int| f(k)(x + step * k * j)
}

/// Coefficient `x` of `X^(e * j) * panels(j)`, for every `j`.
pub open spec fn value_terms(panels: spec_fn(int) -> Poly, e: int, x: int) -> spec_fn(int) -> int {
    |j: int| rotate(e * j, panels(j))(x)
}

/// Coefficient `x` of the polynomial with coefficients `panels` at the point `X^e`.
pub open spec fn value_at(panels: spec_fn(int) -> Poly, t: int, e: int, x: int) -> int {
    int_sum(0, t, value_terms(panels, e, x))
}

/// The panels are the coefficients of the polynomial that takes the values `matrices` at
/// the roots, modulo `p`; `inverse` is the inverse of `t`.
pub open spec fn is_interpolation(
    n: int,
    t: int,
    p: int,
    inverse: int,
    matrices: spec_fn(int) -> Poly,
    panels: spec_fn(int) -> Poly,
) -> bool {
    forall|j: int, x: int|
        0 <= j < t ==> (#[trigger] panels(j)(x) - inverse * int_sum(
            0,
            t,
            inverse_terms(matrices, root_step(n, t), j, x),
        )) % p == 0
}

/// The powers of a root of unity other than one add up to zero.
proof fn lemma_roots_cancel(n: int, s: int, t: int, d: int, f: Poly, x: int)
    requires
        n >= 1,
        negacyclic(n, f),
        s * t == 2 * n,
        t >= 1,
        is_pow2(t),
        -t < d < t,
        d != 0,
    ensures
        int_sum(0, t, strided(f, x, s * d)) == 0,
    decreases t,
{
    reveal_with_fuel(is_pow2, 2);
    let h = t / 2;
    assert(t == 2 * h && is_pow2(h) && h >= 1);
    let g = strided(f, x, s * d);
    let shifted = |j: int| g(j + h);
    lemma_int_sum_split(0, h, t, g);
    lemma_int_sum_shift(0, h, h, g);
    assert(s * h == n) by (nonlinear_arith)
        requires
            s * t == 2 * n,
            t == 2 * h,
    ;
    let c = d / 2;
    if d % 2 == 0 {
        assert(d == 2 * c);
        assert forall|j: int| 0 <= j < h implies #[trigger] shifted(j) == g(j) by {
            assert(x + s * d * (j + h) == (x + s * d * j) + 2 * n * c) by (nonlinear_arith)
                requires
                    s * h == n,
                    d == 2 * c,
            ;
            lemma_periodic(n, f, x + s * d * j, c);
        }
        lemma_int_sum_congruent(0, h, shifted, g);
        assert((2 * s) * h == 2 * n) by (nonlinear_arith)
            requires
                s * h == n,
        ;
        lemma_roots_cancel(n, 2 * s, h, c, f, x);
        assert((2 * s) * c == s * d) by (nonlinear_arith)
            requires
                d == 2 * c,
        ;
    } else {
        assert(d == 2 * c + 1);
        let negated = |j: int| -g(j);
        assert forall|j: int| 0 <= j < h implies #[trigger] shifted(j) == negated(j) by {
            let y = x + s * d * j;
            assert(x + s * d * (j + h) == (y + n) + 2 * n * c) by (nonlinear_arith)
                requires
                    s * h == n,
                    d == 2 * c + 1,
                    y == x + s * d * j,
            ;
            lemma_periodic(n, f, y + n, c);
            assert(f(y + n) == -f(y));
        }
        lemma_int_sum_congruent(0, h, shifted, negated);
        lemma_int_sum_negate(0, h, g);
    }
}

/// Interpolation is undone by evaluation: at root `m`, the polynomial with the panels as
/// coefficients takes the value of matrix `m`.
pub proof fn law_interpolation_evaluates(
    n: int,
    t: int,
    p: int,
    inverse: int,
    matrices: spec_fn(int) -> Poly,
    panels: spec_fn(int) -> Poly,
    m: int,
    x: int,
)
    requires
        n >= 1,
        t >= 1,
        is_pow2(t),
        (2 * n) % t == 0,
        p >= 2,
        (inverse * t) % p == 1,
        forall|k: int| negacyclic(n, #[trigger] matrices(k)),
        is_interpolation(n, t, p, inverse, matrices, panels),
        0 <= m < t,
    ensures
        (value_at(panels, t, root_step(n, t) * m, x) - matrices(m)(x)) % p == 0,
{
    let s = root_step(n, t);
    lemma_fundamental_div_mod(2 * n, t);
    assert(s * t == 2 * n) by (nonlinear_arith)
        requires
            2 * n == t * s + 0,
    ;
    // Replace every panel by the sum that defines it.
    let terms = value_terms(panels, s * m, x);
    let cell = |j: int, k: int| matrices(k)(x + s * (k - m) * j);
    let by_panel = |j: int| int_sum(0, t, |k: int| cell(j, k));
    let scaled = |j: int| inverse * by_panel(j);
    assert forall|j: int| 0 <= j < t implies (#[trigger] terms(j) - scaled(j)) % p == 0 by {
        let y = x - s * m * j;
        assert((panels(j)(y) - inverse * int_sum(0, t, inverse_terms(matrices, s, j, y))) % p == 0);
        let from = inverse_terms(matrices, s, j, y);
        let to = |k: int| cell(j, k);
        assert forall|k: int| 0 <= k < t implies #[trigger] from(k) == to(k) by {
            assert(y + s * k * j == x + s * (k - m) * j) by (nonlinear_arith)
                requires
                    y == x - s * m * j,
            ;
        }
        lemma_int_sum_congruent(0, t, from, to);
    }
    lemma_int_sum_mod(0, t, p, terms, scaled);
    lemma_int_sum_scale(0, t, inverse, by_panel);
    // Sum over the panels first: every other matrix cancels.
    lemma_sum_swap(t, t, cell);
    let by_matrix = |k: int| int_sum(0, t, |j: int| cell(j, k));
    assert forall|k: int| 0 <= k < t && k != m implies #[trigger] by_matrix(k) == 0 by {
        lemma_roots_cancel(n, s, t, k - m, matrices(k), x);
        let column = |j: int| cell(j, k);
        lemma_int_sum_congruent(0, t, column, strided(matrices(k), x, s * (k - m)));
    }
    lemma_int_sum_single(0, t, m, by_matrix);
    let v = matrices(m)(x);
    let own = |j: int| cell(j, m);
    assert forall|j: int| 0 <= j < t implies #[trigger] own(j) == (|i: int| v)(j) by {
        assert(x + s * (m - m) * j == x) by (nonlinear_arith);
    }
    lemma_int_sum_congruent(0, t, own, |i: int| v);
    lemma_int_sum_constant(0, t, v);
    assert(by_matrix(m) == t * v);
    // What is left is the matrix, `inverse * t` times.
    let sum = int_sum(0, t, terms);
    assert((sum - inverse * (t * v)) % p == 0);
    lemma_fundamental_div_mod(inverse * t, p);
    let q = (inverse * t) / p;
    assert(inverse * (t * v) - v == v * (p * q)) by (nonlinear_arith)
        requires
            inverse * t == p * q + 1,
    ;
    lemma_quotient(p * q, p, q, 0);
    lemma_multiple_scales(p * q, v, p);
    lemma_multiples_add(sum - inverse * (t * v), inverse * (t * v) - v, p);
}

// ---------------------------------------------------------------------------
// Columns of matrices as polynomials
// ---------------------------------------------------------------------------

/// The polynomial with the coefficients `f(0) .. f(n - 1)`.
pub open spec fn extend(n: int, f: spec_fn(int) -> int) -> Poly {
    |x: int|
        {
            let e = x % (2 * n);
            if e < n {
                f(e)
            } else {
                -f(e - n)
            }
        }
}

pub proof fn lemma_extend(n: int, f: spec_fn(int) -> int)
    requires
        n >= 1,
    ensures
        negacyclic(n, extend(n, f)),
        forall|x: int| 0 <= x < n ==> #[trigger] extend(n, f)(x) == f(x),
{
    let g = extend(n, f);
    assert forall|x: int| #[trigger] g(x + n) == -g(x) by {
        lemma_fundamental_div_mod(x, 2 * n);
        lemma_mod_bound(x, 2 * n);
        let e = x % (2 * n);
        let q = x / (2 * n);
        if e < n {
            lemma_quotient(x + n, 2 * n, q, e + n);
        } else {
            assert((2 * n) * (q + 1) == (2 * n) * q + 2 * n) by (nonlinear_arith);
            lemma_quotient(x + n, 2 * n, q + 1, e - n);
        }
    }
    assert forall|x: int| 0 <= x < n implies #[trigger] g(x) == f(x) by {
        lemma_quotient(x, 2 * n, 0, x);
    }
}

/// Column `c` of a matrix.
pub open spec fn column_entries(u: CoeffMatrix, c: int) -> spec_fn(int) -> int {
    |r: int| u.entry(r, c) as int
}

/// Column `c` of column block `b` of every panel.
pub open spec fn panel_column(
    blocks: Seq<CoeffMatrix>,
    n: int,
    column_blocks: int,
    b: int,
    c: int,
) -> spec_fn(int) -> Poly {
    |j: int| extend(n, column_entries(blocks[j * column_blocks + b], c))
}

impl<P: Payload<[u8; 32]>> Database<P> {
    /// Column `c` of column block `b` of every matrix; there are no digits past the last.
    pub open spec fn matrix_column(self, b: int, c: int) -> spec_fn(int) -> Poly {
        |k: int|
            if 0 <= k < self.spec_physical_rows() {
                extend(
                    self.n as int,
                    column_entries(self.blocks@[k * self.spec_column_blocks() + b], c),
                )
            } else {
                poly_zero()
            }
    }
}

/// Coefficient `e` of the polynomial of column `c`, for `e` below `2n`.
fn coefficient(u: &CoeffMatrix, n: usize, e: usize, c: usize) -> (r: i64)
    requires
        u.wf(),
        u.rows_out == n,
        c < u.rows_in,
        e < 2 * n,
    ensures
        r == extend(n as int, column_entries(*u, c as int))(e as int),
        -32768 <= r <= 32768,
{
    proof {
        lemma_quotient(e as int, 2 * n, 0, e as int);
    }
    if e < n {
        u.at(e, c) as i64
    } else {
        -(u.at(e - n, c) as i64)
    }
}

/// Interpolation of matrices of degree `n` at `panels` roots, modulo `p`.
#[derive(Clone, Copy, Debug, PartialEq, Eq, Structural)]
pub struct Interpolation {
    pub n: usize,
    pub panels: usize,
    pub p: i64,
    /// Inverse of `panels` modulo `p`.
    pub inverse: i64,
}

impl Interpolation {
    pub open spec fn wf(self) -> bool {
        &&& self.n >= 1
        &&& 2 * self.n <= usize::MAX
        &&& self.panels >= 1
        &&& is_pow2(self.panels as int)
        &&& (2 * self.n) % self.panels as int == 0
        &&& 2 <= self.p <= 65536
        &&& 0 <= self.inverse < self.p
        &&& (self.inverse * self.panels) % self.p as int == 1
    }

    pub open spec fn step(self) -> int {
        root_step(self.n as int, self.panels as int)
    }

    /// Interpolation at the roots of order `panels`, which must have an inverse modulo `p`.
    pub fn new(n: usize, panels: usize, p: i64) -> (r: Self)
        requires
            n >= 1,
            2 * n <= usize::MAX,
            panels >= 1,
            is_pow2(panels as int),
            (2 * n) % panels as int == 0,
            2 <= p <= 65536,
            p % 2 == 1 || panels == 1,
        ensures
            r.wf(),
            r.n == n,
            r.panels == panels,
            r.p == p,
    {
        let half: i64 = (p + 1) / 2;
        let mut inverse: i64 = 1;
        let mut rest: usize = panels;
        let ghost mut done: int = 1;
        proof {
            lemma_quotient(1, p as int, 0, 1);
        }
        while rest > 1
            invariant
                rest >= 1,
                is_pow2(rest as int),
                done >= 1,
                done * rest == panels,
                2 <= p <= 65536,
                half == (p + 1) / 2,
                p % 2 == 1 || panels == 1,
                0 <= inverse < p,
                (inverse * done) % p as int == 1,
            decreases rest,
        {
            proof {
                reveal_with_fuel(is_pow2, 2);
                assert(done * rest > 1) by (nonlinear_arith)
                    requires
                        done >= 1,
                        rest > 1,
                ;
                let h = half as int;
                assert(2 * h == p + 1);
                let w = (inverse * half) as int;
                assert(0 <= w < 65536 * 65536) by (nonlinear_arith)
                    requires
                        w == inverse * half,
                        0 <= inverse < 65536,
                        0 <= half < 65536,
                ;
                lemma_fundamental_div_mod(inverse * done, p as int);
                lemma_fundamental_div_mod(w, p as int);
                lemma_mod_bound(w, p as int);
                let q = (inverse * done) / p as int;
                let v = w / p as int;
                let x = w % p as int;
                assert(x * (2 * done) == p * (q + inverse * done - v * (2 * done)) + 1)
                    by (nonlinear_arith)
                    requires
                        w == p * v + x,
                        w == inverse * h,
                        2 * h == p + 1,
                        inverse * done == p * q + 1,
                ;
                lemma_quotient(
                    x * (2 * done),
                    p as int,
                    q + inverse * done - v * (2 * done),
                    1,
                );
                let next = rest as int / 2;
                assert((2 * done) * next == done * rest) by (nonlinear_arith)
                    requires
                        rest == 2 * next,
                ;
                done = 2 * done;
            }
            inverse = (inverse * half) % p;
            rest = rest / 2;
        }
        assert(done * 1 == done);
        Interpolation { n, panels, p, inverse }
    }

    pub fn num_panels(&self) -> (r: usize)
        ensures
            r == self.panels,
    {
        self.panels
    }

    /// Entry of a panel: the inverse transform of the matrices, scaled by the inverse of
    /// their number.
    pub open spec fn spec_entry<P: Payload<[u8; 32]>>(
        self,
        db: Database<P>,
        j: int,
        b: int,
        row: int,
        c: int,
    ) -> int {
        centred_residue(
            self.inverse * int_sum(
                0,
                self.panels as int,
                inverse_terms(db.matrix_column(b, c), self.step(), j, row),
            ),
            self.p as int,
        )
    }

    /// The matrices of the database lie within reach of the roots.
    pub open spec fn covers<P: Payload<[u8; 32]>>(self, db: Database<P>) -> bool {
        &&& self.wf()
        &&& db.wf()
        &&& db.n == self.n
        &&& db.spec_physical_rows() <= self.panels
        &&& self.n * self.n <= usize::MAX
        &&& self.panels * db.spec_column_blocks() <= usize::MAX
    }

    /// `(row + step * k * j) mod 2n`.
    fn exponent(&self, k: usize, j: usize, row: usize) -> (r: usize)
        requires
            self.wf(),
            k < self.panels,
        ensures
            r == (row + self.step() * k * j) % (2 * self.n),
            r < 2 * self.n,
    {
        let step: usize = (2 * self.n) / self.panels;
        proof {
            lemma_fundamental_div_mod(2 * self.n, self.panels as int);
            lemma_div_pos_is_pos(2 * self.n, self.panels as int);
            assert(0 <= step * k <= 2 * self.n) by (nonlinear_arith)
                requires
                    2 * self.n == self.panels * step + 0,
                    0 <= k < self.panels,
                    step >= 0,
            ;
            let a = step * k;
            assert(0 <= a * j <= 0xffff_ffff_ffff_ffff * 0xffff_ffff_ffff_ffff)
                by (nonlinear_arith)
                requires
                    0 <= a <= 0xffff_ffff_ffff_ffff,
                    0 <= j <= 0xffff_ffff_ffff_ffff,
            ;
            lemma_mod_bound(row + self.step() * k * j, 2 * self.n);
        }
        let turn: u128 = (step * k) as u128 * j as u128 + row as u128;
        (turn % (2 * self.n) as u128) as usize
    }

    /// One entry of a panel.
    fn panel_entry<P: Payload<[u8; 32]>>(
        &self,
        db: &Database<P>,
        j: usize,
        b: usize,
        row: usize,
        c: usize,
    ) -> (r: i16)
        requires
            self.covers(*db),
            j < self.panels,
            b < db.spec_column_blocks(),
            row < self.n,
            c < self.n,
        ensures
            r == self.spec_entry(*db, j as int, b as int, row as int, c as int),
    {
        let n: usize = self.n;
        let count: usize = db.physical_rows();
        let ghost matrices = db.matrix_column(b as int, c as int);
        let ghost terms = inverse_terms(matrices, self.step(), j as int, row as int);
        let mut sum: i128 = 0;
        let mut k: usize = 0;
        while k < count
            invariant
                k <= count,
                count == db.spec_physical_rows(),
                n == self.n,
                self.covers(*db),
                b < db.spec_column_blocks(),
                row < n,
                c < n,
                matrices == db.matrix_column(b as int, c as int),
                terms == inverse_terms(matrices, self.step(), j as int, row as int),
                sum == int_sum(0, k as int, terms),
                -32768 * k <= sum <= 32768 * k,
            decreases count - k,
        {
            let e: usize = self.exponent(k, j, row);
            let u = db.physical_block(k, b);
            proof {
                let f = extend(n as int, column_entries(*u, c as int));
                let x = row + self.step() * k * j;
                lemma_extend(n as int, column_entries(*u, c as int));
                lemma_mod_bound(x, 2 * n);
                lemma_small_mod(e as nat, (2 * n) as nat);
                lemma_congruent_coefficients(n as int, f, x, e as int);
                assert(terms(k as int) == f(x));
            }
            sum = sum + coefficient(u, n, e, c) as i128;
            k = k + 1;
        }
        proof {
            let t = self.panels as int;
            lemma_int_sum_split(0, count as int, t, terms);
            lemma_int_sum_congruent(count as int, t, terms, |i: int| 0int);
            lemma_int_sum_constant(count as int, t, 0);
            assert((t - count) * 0 == 0) by (nonlinear_arith);
            let w = self.inverse as int;
            let bound = 0x1_0000_0000_0000_0000_0000int;
            assert(-bound * 65536 <= w * sum <= bound * 65536) by (nonlinear_arith)
                requires
                    0 <= w <= 65536,
                    -bound <= sum <= bound,
                    bound >= 0,
            ;
            lemma_centred_residue(w * sum, self.p as int);
        }
        centre_i128(self.inverse as i128 * sum, self.p) as i16
    }

    /// The blocks are the panels of the database.
    pub open spec fn are_panels<P: Payload<[u8; 32]>>(
        self,
        db: Database<P>,
        blocks: Seq<CoeffMatrix>,
    ) -> bool {
        let cb = db.spec_column_blocks();
        &&& blocks.len() == self.panels * cb
        &&& forall|i: int|
            0 <= i < blocks.len() ==> {
                &&& (#[trigger] blocks[i]).wf()
                &&& blocks[i].rows_out == self.n
                &&& blocks[i].rows_in == self.n
            }
        &&& forall|j: int, b: int, row: int, c: int|
            0 <= j < self.panels && 0 <= b < cb && 0 <= row < self.n && 0 <= c < self.n
                ==> #[trigger] blocks[j * cb + b].entry(row, c) == self.spec_entry(
                db,
                j,
                b,
                row,
                c,
            )
    }

    /// One block of a panel.
    fn panel<P: Payload<[u8; 32]>>(&self, db: &Database<P>, j: usize, b: usize) -> (r: CoeffMatrix)
        requires
            self.covers(*db),
            j < self.panels,
            b < db.spec_column_blocks(),
        ensures
            r.wf(),
            r.rows_out == self.n,
            r.rows_in == self.n,
            forall|row: int, c: int|
                0 <= row < self.n && 0 <= c < self.n ==> #[trigger] r.entry(row, c)
                    == self.spec_entry(*db, j as int, b as int, row, c),
    {
        let n: usize = self.n;
        let mut out: CoeffMatrix = CoeffMatrix::zeros(n, n);
        let mut row: usize = 0;
        while row < n
            invariant
                row <= n,
                n == self.n,
                self.covers(*db),
                j < self.panels,
                b < db.spec_column_blocks(),
                out.wf(),
                out.rows_out == n,
                out.rows_in == n,
                forall|x: int, c: int|
                    0 <= x < row && 0 <= c < n ==> #[trigger] out.entry(x, c) == self.spec_entry(
                        *db,
                        j as int,
                        b as int,
                        x,
                        c,
                    ),
            decreases n - row,
        {
            let mut c: usize = 0;
            while c < n
                invariant
                    c <= n,
                    row < n,
                    n == self.n,
                    self.covers(*db),
                    j < self.panels,
                    b < db.spec_column_blocks(),
                    out.wf(),
                    out.rows_out == n,
                    out.rows_in == n,
                    forall|x: int, y: int|
                        0 <= y < n && (0 <= x < row || x == row && y < c)
                            ==> #[trigger] out.entry(x, y) == self.spec_entry(
                            *db,
                            j as int,
                            b as int,
                            x,
                            y,
                        ),
                decreases n - c,
            {
                let v: i16 = self.panel_entry(db, j, b, row, c);
                out.set(row, c, v);
                c = c + 1;
            }
            row = row + 1;
        }
        out
    }

    /// The panels of the database: coefficient `j` of the polynomial that takes matrix `m`
    /// as its value at root `m` is panel `j`.
    pub fn interpolate<P: Payload<[u8; 32]>>(&self, db: &Database<P>) -> (r: Vec<CoeffMatrix>)
        requires
            self.covers(*db),
        ensures
            self.are_panels(*db, r@),
    {
        let cb: usize = db.column_blocks();
        let mut out: Vec<CoeffMatrix> = Vec::new();
        let mut j: usize = 0;
        while j < self.panels
            invariant
                j <= self.panels,
                cb == db.spec_column_blocks(),
                self.covers(*db),
                out@.len() == j * cb,
                forall|i: int|
                    0 <= i < out@.len() ==> {
                        &&& (#[trigger] out@[i]).wf()
                        &&& out@[i].rows_out == self.n
                        &&& out@[i].rows_in == self.n
                    },
                forall|x: int, b: int, row: int, c: int|
                    0 <= x < j && 0 <= b < cb && 0 <= row < self.n && 0 <= c < self.n
                        ==> #[trigger] out@[x * cb + b].entry(row, c) == self.spec_entry(
                        *db,
                        x,
                        b,
                        row,
                        c,
                    ),
            decreases self.panels - j,
        {
            let mut b: usize = 0;
            while b < cb
                invariant
                    b <= cb,
                    j < self.panels,
                    cb == db.spec_column_blocks(),
                    self.covers(*db),
                    out@.len() == j * cb + b,
                    forall|i: int|
                        0 <= i < out@.len() ==> {
                            &&& (#[trigger] out@[i]).wf()
                            &&& out@[i].rows_out == self.n
                            &&& out@[i].rows_in == self.n
                        },
                    forall|x: int, y: int, row: int, c: int|
                        (0 <= x < j && 0 <= y < cb || x == j && 0 <= y < b) && 0 <= row < self.n
                            && 0 <= c < self.n ==> #[trigger] out@[x * cb + y].entry(row, c)
                            == self.spec_entry(*db, x, y, row, c),
                decreases cb - b,
            {
                let ghost before = out@;
                out.push(self.panel(db, j, b));
                proof {
                    assert forall|x: int, y: int, row: int, c: int|
                        (0 <= x < j && 0 <= y < cb || x == j && 0 <= y < b + 1) && 0 <= row < self.n
                            && 0 <= c < self.n implies #[trigger] out@[x * cb + y].entry(row, c)
                        == self.spec_entry(*db, x, y, row, c) by {
                        if x < j {
                            lemma_flat_index(x, y, j as int, cb as int);
                            assert(out@[x * cb + y] == before[x * cb + y]);
                        } else if y < b {
                            assert(out@[x * cb + y] == before[x * cb + y]);
                        }
                    }
                }
                b = b + 1;
            }
            assert((j + 1) * cb == j * cb + cb) by (nonlinear_arith);
            j = j + 1;
        }
        out
    }
}

// ---------------------------------------------------------------------------
// Evaluation
// ---------------------------------------------------------------------------

/// Polynomials whose coefficients are congruent are congruent at every exponent.
pub proof fn lemma_congruent_everywhere(n: int, p: int, f: Poly, g: Poly, x: int)
    requires
        n >= 1,
        p >= 1,
        negacyclic(n, f),
        negacyclic(n, g),
        forall|r: int| 0 <= r < n ==> (#[trigger] f(r) - g(r)) % p == 0,
    ensures
        (f(x) - g(x)) % p == 0,
{
    let e = x % (2 * n);
    lemma_mod_bound(x, 2 * n);
    lemma_small_mod(e as nat, (2 * n) as nat);
    lemma_congruent_coefficients(n, f, x, e);
    lemma_congruent_coefficients(n, g, x, e);
    if e >= n {
        let r = e - n;
        assert(f(r + n) == -f(r));
        assert(g(r + n) == -g(r));
        lemma_multiple_scales(f(r) - g(r), -1, p);
    }
}

/// Coefficient `x` of the inverse transform is a polynomial in `x`.
proof fn lemma_inverse_negacyclic(
    n: int,
    t: int,
    step: int,
    j: int,
    matrices: spec_fn(int) -> Poly,
)
    requires
        forall|k: int| negacyclic(n, #[trigger] matrices(k)),
    ensures
        negacyclic(n, |x: int| int_sum(0, t, inverse_terms(matrices, step, j, x))),
{
    let f = |x: int| int_sum(0, t, inverse_terms(matrices, step, j, x));
    assert forall|x: int| #[trigger] f(x + n) == -f(x) by {
        let a = inverse_terms(matrices, step, j, x + n);
        let b = inverse_terms(matrices, step, j, x);
        let c = |k: int| -b(k);
        assert forall|k: int| 0 <= k < t implies #[trigger] a(k) == c(k) by {
            let y = x + step * k * j;
            assert(negacyclic(n, matrices(k)));
            assert(matrices(k)(y + n) == -matrices(k)(y));
        }
        lemma_int_sum_congruent(0, t, a, c);
        lemma_int_sum_negate(0, t, b);
    }
}

impl<P: Payload<[u8; 32]>> Database<P> {
    pub proof fn lemma_matrix_column(self, b: int, c: int)
        requires
            self.n >= 1,
        ensures
            forall|k: int| negacyclic(self.n as int, #[trigger] self.matrix_column(b, c)(k)),
    {
        let n = self.n as int;
        assert forall|k: int| negacyclic(n, #[trigger] self.matrix_column(b, c)(k)) by {
            lemma_extend(
                n,
                column_entries(self.blocks@[k * self.spec_column_blocks() + b], c),
            );
        }
    }
}

/// The polynomials with the given coefficients.
pub open spec fn polys_of(n: int, packed: Seq<Vec<i64>>) -> spec_fn(int) -> Poly {
    |j: int| extend(n, |r: int| packed[j]@[r] as int)
}

/// Coefficient `x` of `X^(e * (k - j)) * f(k)`, for every `k`.
pub open spec fn tail_terms(f: spec_fn(int) -> Poly, e: int, j: int, x: int) -> spec_fn(int) -> int {
    |k: int| f(k)(x - e * (k - j))
}

proof fn lemma_tail_negacyclic(n: int, t: int, e: int, j: int, f: spec_fn(int) -> Poly)
    requires
        forall|k: int| negacyclic(n, #[trigger] f(k)),
    ensures
        negacyclic(n, |x: int| int_sum(j, t, tail_terms(f, e, j, x))),
{
    let g = |x: int| int_sum(j, t, tail_terms(f, e, j, x));
    assert forall|x: int| #[trigger] g(x + n) == -g(x) by {
        let a = tail_terms(f, e, j, x + n);
        let b = tail_terms(f, e, j, x);
        let c = |k: int| -b(k);
        assert forall|k: int| j <= k < t implies #[trigger] a(k) == c(k) by {
            let y = x - e * (k - j);
            assert(negacyclic(n, f(k)));
            assert(f(k)(y + n) == -f(k)(y));
        }
        lemma_int_sum_congruent(j, t, a, c);
        lemma_int_sum_negate(j, t, b);
    }
}

/// The accumulator holds the terms from `j` on.
spec fn holds_tail(
    n: int,
    t: int,
    p: int,
    e: int,
    j: int,
    f: spec_fn(int) -> Poly,
    acc: Seq<i64>,
) -> bool {
    acc.len() == n && forall|x: int|
        0 <= x < n ==> #[trigger] acc[x] == centred_residue(
            int_sum(j, t, tail_terms(f, e, j, x)),
            p,
        )
}

/// One step of the evaluation: the accumulator times the point, plus the next coefficient.
proof fn lemma_tail_step(
    n: int,
    t: int,
    p: int,
    e: int,
    j: int,
    f: spec_fn(int) -> Poly,
    acc: Seq<i64>,
    x: int,
)
    requires
        n >= 1,
        p >= 2,
        1 <= j <= t,
        forall|k: int| negacyclic(n, #[trigger] f(k)),
        holds_tail(n, t, p, e, j, f, acc),
    ensures
        centred_residue(extend(n, |r: int| acc[r] as int)(x - e) + f(j - 1)(x), p)
            == centred_residue(int_sum(j - 1, t, tail_terms(f, e, j - 1, x)), p),
{
    let held = |r: int| acc[r] as int;
    let rest = |y: int| int_sum(j, t, tail_terms(f, e, j, y));
    lemma_extend(n, held);
    lemma_tail_negacyclic(n, t, e, j, f);
    assert forall|r: int| 0 <= r < n implies (#[trigger] extend(n, held)(r) - rest(r)) % p == 0 by {
        assert(acc[r] == centred_residue(rest(r), p));
        lemma_centred_residue(rest(r), p);
        lemma_multiple_scales(rest(r) - acc[r], -1, p);
    }
    lemma_congruent_everywhere(n, p, extend(n, held), rest, x - e);
    // The terms of the longer tail.
    let long = tail_terms(f, e, j - 1, x);
    let short = tail_terms(f, e, j, x - e);
    lemma_int_sum_split(j - 1, j, t, long);
    assert forall|k: int| j <= k < t implies #[trigger] long(k) == short(k) by {
        assert(x - e * (k - (j - 1)) == (x - e) - e * (k - j)) by (nonlinear_arith);
    }
    lemma_int_sum_congruent(j, t, long, short);
    assert(int_sum(j - 1, j, long) == long(j - 1)) by {
        assert(int_sum(j - 1, j - 1, long) == 0);
    }
    assert(long(j - 1) == f(j - 1)(x)) by {
        assert(e * 0 == 0) by (nonlinear_arith);
    }
    let a = extend(n, held)(x - e) + f(j - 1)(x);
    let b = int_sum(j - 1, t, long);
    assert((a - b) % p == 0);
    lemma_mod_equivalence(a, b, p);
    lemma_centred_residue(b, p);
}

impl Interpolation {
    /// One step of the evaluation.
    fn horner_step(&self, acc: &Vec<i64>, root: &Monomial, next: &Vec<i64>) -> (r: Vec<i64>)
        requires
            self.wf(),
            root.degree < self.n,
            acc@.len() == self.n,
            next@.len() == self.n,
            forall|x: int| 0 <= x < self.n ==> -65536 <= #[trigger] acc@[x] <= 65536,
        ensures
            r@.len() == self.n,
            forall|x: int|
                0 <= x < self.n ==> #[trigger] r@[x] == centred_residue(
                    extend(self.n as int, |i: int| acc@[i] as int)(x - root.exponent(self.n as int))
                        + next@[x],
                    self.p as int,
                ),
    {
        let n: usize = self.n;
        let ghost held = |i: int| acc@[i] as int;
        let mut out: Vec<i64> = Vec::new();
        while out.len() < n
            invariant
                out@.len() <= n,
                n == self.n,
                self.wf(),
                root.degree < n,
                acc@.len() == n,
                next@.len() == n,
                held == (|i: int| acc@[i] as int),
                forall|x: int| 0 <= x < n ==> -65536 <= #[trigger] acc@[x] <= 65536,
                forall|x: int|
                    0 <= x < out@.len() ==> #[trigger] out@[x] == centred_residue(
                        extend(n as int, held)(x - root.exponent(n as int)) + next@[x],
                        self.p as int,
                    ),
            decreases n - out@.len(),
        {
            let x: usize = out.len();
            proof {
                lemma_extend(n as int, held);
                let g = extend(n as int, held);
                let y = x - root.exponent(n as int);
                assert(g(y + n) == -g(y));
                assert(g((y + n) + n) == -g(y + n));
            }
            let moved: i64 = if x >= root.degree {
                acc[x - root.degree]
            } else {
                -acc[x + n - root.degree]
            };
            let signed: i64 = if root.negative {
                -moved
            } else {
                moved
            };
            out.push(centre_i128(signed as i128 + next[x] as i128, self.p));
        }
        out
    }

    /// The value of the polynomial with the given coefficients at the root, by Horner's
    /// rule.
    pub fn reduce(&self, packed: &[Vec<i64>], root: &Monomial) -> (r: Vec<i64>)
        requires
            self.wf(),
            root.degree < self.n,
            packed@.len() == self.panels,
            forall|j: int| 0 <= j < packed@.len() ==> (#[trigger] packed@[j])@.len() == self.n,
        ensures
            r@.len() == self.n,
            forall|x: int|
                0 <= x < self.n ==> #[trigger] r@[x] == centred_residue(
                    value_at(
                        polys_of(self.n as int, packed@),
                        self.panels as int,
                        root.exponent(self.n as int),
                        x,
                    ),
                    self.p as int,
                ),
    {
        let n: usize = self.n;
        let ghost f = polys_of(n as int, packed@);
        let ghost e = root.exponent(n as int);
        let ghost t = self.panels as int;
        let ghost p = self.p as int;
        proof {
            assert forall|k: int| negacyclic(n as int, #[trigger] f(k)) by {
                lemma_extend(n as int, |r: int| packed@[k]@[r] as int);
            }
            lemma_centred_residue(0, p);
        }
        let mut acc: Vec<i64> = vec![0i64; n];
        let mut j: usize = self.panels;
        while j > 0
            invariant
                j <= t,
                n == self.n,
                t == self.panels,
                p == self.p,
                e == root.exponent(n as int),
                f == polys_of(n as int, packed@),
                self.wf(),
                root.degree < n,
                packed@.len() == t,
                forall|k: int| 0 <= k < packed@.len() ==> (#[trigger] packed@[k])@.len() == n,
                forall|k: int| negacyclic(n as int, #[trigger] f(k)),
                holds_tail(n as int, t, p, e, j as int, f, acc@),
            decreases j,
        {
            proof {
                assert forall|x: int| 0 <= x < n implies -65536 <= #[trigger] acc@[x] <= 65536 by {
                    lemma_centred_residue(int_sum(j as int, t, tail_terms(f, e, j as int, x)), p);
                }
            }
            let ghost before = acc@;
            acc = self.horner_step(&acc, root, &packed[j - 1]);
            proof {
                assert forall|x: int| 0 <= x < n implies #[trigger] acc@[x] == centred_residue(
                    int_sum(j - 1, t, tail_terms(f, e, j - 1, x)),
                    p,
                ) by {
                    lemma_tail_step(n as int, t, p, e, j as int, f, before, x);
                    lemma_extend(n as int, |r: int| packed@[j - 1]@[r] as int);
                    assert(f(j - 1)(x) == packed@[j - 1]@[x]);
                }
            }
            j = j - 1;
        }
        proof {
            assert forall|x: int| 0 <= x < n implies #[trigger] acc@[x] == centred_residue(
                value_at(f, t, e, x),
                p,
            ) by {
                let a = tail_terms(f, e, 0, x);
                let b = value_terms(f, e, x);
                lemma_int_sum_congruent(0, t, a, b);
            }
        }
        acc
    }

    /// The panels of a database interpolate it: evaluated at the root of matrix `m`, the
    /// columns of the panels give the column of matrix `m`.
    pub proof fn law_panels_evaluate<P: Payload<[u8; 32]>>(
        self,
        db: Database<P>,
        blocks: Seq<CoeffMatrix>,
        m: int,
        b: int,
        c: int,
        x: int,
    )
        requires
            self.covers(db),
            self.are_panels(db, blocks),
            0 <= m < self.panels,
            0 <= b < db.spec_column_blocks(),
            0 <= c < self.n,
        ensures
            (value_at(
                panel_column(blocks, self.n as int, db.spec_column_blocks(), b, c),
                self.panels as int,
                self.step() * m,
                x,
            ) - db.matrix_column(b, c)(m)(x)) % self.p as int == 0,
    {
        let n = self.n as int;
        let t = self.panels as int;
        let p = self.p as int;
        let w = self.inverse as int;
        let cb = db.spec_column_blocks();
        let matrices = db.matrix_column(b, c);
        let panels = panel_column(blocks, n, cb, b, c);
        db.lemma_matrix_column(b, c);
        assert forall|j: int, y: int| 0 <= j < t implies (#[trigger] panels(j)(y) - w * int_sum(
            0,
            t,
            inverse_terms(matrices, root_step(n, t), j, y),
        )) % p == 0 by {
            let column = column_entries(blocks[j * cb + b], c);
            let sums = |z: int| int_sum(0, t, inverse_terms(matrices, self.step(), j, z));
            let scaled = |z: int| w * sums(z);
            lemma_extend(n, column);
            lemma_inverse_negacyclic(n, t, self.step(), j, matrices);
            assert forall|z: int| #[trigger] scaled(z + n) == -scaled(z) by {
                assert(sums(z + n) == -sums(z));
                assert(w * (-sums(z)) == -(w * sums(z))) by (nonlinear_arith);
            }
            assert forall|r: int| 0 <= r < n implies (#[trigger] extend(n, column)(r) - scaled(r))
                % p == 0 by {
                assert(blocks[j * cb + b].entry(r, c) == self.spec_entry(db, j, b, r, c));
                lemma_centred_residue(scaled(r), p);
                lemma_multiple_scales(scaled(r) - column(r), -1, p);
            }
            lemma_congruent_everywhere(n, p, extend(n, column), scaled, y);
        }
        law_interpolation_evaluates(n, t, p, w, matrices, panels, m, x);
    }

    /// Reducing at the root of matrix `m` selects that matrix: coefficients that agree
    /// with column `c` of the panels reduce to column `c` of the matrix.
    pub proof fn law_reduction_selects_matrix<P: Payload<[u8; 32]>>(
        self,
        db: Database<P>,
        blocks: Seq<CoeffMatrix>,
        packed: Seq<Vec<i64>>,
        root: Monomial,
        m: int,
        b: int,
        c: int,
        x: int,
    )
        requires
            self.covers(db),
            self.are_panels(db, blocks),
            0 <= m < db.spec_physical_rows(),
            0 <= b < db.spec_column_blocks(),
            0 <= c < self.n,
            0 <= x < self.n,
            packed.len() == self.panels,
            root.exponent(self.n as int) == self.step() * m,
            forall|j: int, r: int|
                0 <= j < self.panels && 0 <= r < self.n ==> (#[trigger] packed[j]@[r]
                    - blocks[j * db.spec_column_blocks() + b].entry(r, c)) % self.p as int == 0,
        ensures
            centred_residue(
                value_at(
                    polys_of(self.n as int, packed),
                    self.panels as int,
                    root.exponent(self.n as int),
                    x,
                ),
                self.p as int,
            ) == centred_residue(
                db.blocks@[m * db.spec_column_blocks() + b].entry(x, c) as int,
                self.p as int,
            ),
    {
        let n = self.n as int;
        let t = self.panels as int;
        let p = self.p as int;
        let cb = db.spec_column_blocks();
        let e = root.exponent(n);
        let f = polys_of(n, packed);
        let g = panel_column(blocks, n, cb, b, c);
        self.law_panels_evaluate(db, blocks, m, b, c, x);
        let a = value_terms(f, e, x);
        let d = value_terms(g, e, x);
        assert forall|j: int| 0 <= j < t implies (#[trigger] a(j) - d(j)) % p == 0 by {
            let held = |r: int| packed[j]@[r] as int;
            let column = column_entries(blocks[j * cb + b], c);
            lemma_extend(n, held);
            lemma_extend(n, column);
            assert forall|r: int| 0 <= r < n implies (#[trigger] extend(n, held)(r) - extend(
                n,
                column,
            )(r)) % p == 0 by {
                assert((packed[j]@[r] - blocks[j * cb + b].entry(r, c)) % p == 0);
            }
            lemma_congruent_everywhere(n, p, extend(n, held), extend(n, column), x - e * j);
        }
        lemma_int_sum_mod(0, t, p, a, d);
        let own = db.matrix_column(b, c)(m)(x);
        lemma_extend(n, column_entries(db.blocks@[m * cb + b], c));
        lemma_multiples_add(value_at(f, t, e, x) - value_at(g, t, e, x), value_at(g, t, e, x) - own, p);
        lemma_mod_equivalence(value_at(f, t, e, x), own, p);
        lemma_centred_residue(own, p);
    }
}

/// Interpolating a database and evaluating at the root of a matrix gives that matrix: for
/// every column, the panels' values at the root of matrix `m` are its entries, modulo the
/// radix and centred.
pub proof fn law_interpolated_matrices_come_back<P: Payload<[u8; 32]>>(
    interpolation: &Interpolation,
    db: &Database<P>,
    blocks: Vec<CoeffMatrix>,
    m: usize,
    exponent: usize,
    root: Monomial,
    packed: &[Vec<i64>],
    r: Vec<i64>,
    b: int,
    c: int,
    x: int,
)
    requires
        interpolation.covers(*db),
        call_ensures(Interpolation::interpolate::<P>, (interpolation, db), blocks),
        m < db.spec_physical_rows(),
        2 * interpolation.n * m <= usize::MAX,
        call_ensures(
            root_exponent,
            (interpolation.n, m, interpolation.panels),
            exponent,
        ),
        call_ensures(root_monomial, (interpolation.n, exponent), root),
        0 <= b < db.spec_column_blocks(),
        0 <= c < interpolation.n,
        packed@.len() == interpolation.panels,
        forall|j: int, y: int|
            0 <= j < interpolation.panels && 0 <= y < interpolation.n ==> #[trigger] packed@[j]@[y]
                == blocks@[j * db.spec_column_blocks() + b].entry(y, c),
        call_ensures(Interpolation::reduce, (interpolation, packed, &root), r),
        0 <= x < interpolation.n,
    ensures
        r@.len() == interpolation.n,
        (db.blocks@[m * db.spec_column_blocks() + b].entry(x, c) - r@[x]) % interpolation.p as int
            == 0,
        -(interpolation.p as int) <= 2 * r@[x] < interpolation.p,
{
    let n = interpolation.n as int;
    let t = interpolation.panels as int;
    let p = interpolation.p as int;
    let cb = db.spec_column_blocks();
    law_roots_are_distinct(n, t, m as int, m as int);
    let s = (2 * n) / t;
    assert(m * s == s * m) by (nonlinear_arith);
    lemma_small_mod(exponent as nat, (2 * n) as nat);
    assert(root.exponent(n) == interpolation.step() * m);
    assert forall|j: int, y: int| 0 <= j < interpolation.panels && 0 <= y < interpolation.n implies (
    #[trigger] packed@[j]@[y] - blocks@[j * cb + b].entry(y, c)) % p == 0 by {
        assert(packed@[j]@[y] == blocks@[j * cb + b].entry(y, c));
        lemma_small_mod(0, p as nat);
    }
    interpolation.law_reduction_selects_matrix(*db, blocks@, packed@, root, m as int, b, c, x);
    lemma_centred_residue(db.blocks@[m * cb + b].entry(x, c) as int, p);
    assert(r@[x] == centred_residue(
        value_at(polys_of(n, packed@), t, root.exponent(n), x),
        p,
    ));
}

} // verus!
