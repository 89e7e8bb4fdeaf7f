//! Why retrieval works: products with the database commute with decryption.
//!
//! A query hides its selector behind masks: entry `j` of block `b` is a torus element
//! `v` with a mask row `a`, and decrypts to the phase `v + <a, s>` under the secret `s`.
//! The server multiplies masks and elements with the database, without the secret. What
//! comes out decrypts to the product of the database with the phases, so a one-hot
//! selector leaves the digit that it selects.

use vstd::prelude::*;
use vstd::arithmetic::div_mod::*;
use vstd::arithmetic::power2::{lemma_pow2_pos, pow2};
use crate::arith::lemma_quotient;
use crate::client::{selects, Client, InterpolationPlan, QueryPlan, QueryState};
use crate::database::is_next_power_of_two;
use crate::encoding::{centred_residue, lemma_centred_residue, limb_value, ModPEncoder};
use crate::interpolation::{
    column_entries, extend, lemma_congruent_everywhere, lemma_extend, panel_column, value_at,
    value_terms, Interpolation,
};
use crate::limbs::LimbVec;
use crate::matrix::{lemma_flat_index, CoeffMatrix};
use crate::packing::recursion::{centred16, coefficient_limbs};
use crate::payload::Payload;
use crate::query::spec_hot_slot;
use crate::ring::{abs, negacyclic, Poly};
use crate::server::gemm::{col_dot, range_dot, QueryMask};
use crate::server::product::{blocks_dot, row_dot};
use crate::server::recursion::{digit_or_zero, law_selected_digits_recompose};
use crate::store::Database;
use crate::sums::{
    int_sum, lemma_int_sum_add, lemma_int_sum_bound, lemma_int_sum_congruent,
    lemma_int_sum_constant, lemma_int_sum_mod, lemma_int_sum_scale, lemma_int_sum_single,
    lemma_multiple_scales, lemma_multiples_add,
};

verus! {

/// Row `row` of `u` times the vector `f`.
pub open spec fn row_sum(u: CoeffMatrix, row: int, f: spec_fn(int) -> int) -> int {
    int_sum(0, u.rows_in as int, |j: int| u.entry(row, j) * f(j))
}

/// Row `row` of the blocks, side by side, times the vector `f`.
pub open spec fn block_sum(us: Seq<CoeffMatrix>, row: int, f: spec_fn(int, int) -> int) -> int {
    int_sum(0, us.len() as int, |b: int| row_sum(us[b], row, |j: int| f(b, j)))
}

/// A mask row times the secret.
pub open spec fn key_dot(mask: spec_fn(int) -> int, s: spec_fn(int) -> int, lwe_n: int) -> int {
    int_sum(0, lwe_n, |c: int| mask(c) * s(c))
}

/// What a torus element with a mask decrypts to.
pub open spec fn phase(body: int, mask: spec_fn(int) -> int, s: spec_fn(int) -> int, lwe_n: int) -> int {
    body + key_dot(mask, s, lwe_n)
}

/// Row `j` of the mask of block `b`.
pub open spec fn mask_row(masks: Seq<QueryMask>, b: int, j: int) -> spec_fn(int) -> int {
    |c: int| masks[b].values@[j * masks[b].cols + c] as int
}

/// What entry `j` of block `b` of a query decrypts to.
pub open spec fn query_phase(
    vs: Seq<Seq<i64>>,
    masks: Seq<QueryMask>,
    s: spec_fn(int) -> int,
    lwe_n: int,
) -> spec_fn(int, int) -> int {
    |b: int, j: int| phase(vs[b][j] as int, mask_row(masks, b, j), s, lwe_n)
}

// ---------------------------------------------------------------------------
// Linearity
// ---------------------------------------------------------------------------

proof fn lemma_row_sum_congruent(
    u: CoeffMatrix,
    row: int,
    f: spec_fn(int) -> int,
    g: spec_fn(int) -> int,
)
    requires
        forall|j: int| 0 <= j < u.rows_in ==> #[trigger] f(j) == g(j),
    ensures
        row_sum(u, row, f) == row_sum(u, row, g),
{
    let a = |j: int| u.entry(row, j) * f(j);
    let b = |j: int| u.entry(row, j) * g(j);
    assert forall|j: int| 0 <= j < u.rows_in implies #[trigger] a(j) == b(j) by {
        assert(f(j) == g(j));
    }
    lemma_int_sum_congruent(0, u.rows_in as int, a, b);
}

pub proof fn lemma_block_sum_congruent(
    us: Seq<CoeffMatrix>,
    row: int,
    f: spec_fn(int, int) -> int,
    g: spec_fn(int, int) -> int,
)
    requires
        forall|b: int, j: int|
            0 <= b < us.len() && 0 <= j < us[b].rows_in ==> #[trigger] f(b, j) == g(b, j),
    ensures
        block_sum(us, row, f) == block_sum(us, row, g),
{
    let a = |b: int| row_sum(us[b], row, |j: int| f(b, j));
    let c = |b: int| row_sum(us[b], row, |j: int| g(b, j));
    assert forall|b: int| 0 <= b < us.len() implies #[trigger] a(b) == c(b) by {
        lemma_row_sum_congruent(us[b], row, |j: int| f(b, j), |j: int| g(b, j));
    }
    lemma_int_sum_congruent(0, us.len() as int, a, c);
}

proof fn lemma_row_sum_combine(
    u: CoeffMatrix,
    row: int,
    f: spec_fn(int) -> int,
    g: spec_fn(int) -> int,
    k: int,
)
    ensures
        row_sum(u, row, |j: int| f(j) + k * g(j)) == row_sum(u, row, f) + k * row_sum(u, row, g),
{
    let n = u.rows_in as int;
    let a = |j: int| u.entry(row, j) * f(j);
    let b = |j: int| u.entry(row, j) * g(j);
    let kb = |j: int| k * b(j);
    let sum = |j: int| a(j) + kb(j);
    let both = |j: int| f(j) + k * g(j);
    let whole = |j: int| u.entry(row, j) * both(j);
    assert forall|j: int| 0 <= j < n implies #[trigger] whole(j) == sum(j) by {
        let x = u.entry(row, j) as int;
        let y = f(j);
        let z = g(j);
        assert(x * (y + k * z) == x * y + k * (x * z)) by (nonlinear_arith);
    }
    lemma_int_sum_congruent(0, n, whole, sum);
    lemma_int_sum_add(0, n, a, kb);
    lemma_int_sum_scale(0, n, k, b);
}

/// A product is linear in the vector.
pub proof fn lemma_block_sum_combine(
    us: Seq<CoeffMatrix>,
    row: int,
    f: spec_fn(int, int) -> int,
    g: spec_fn(int, int) -> int,
    k: int,
)
    ensures
        block_sum(us, row, |b: int, j: int| f(b, j) + k * g(b, j)) == block_sum(us, row, f) + k
            * block_sum(us, row, g),
{
    let n = us.len() as int;
    let a = |b: int| row_sum(us[b], row, |j: int| f(b, j));
    let c = |b: int| row_sum(us[b], row, |j: int| g(b, j));
    let kc = |b: int| k * c(b);
    let sum = |b: int| a(b) + kc(b);
    let both = |b: int, j: int| f(b, j) + k * g(b, j);
    let whole = |b: int| row_sum(us[b], row, |j: int| both(b, j));
    assert forall|b: int| 0 <= b < n implies #[trigger] whole(b) == sum(b) by {
        let fb = |j: int| f(b, j);
        let gb = |j: int| g(b, j);
        lemma_row_sum_combine(us[b], row, fb, gb, k);
        lemma_row_sum_congruent(us[b], row, |j: int| both(b, j), |j: int| fb(j) + k * gb(j));
    }
    lemma_int_sum_congruent(0, n, whole, sum);
    lemma_int_sum_add(0, n, a, kc);
    lemma_int_sum_scale(0, n, k, c);
}

/// Multiplying with the database and with the secret can be exchanged.
proof fn lemma_block_sum_key(
    us: Seq<CoeffMatrix>,
    row: int,
    a: spec_fn(int, int, int) -> int,
    s: spec_fn(int) -> int,
    lwe_n: int,
)
    requires
        lwe_n >= 0,
    ensures
        block_sum(
            us,
            row,
            |b: int, j: int| key_dot(|c: int| a(b, j, c), s, lwe_n),
        ) == key_dot(|c: int| block_sum(us, row, |b: int, j: int| a(b, j, c)), s, lwe_n),
    decreases lwe_n,
{
    let inner = |b: int, j: int| key_dot(|c: int| a(b, j, c), s, lwe_n);
    let outer = |c: int| block_sum(us, row, |b: int, j: int| a(b, j, c));
    if lwe_n > 0 {
        let last = lwe_n - 1;
        lemma_block_sum_key(us, row, a, s, last);
        let fewer = |b: int, j: int| key_dot(|c: int| a(b, j, c), s, last);
        let column = |b: int, j: int| a(b, j, last);
        let both = |b: int, j: int| fewer(b, j) + s(last) * column(b, j);
        assert forall|b: int, j: int|
            0 <= b < us.len() && 0 <= j < us[b].rows_in implies #[trigger] inner(b, j) == both(
            b,
            j,
        ) by {
            let row_of = |c: int| a(b, j, c);
            let terms = |c: int| row_of(c) * s(c);
            assert(int_sum(0, lwe_n, terms) == int_sum(0, last, terms) + terms(last));
            assert(a(b, j, last) * s(last) == s(last) * a(b, j, last)) by (nonlinear_arith);
        }
        lemma_block_sum_congruent(us, row, inner, both);
        lemma_block_sum_combine(us, row, fewer, column, s(last));
        let terms = |c: int| outer(c) * s(c);
        assert(int_sum(0, lwe_n, terms) == int_sum(0, last, terms) + terms(last));
        assert(outer(last) * s(last) == s(last) * outer(last)) by (nonlinear_arith);
    } else {
        let nothing = |b: int, j: int| 0int;
        lemma_block_sum_congruent(us, row, inner, nothing);
        lemma_block_sum_zero(us, row);
    }
}

proof fn lemma_block_sum_zero(us: Seq<CoeffMatrix>, row: int)
    ensures
        block_sum(us, row, |b: int, j: int| 0int) == 0,
{
    let nothing = |b: int, j: int| 0int;
    lemma_block_sum_combine(us, row, nothing, nothing, 1);
    let both = |b: int, j: int| nothing(b, j) + 1 * nothing(b, j);
    lemma_block_sum_congruent(us, row, both, nothing);
}

// ---------------------------------------------------------------------------
// The server's products
// ---------------------------------------------------------------------------

proof fn lemma_row_dot(u: CoeffMatrix, row: int, v: Seq<i64>, upto: nat)
    ensures
        row_dot(u, row, v, upto) == int_sum(0, upto as int, |j: int| u.entry(row, j) * v[j]),
    decreases upto,
{
    if upto > 0 {
        lemma_row_dot(u, row, v, (upto - 1) as nat);
    }
}

proof fn lemma_blocks_dot(us: Seq<CoeffMatrix>, row: int, vs: Seq<Seq<i64>>, upto: nat)
    ensures
        blocks_dot(us, row, vs, upto) == int_sum(
            0,
            upto as int,
            |b: int| row_sum(us[b], row, |j: int| vs[b][j] as int),
        ),
    decreases upto,
{
    if upto > 0 {
        lemma_blocks_dot(us, row, vs, (upto - 1) as nat);
        let b = upto - 1;
        lemma_row_dot(us[b], row, vs[b], us[b].rows_in as nat);
        let v = |j: int| vs[b][j] as int;
        let x = |j: int| us[b].entry(row, j) * vs[b][j];
        let y = |j: int| us[b].entry(row, j) * v(j);
        lemma_int_sum_congruent(0, us[b].rows_in as int, x, y);
    }
}

/// The product with the elements of a query.
pub proof fn lemma_body_sum(us: Seq<CoeffMatrix>, row: int, vs: Seq<Seq<i64>>)
    ensures
        blocks_dot(us, row, vs, us.len()) == block_sum(
            us,
            row,
            |b: int, j: int| vs[b][j] as int,
        ),
{
    lemma_blocks_dot(us, row, vs, us.len());
    let f = |b: int, j: int| vs[b][j] as int;
    let x = |b: int| row_sum(us[b], row, |j: int| vs[b][j] as int);
    let y = |b: int| row_sum(us[b], row, |j: int| f(b, j));
    assert forall|b: int| 0 <= b < us.len() implies #[trigger] x(b) == y(b) by {
        lemma_row_sum_congruent(us[b], row, |j: int| vs[b][j] as int, |j: int| f(b, j));
    }
    lemma_int_sum_congruent(0, us.len() as int, x, y);
}

proof fn lemma_col_dot(u: CoeffMatrix, row: int, rhs: Seq<i64>, width: int, c: int, upto: nat)
    ensures
        col_dot(u, row, rhs, width, c, upto) == int_sum(
            0,
            upto as int,
            |j: int| u.entry(row, j) * rhs[j * width + c],
        ),
    decreases upto,
{
    if upto > 0 {
        lemma_col_dot(u, row, rhs, width, c, (upto - 1) as nat);
    }
}

proof fn lemma_range_dot(us: Seq<CoeffMatrix>, masks: Seq<QueryMask>, row: int, c: int, hi: int)
    requires
        0 <= hi,
    ensures
        range_dot(us, masks, row, c, 0, hi) == int_sum(
            0,
            hi,
            |b: int| row_sum(us[b], row, |j: int| mask_row(masks, b, j)(c)),
        ),
    decreases hi,
{
    if hi > 0 {
        lemma_range_dot(us, masks, row, c, hi - 1);
        let b = hi - 1;
        let values = masks[b].values@;
        let width = masks[b].cols as int;
        lemma_col_dot(us[b], row, values, width, c, us[b].rows_in as nat);
        let v = |j: int| mask_row(masks, b, j)(c);
        let x = |j: int| us[b].entry(row, j) * values[j * width + c];
        let y = |j: int| us[b].entry(row, j) * v(j);
        lemma_int_sum_congruent(0, us[b].rows_in as int, x, y);
    }
}

/// The product with column `c` of the masks of a query.
pub proof fn lemma_mask_sum(us: Seq<CoeffMatrix>, masks: Seq<QueryMask>, row: int, c: int)
    ensures
        range_dot(us, masks, row, c, 0, us.len() as int) == block_sum(
            us,
            row,
            |b: int, j: int| mask_row(masks, b, j)(c),
        ),
{
    lemma_range_dot(us, masks, row, c, us.len() as int);
    let f = |b: int, j: int| mask_row(masks, b, j)(c);
    let x = |b: int| row_sum(us[b], row, |j: int| mask_row(masks, b, j)(c));
    let y = |b: int| row_sum(us[b], row, |j: int| f(b, j));
    assert forall|b: int| 0 <= b < us.len() implies #[trigger] x(b) == y(b) by {
        lemma_row_sum_congruent(
            us[b],
            row,
            |j: int| mask_row(masks, b, j)(c),
            |j: int| f(b, j),
        );
    }
    lemma_int_sum_congruent(0, us.len() as int, x, y);
}

/// Row `row` of the product of the blocks with the masks.
pub open spec fn product_mask(us: Seq<CoeffMatrix>, masks: Seq<QueryMask>, row: int) -> spec_fn(
    int,
) -> int {
    |c: int| range_dot(us, masks, row, c, 0, us.len() as int)
}

/// Products commute with decryption: the products with the elements and with the masks of
/// a query decrypt, under every secret, to the product with what the query decrypts to.
pub proof fn law_products_decrypt(
    us: Seq<CoeffMatrix>,
    masks: Seq<QueryMask>,
    vs: Seq<Seq<i64>>,
    s: spec_fn(int) -> int,
    lwe_n: int,
    row: int,
)
    requires
        lwe_n >= 0,
    ensures
        phase(blocks_dot(us, row, vs, us.len()), product_mask(us, masks, row), s, lwe_n)
            == block_sum(us, row, query_phase(vs, masks, s, lwe_n)),
{
    let a = |b: int, j: int, c: int| mask_row(masks, b, j)(c);
    let bodies = |b: int, j: int| vs[b][j] as int;
    let keyed = |b: int, j: int| key_dot(|c: int| a(b, j, c), s, lwe_n);
    let both = |b: int, j: int| bodies(b, j) + 1 * keyed(b, j);
    lemma_body_sum(us, row, vs);
    lemma_block_sum_key(us, row, a, s, lwe_n);
    lemma_block_sum_combine(us, row, bodies, keyed, 1);
    let phases = query_phase(vs, masks, s, lwe_n);
    assert forall|b: int, j: int|
        0 <= b < us.len() && 0 <= j < us[b].rows_in implies #[trigger] phases(b, j) == both(b, j) by {
        let x = |c: int| mask_row(masks, b, j)(c) * s(c);
        let y = |c: int| (|c: int| a(b, j, c))(c) * s(c);
        lemma_int_sum_congruent(0, lwe_n, x, y);
    }
    lemma_block_sum_congruent(us, row, phases, both);
    let outer = |c: int| block_sum(us, row, |b: int, j: int| a(b, j, c));
    let x = |c: int| product_mask(us, masks, row)(c) * s(c);
    let y = |c: int| outer(c) * s(c);
    assert forall|c: int| 0 <= c < lwe_n implies #[trigger] x(c) == y(c) by {
        lemma_mask_sum(us, masks, row, c);
        lemma_block_sum_congruent(
            us,
            row,
            |b: int, j: int| mask_row(masks, b, j)(c),
            |b: int, j: int| a(b, j, c),
        );
    }
    lemma_int_sum_congruent(0, lwe_n, x, y);
}

// ---------------------------------------------------------------------------
// Selection
// ---------------------------------------------------------------------------

/// A selector: `unit` at position `column`, zero elsewhere.
pub open spec fn one_hot(n: int, column: int, unit: int) -> spec_fn(int, int) -> int {
    |b: int, j: int|
        if b * n + j == column {
            unit
        } else {
            0
        }
}

/// The query encrypts the selector, up to the noise, on the torus of `q` elements.
pub open spec fn encrypts(
    vs: Seq<Seq<i64>>,
    masks: Seq<QueryMask>,
    s: spec_fn(int) -> int,
    lwe_n: int,
    q: int,
    n: int,
    selector: spec_fn(int, int) -> int,
    noise: spec_fn(int, int) -> int,
) -> bool {
    forall|b: int, j: int|
        0 <= b < vs.len() && 0 <= j < n ==> (query_phase(vs, masks, s, lwe_n)(b, j) - (selector(
            b,
            j,
        ) + #[trigger] noise(b, j))) % q == 0
}

proof fn lemma_row_sum_mod(
    u: CoeffMatrix,
    row: int,
    q: int,
    f: spec_fn(int) -> int,
    g: spec_fn(int) -> int,
)
    requires
        q >= 1,
        forall|j: int| 0 <= j < u.rows_in ==> (#[trigger] f(j) - g(j)) % q == 0,
    ensures
        (row_sum(u, row, f) - row_sum(u, row, g)) % q == 0,
{
    let a = |j: int| u.entry(row, j) * f(j);
    let b = |j: int| u.entry(row, j) * g(j);
    assert forall|j: int| 0 <= j < u.rows_in implies (#[trigger] a(j) - b(j)) % q == 0 by {
        let x = u.entry(row, j) as int;
        lemma_multiple_scales(f(j) - g(j), x, q);
        assert(x * (f(j) - g(j)) == x * f(j) - x * g(j)) by (nonlinear_arith);
    }
    lemma_int_sum_mod(0, u.rows_in as int, q, a, b);
}

proof fn lemma_block_sum_mod(
    us: Seq<CoeffMatrix>,
    row: int,
    q: int,
    f: spec_fn(int, int) -> int,
    g: spec_fn(int, int) -> int,
)
    requires
        q >= 1,
        forall|b: int, j: int|
            0 <= b < us.len() && 0 <= j < us[b].rows_in ==> (#[trigger] f(b, j) - g(b, j)) % q == 0,
    ensures
        (block_sum(us, row, f) - block_sum(us, row, g)) % q == 0,
{
    let a = |b: int| row_sum(us[b], row, |j: int| f(b, j));
    let c = |b: int| row_sum(us[b], row, |j: int| g(b, j));
    assert forall|b: int| 0 <= b < us.len() implies (#[trigger] a(b) - c(b)) % q == 0 by {
        lemma_row_sum_mod(us[b], row, q, |j: int| f(b, j), |j: int| g(b, j));
    }
    lemma_int_sum_mod(0, us.len() as int, q, a, c);
}

/// Largest noise of a row of a product over `blocks` blocks of `n` columns, for queries with
/// noise up to `bound`.
pub open spec fn product_noise(blocks: int, n: int, bound: int) -> int {
    blocks * (n * (32768 * bound))
}

/// Noise grows by at most `2^15` per entry, since digits are no larger: whatever the
/// digits, a row of a product carries noise up to [`product_noise`].
pub proof fn law_row_noise_is_bounded(
    us: Seq<CoeffMatrix>,
    row: int,
    n: int,
    bound: int,
    f: spec_fn(int, int) -> int,
)
    requires
        bound >= 0,
        forall|b: int| 0 <= b < us.len() ==> (#[trigger] us[b]).rows_in == n,
        forall|b: int, j: int|
            0 <= b < us.len() && 0 <= j < n ==> -bound <= #[trigger] f(b, j) <= bound,
    ensures
        abs(block_sum(us, row, f)) <= product_noise(us.len() as int, n, bound),
{
    let a = |b: int| row_sum(us[b], row, |j: int| f(b, j));
    let each = n * (32768 * bound);
    assert forall|b: int| 0 <= b < us.len() implies -each <= #[trigger] a(b) <= each by {
        let fb = |j: int| f(b, j);
        let terms = |j: int| us[b].entry(row, j) * fb(j);
        assert(us[b].rows_in == n);
        assert forall|j: int| 0 <= j < n implies -(32768 * bound) <= #[trigger] terms(j) <= 32768
            * bound by {
            let x = us[b].entry(row, j) as int;
            let y = f(b, j);
            assert(-(32768 * bound) <= x * y <= 32768 * bound) by (nonlinear_arith)
                requires
                    -32768 <= x <= 32768,
                    -bound <= y <= bound,
            ;
        }
        lemma_int_sum_bound(0, n, 32768 * bound, terms);
    }
    lemma_int_sum_bound(0, us.len() as int, each, a);
}

/// A selector picks one entry of the row.
proof fn lemma_block_sum_hot(us: Seq<CoeffMatrix>, row: int, n: int, column: int, unit: int)
    requires
        n >= 1,
        0 <= column < us.len() * n,
        forall|b: int| 0 <= b < us.len() ==> (#[trigger] us[b]).rows_in == n,
    ensures
        0 <= column / n < us.len(),
        block_sum(us, row, one_hot(n, column, unit)) == us[column / n].entry(row, column % n)
            * unit,
{
    let f = one_hot(n, column, unit);
    let hot = column / n;
    let slot = column % n;
    lemma_fundamental_div_mod(column, n);
    lemma_mod_bound(column, n);
    assert(n * hot == hot * n) by (nonlinear_arith);
    assert(0 <= hot < us.len()) by (nonlinear_arith)
        requires
            column == hot * n + slot,
            0 <= slot < n,
            0 <= column < us.len() * n,
    ;
    let a = |b: int| row_sum(us[b], row, |j: int| f(b, j));
    assert forall|b: int| 0 <= b < us.len() && b != hot implies #[trigger] a(b) == 0 by {
        assert(us[b].rows_in == n);
        let terms = |j: int| us[b].entry(row, j) * (|j: int| f(b, j))(j);
        assert forall|j: int| 0 <= j < n implies #[trigger] terms(j) == (|i: int| 0int)(j) by {
            if b * n + j == column {
                lemma_quotient(column, n, b, j);
            }
            assert(us[b].entry(row, j) * 0 == 0) by (nonlinear_arith);
        }
        lemma_int_sum_congruent(0, n, terms, |i: int| 0int);
        lemma_int_sum_constant(0, n, 0);
        assert((n - 0) * 0 == 0) by (nonlinear_arith);
    }
    lemma_int_sum_single(0, us.len() as int, hot, a);
    assert(us[hot].rows_in == n);
    let terms = |j: int| us[hot].entry(row, j) * (|j: int| f(hot, j))(j);
    assert forall|j: int| 0 <= j < n && j != slot implies #[trigger] terms(j) == 0 by {
        assert(us[hot].entry(row, j) * 0 == 0) by (nonlinear_arith);
    }
    lemma_int_sum_single(0, n, slot, terms);
}

/// Congruent masks give congruent phases.
proof fn lemma_phase_mod(
    q: int,
    body: int,
    mask: spec_fn(int) -> int,
    other_body: int,
    other_mask: spec_fn(int) -> int,
    s: spec_fn(int) -> int,
    lwe_n: int,
)
    requires
        q >= 1,
        (body - other_body) % q == 0,
        forall|c: int| 0 <= c < lwe_n ==> (#[trigger] mask(c) - other_mask(c)) % q == 0,
    ensures
        (phase(body, mask, s, lwe_n) - phase(other_body, other_mask, s, lwe_n)) % q == 0,
{
    let a = |c: int| mask(c) * s(c);
    let b = |c: int| other_mask(c) * s(c);
    assert forall|c: int| 0 <= c < lwe_n implies (#[trigger] a(c) - b(c)) % q == 0 by {
        lemma_multiple_scales(mask(c) - other_mask(c), s(c), q);
        assert(s(c) * (mask(c) - other_mask(c)) == mask(c) * s(c) - other_mask(c) * s(c))
            by (nonlinear_arith);
    }
    lemma_int_sum_mod(0, lwe_n, q, a, b);
    lemma_multiples_add(body - other_body, int_sum(0, lwe_n, a) - int_sum(0, lwe_n, b), q);
}

/// A row of a product, as torus elements of `q`: the sums with the query's elements and
/// with its masks.
pub open spec fn is_product_row(
    us: Seq<CoeffMatrix>,
    masks: Seq<QueryMask>,
    vs: Seq<Seq<i64>>,
    q: int,
    lwe_n: int,
    row: int,
    body: int,
    mask: spec_fn(int) -> int,
) -> bool {
    &&& (body - blocks_dot(us, row, vs, us.len())) % q == 0
    &&& forall|c: int|
        0 <= c < lwe_n ==> (#[trigger] mask(c) - product_mask(us, masks, row)(c)) % q == 0
}

/// Selection under encryption: whatever the secret, a query that encrypts the selector of a
/// column makes each row of the product decrypt to the unit times the entry of that row and
/// column, and the product of that row with the noise of the query.
pub proof fn law_selected_entry_decrypts(
    us: Seq<CoeffMatrix>,
    n: int,
    masks: Seq<QueryMask>,
    vs: Seq<Seq<i64>>,
    s: spec_fn(int) -> int,
    lwe_n: int,
    q: int,
    row: int,
    column: int,
    unit: int,
    noise: spec_fn(int, int) -> int,
    body: int,
    mask: spec_fn(int) -> int,
)
    requires
        n >= 1,
        q >= 1,
        lwe_n >= 0,
        vs.len() == us.len(),
        forall|b: int| 0 <= b < us.len() ==> (#[trigger] us[b]).rows_in == n,
        0 <= column < us.len() * n,
        encrypts(vs, masks, s, lwe_n, q, n, one_hot(n, column, unit), noise),
        is_product_row(us, masks, vs, q, lwe_n, row, body, mask),
    ensures
        (phase(body, mask, s, lwe_n) - (us[column / n].entry(row, column % n) * unit + block_sum(
            us,
            row,
            noise,
        ))) % q == 0,
{
    let selector = one_hot(n, column, unit);
    let phases = query_phase(vs, masks, s, lwe_n);
    let total = phase(body, mask, s, lwe_n);
    // The product decrypts to the product with the phases.
    law_products_decrypt(us, masks, vs, s, lwe_n, row);
    lemma_phase_mod(
        q,
        body,
        mask,
        blocks_dot(us, row, vs, us.len()),
        product_mask(us, masks, row),
        s,
        lwe_n,
    );
    // The phases are the selector and the noise.
    let noisy = |b: int, j: int| selector(b, j) + 1 * noise(b, j);
    assert forall|b: int, j: int|
        0 <= b < us.len() && 0 <= j < us[b].rows_in implies (#[trigger] phases(b, j) - noisy(b, j))
        % q == 0 by {
        assert((phases(b, j) - (selector(b, j) + noise(b, j))) % q == 0);
    }
    lemma_block_sum_mod(us, row, q, phases, noisy);
    lemma_block_sum_combine(us, row, selector, noise, 1);
    lemma_block_sum_hot(us, row, n, column, unit);
    lemma_multiples_add(
        total - block_sum(us, row, phases),
        block_sum(us, row, phases) - block_sum(us, row, noisy),
        q,
    );
}

/// A phase of `digit` units and some noise decodes to the digit.
pub proof fn lemma_phase_decodes(
    encoder: ModPEncoder,
    total: int,
    digit: int,
    e: int,
    most: int,
    worst: int,
)
    requires
        encoder.wf(),
        -most <= digit <= most,
        -worst <= e <= worst,
        encoder.tolerates(most, worst),
        (total - (digit * encoder.spec_encode(1) + e)) % pow2(encoder.k as nat) as int == 0,
    ensures
        encoder.spec_decode(total) == centred_residue(digit, encoder.p as int),
{
    let q = pow2(encoder.k as nat) as int;
    let p = encoder.p as int;
    lemma_pow2_pos(encoder.k as nat);
    let gap = total - (digit * encoder.spec_encode(1) + e);
    lemma_fundamental_div_mod(gap, q);
    let wraps = gap / q;
    assert(q * wraps == wraps * q) by (nonlinear_arith);
    assert(2 * abs(e) * p + abs(digit) * p < q) by (nonlinear_arith)
        requires
            abs(e) <= abs(worst),
            abs(digit) <= abs(most),
            2 * abs(worst) * p + abs(most) * p < q,
            p >= 2,
    ;
    encoder.law_decode_removes_noise(digit, e, wraps);
}

impl<P: Payload<[u8; 32]>> Database<P> {
    /// What row `row` of a product with the database carries of the noise of a query.
    pub open spec fn row_noise(self, row: int, noise: spec_fn(int, int) -> int) -> int {
        block_sum(self.block_row(row / self.n as int), row % self.n as int, noise)
    }

    /// A query for a column makes each row of the product with the database decrypt and
    /// decode to the digit of that row and column, if its noise is small enough.
    pub proof fn law_selected_digit_decodes(
        self,
        encoder: ModPEncoder,
        masks: Seq<QueryMask>,
        vs: Seq<Seq<i64>>,
        s: spec_fn(int) -> int,
        lwe_n: int,
        row: int,
        column: int,
        noise: spec_fn(int, int) -> int,
        row_bound: int,
        body: int,
        mask: spec_fn(int) -> int,
    )
        requires
            self.wf(),
            encoder.wf(),
            lwe_n >= 0,
            self.has_cell(row, column),
            vs.len() == self.spec_column_blocks(),
            encrypts(
                vs,
                masks,
                s,
                lwe_n,
                pow2(encoder.k as nat) as int,
                self.n as int,
                one_hot(self.n as int, column, encoder.spec_encode(1)),
                noise,
            ),
            abs(self.row_noise(row, noise)) <= row_bound,
            encoder.tolerates(32768, row_bound),
            is_product_row(
                self.block_row(row / self.n as int),
                masks,
                vs,
                pow2(encoder.k as nat) as int,
                lwe_n,
                row % self.n as int,
                body,
                mask,
            ),
        ensures
            encoder.spec_decode(phase(body, mask, s, lwe_n)) == centred_residue(
                self.cell(row, column) as int,
                encoder.p as int,
            ),
    {
        let n = self.n as int;
        let q = pow2(encoder.k as nat) as int;
        let group = row / n;
        let us = self.block_row(group);
        lemma_pow2_pos(encoder.k as nat);
        crate::store::lemma_block_bound(row, self.layout.rows as int, n);
        crate::store::lemma_block_bound(column, self.layout.cols as int, n);
        lemma_div_pos_is_pos(row, n);
        assert forall|b: int| 0 <= b < us.len() implies (#[trigger] us[b]).rows_in == n by {
            lemma_flat_index(group, b, self.spec_physical_rows(), self.spec_column_blocks());
        }
        lemma_column_bound(column, us.len() as int, n);
        law_selected_entry_decrypts(
            us,
            n,
            masks,
            vs,
            s,
            lwe_n,
            q,
            row % n,
            column,
            encoder.spec_encode(1),
            noise,
            body,
            mask,
        );
        lemma_div_pos_is_pos(column, n);
        lemma_phase_decodes(
            encoder,
            phase(body, mask, s, lwe_n),
            self.cell(row, column) as int,
            block_sum(us, row % n, noise),
            32768,
            row_bound,
        );
    }
}

pub proof fn lemma_column_bound(column: int, blocks: int, n: int)
    requires
        n >= 1,
        column / n < blocks,
    ensures
        column < blocks * n,
{
    lemma_fundamental_div_mod(column, n);
    lemma_mod_bound(column, n);
    assert(column < blocks * n) by (nonlinear_arith)
        requires
            column == n * (column / n) + column % n,
            column % n < n,
            column / n < blocks,
            n >= 1,
    ;
}

// ---------------------------------------------------------------------------
// The second dimension
// ---------------------------------------------------------------------------

/// The panels are combined under encryption: if each panel's phases are its entries of a
/// column, up to noise, then evaluating them at the root of matrix `m` leaves a phase that
/// decodes to the matrix's digit of that column. `extra` is noise that the evaluation adds.
pub proof fn law_reduced_digit_decodes<P: Payload<[u8; 32]>>(
    interpolation: Interpolation,
    db: Database<P>,
    blocks: Seq<CoeffMatrix>,
    encoder: ModPEncoder,
    phases: spec_fn(int) -> Poly,
    noise: spec_fn(int, int) -> int,
    bound: int,
    extra: int,
    m: int,
    column: int,
    x: int,
)
    requires
        interpolation.covers(db),
        interpolation.are_panels(db, blocks),
        encoder.wf(),
        encoder.p == interpolation.p,
        db.has_cell(m * db.n + x, column),
        0 <= x < db.n,
        forall|j: int| negacyclic(db.n as int, #[trigger] phases(j)),
        forall|j: int, r: int|
            0 <= j < interpolation.panels && 0 <= r < db.n ==> (phases(j)(r) - (blocks[j
                * db.spec_column_blocks() + column / db.n as int].entry(r, column % db.n as int)
                * encoder.spec_encode(1) + #[trigger] noise(j, r))) % pow2(encoder.k as nat) as int
                == 0,
        bound >= 0,
        forall|j: int, r: int|
            0 <= j < interpolation.panels && 0 <= r < db.n ==> -bound <= #[trigger] noise(j, r)
                <= bound,
        encoder.tolerates(
            interpolation.panels * 32768,
            interpolation.panels * bound + abs(extra),
        ),
    ensures
        encoder.spec_decode(
            value_at(phases, interpolation.panels as int, interpolation.step() * m, x) + extra,
        ) == centred_residue(db.cell(m * db.n + x, column) as int, encoder.p as int),
{
    let n = db.n as int;
    let t = interpolation.panels as int;
    let p = encoder.p as int;
    let q = pow2(encoder.k as nat) as int;
    let unit = encoder.spec_encode(1);
    let cb = db.spec_column_blocks();
    let b = column / n;
    let c = column % n;
    let e = interpolation.step() * m;
    lemma_pow2_pos(encoder.k as nat);
    lemma_quotient(m * n + x, n, m, x);
    crate::store::lemma_block_bound(m * n + x, db.layout.rows as int, n);
    crate::store::lemma_block_bound(column, db.layout.cols as int, n);
    lemma_div_pos_is_pos(column, n);
    lemma_mod_bound(column, n);
    lemma_div_pos_is_pos(m * n + x, n);
    // Split the phases into entries and noise.
    let panels = panel_column(blocks, n, cb, b, c);
    let noises = |j: int| extend(n, |r: int| noise(j, r));
    let terms = value_terms(phases, e, x);
    let entry_terms = value_terms(panels, e, x);
    let noise_terms = value_terms(noises, e, x);
    let scaled = |j: int| unit * entry_terms(j);
    let split = |j: int| scaled(j) + noise_terms(j);
    assert forall|j: int| 0 <= j < t implies (#[trigger] terms(j) - split(j)) % q == 0 && -bound
        <= noise_terms(j) <= bound && -32768 <= entry_terms(j) <= 32768 by {
        let entries = column_entries(blocks[j * cb + b], c);
        let own = |r: int| noise(j, r);
        let y = x - e * j;
        let both = |z: int| unit * extend(n, entries)(z) + extend(n, own)(z);
        lemma_extend(n, entries);
        lemma_extend(n, own);
        assert forall|z: int| #[trigger] both(z + n) == -both(z) by {
            assert(extend(n, entries)(z + n) == -extend(n, entries)(z));
            assert(extend(n, own)(z + n) == -extend(n, own)(z));
            assert(unit * (-extend(n, entries)(z)) == -(unit * extend(n, entries)(z)))
                by (nonlinear_arith);
        }
        assert forall|r: int| 0 <= r < n implies (#[trigger] phases(j)(r) - both(r)) % q == 0 by {
            assert(-bound <= noise(j, r) <= bound);
            assert(unit * entries(r) == entries(r) * unit) by (nonlinear_arith);
        }
        lemma_congruent_everywhere(n, q, phases(j), both, y);
        let z = y % (2 * n);
        lemma_mod_bound(y, 2 * n);
        assert(-bound <= noise(j, if z < n { z } else { z - n }) <= bound);
    }
    lemma_int_sum_mod(0, t, q, terms, split);
    lemma_int_sum_add(0, t, scaled, noise_terms);
    lemma_int_sum_scale(0, t, unit, entry_terms);
    assert forall|j: int| 0 <= j < t implies -bound <= #[trigger] noise_terms(j) <= bound by {
        assert((terms(j) - split(j)) % q == 0);
    }
    assert forall|j: int| 0 <= j < t implies -32768 <= #[trigger] entry_terms(j) <= 32768 by {
        assert((terms(j) - split(j)) % q == 0);
    }
    lemma_int_sum_bound(0, t, bound, noise_terms);
    lemma_int_sum_bound(0, t, 32768, entry_terms);
    let v = int_sum(0, t, entry_terms);
    let w = int_sum(0, t, noise_terms);
    assert(unit * v == v * unit) by (nonlinear_arith);
    lemma_phase_decodes(
        encoder,
        value_at(phases, t, e, x) + extra,
        v,
        w + extra,
        t * 32768,
        t * bound + abs(extra),
    );
    // The entries evaluate to the matrix.
    interpolation.law_panels_evaluate(db, blocks, m, b, c, x);
    lemma_extend(n, column_entries(db.blocks@[m * cb + b], c));
    let digit = db.cell(m * n + x, column) as int;
    lemma_mod_equivalence(v, digit, p);
    lemma_centred_residue(v, p);
}

/// What the blocks of a query plan select: `unit` in the hot slots.
pub open spec fn planned_selector(blocks: Seq<Option<usize>>, unit: int) -> spec_fn(
    int,
    int,
) -> int {
    |b: int, j: int|
        if blocks[b] == Some(j as usize) {
            unit
        } else {
            0
        }
}

/// A plan for a column selects that column.
pub proof fn lemma_plan_is_one_hot(
    blocks: Seq<Option<usize>>,
    column: int,
    n: int,
    count: int,
    unit: int,
    b: int,
    j: int,
)
    requires
        n >= 1,
        0 <= column,
        selects(blocks, column, n, count),
        0 <= b < count,
        0 <= j < n <= usize::MAX,
    ensures
        planned_selector(blocks, unit)(b, j) == one_hot(n, column, unit)(b, j),
{
    assert(blocks[b] == spec_hot_slot(column, n, b));
    lemma_fundamental_div_mod(column, n);
    lemma_mod_bound(column, n);
    assert(n * b == b * n) by (nonlinear_arith);
    if b * n + j == column {
        lemma_quotient(column, n, b, j);
    }
}

/// Blocks of panel `j`, side by side.
pub open spec fn panel_row(blocks: Seq<CoeffMatrix>, column_blocks: int, j: int) -> Seq<
    CoeffMatrix,
> {
    Seq::new(column_blocks as nat, |b: int| blocks[j * column_blocks + b])
}

/// The client fetches its record: for a payload `value` stored at `index`, whatever the
/// secret, if
///
/// - the query encrypts what the plan for `index` selects, with some noise,
/// - `bodies` and `mask_rows` are the products of the panels with the query, whose rows
///   carry its noise up to `row_bound`,
/// - `phases` are what the packed products decrypt to, with noise up to `pack_bound`,
/// - `column` is what their value at the query's root decodes to, with noise up to
///   `extra_bound`,
///
/// and the noise is small enough to be decoded, then the payload read from `column` is
/// `value`.
pub proof fn law_interpolation_retrieves<P: Payload<[u8; 32]>>(
    client: Client<P>,
    db: Database<P>,
    index: int,
    value: [u8; 32],
    plan: InterpolationPlan,
    state: QueryState,
    interpolation: Interpolation,
    blocks: Seq<CoeffMatrix>,
    encoder: ModPEncoder,
    masks: Seq<QueryMask>,
    vs: Seq<Seq<i64>>,
    s: spec_fn(int) -> int,
    lwe_n: int,
    noise: spec_fn(int, int) -> int,
    row_bound: int,
    bodies: spec_fn(int, int) -> int,
    mask_rows: spec_fn(int, int) -> spec_fn(int) -> int,
    phases: spec_fn(int) -> Poly,
    pack_noise: spec_fn(int, int) -> int,
    pack_bound: int,
    extra: spec_fn(int) -> int,
    extra_bound: int,
    column: Seq<i64>,
    block: [u8; 32],
)
    requires
        client.wf(),
        client.params.params.collapse is Interpolation,
        db.wf(),
        db.layout == client.layout,
        db.n == client.params.params.n,
        db.height == db.n,
        0 <= index < client.spec_capacity(),
        client.asks_for(state, index),
        client.plan_selects(QueryPlan::Interpolation(plan), state),
        db.digits_at(index) == P::digits_of(value),
        interpolation.covers(db),
        interpolation.are_panels(db, blocks),
        interpolation.p == P::BASIS,
        is_next_power_of_two(
            client.layout.spec_block_rows(db.n as int),
            interpolation.panels as int,
        ),
        encoder.wf(),
        encoder.p == P::BASIS,
        // The query.
        lwe_n >= 0,
        vs.len() == db.spec_column_blocks(),
        encrypts(
            vs,
            masks,
            s,
            lwe_n,
            pow2(encoder.k as nat) as int,
            db.n as int,
            planned_selector(plan.blocks@, encoder.spec_encode(1)),
            noise,
        ),
        // The products.
        row_bound >= 0,
        forall|j: int, r: int|
            0 <= j < interpolation.panels && 0 <= r < db.n ==> abs(
                #[trigger] block_sum(panel_row(blocks, db.spec_column_blocks(), j), r, noise),
            ) <= row_bound,
        forall|j: int, r: int|
            0 <= j < interpolation.panels && 0 <= r < db.n ==> is_product_row(
                panel_row(blocks, db.spec_column_blocks(), j),
                masks,
                vs,
                pow2(encoder.k as nat) as int,
                lwe_n,
                r,
                #[trigger] bodies(j, r),
                mask_rows(j, r),
            ),
        // Packing.
        forall|j: int| negacyclic(db.n as int, #[trigger] phases(j)),
        forall|j: int, r: int|
            0 <= j < interpolation.panels && 0 <= r < db.n ==> (phases(j)(r) - (phase(
                bodies(j, r),
                mask_rows(j, r),
                s,
                lwe_n,
            ) + #[trigger] pack_noise(j, r))) % pow2(encoder.k as nat) as int == 0,
        pack_bound >= 0,
        forall|j: int, r: int|
            0 <= j < interpolation.panels && 0 <= r < db.n ==> -pack_bound <= #[trigger] pack_noise(
                j,
                r,
            ) <= pack_bound,
        // The answer.
        forall|x: int| 0 <= x < db.n ==> -extra_bound <= #[trigger] extra(x) <= extra_bound,
        extra_bound >= 0,
        encoder.tolerates(
            interpolation.panels * 32768,
            interpolation.panels * (row_bound + pack_bound) + extra_bound,
        ),
        column.len() == db.n,
        forall|x: int|
            0 <= x < db.n ==> #[trigger] column[x] == encoder.spec_decode(
                value_at(
                    phases,
                    interpolation.panels as int,
                    plan.root.exponent(db.n as int),
                    x,
                ) + extra(x),
            ),
        P::stands_for(Client::<P>::spec_digits(state, column), block),
    ensures
        Client::<P>::readable(state, column),
        block == value,
{
    let n = db.n as int;
    let t = interpolation.panels as int;
    let q = pow2(encoder.k as nat) as int;
    let cb = db.spec_column_blocks();
    let unit = encoder.spec_encode(1);
    let matrix = state.address.matrix as int;
    let selected = state.address.column as int;
    lemma_pow2_pos(encoder.k as nat);
    client.layout.lemma_address(index, n, n);
    lemma_div_pos_is_pos(selected, n);
    lemma_mod_bound(selected, n);
    crate::store::lemma_block_bound(selected, db.layout.cols as int, n);
    lemma_column_bound(selected, cb, n);
    let selector = planned_selector(plan.blocks@, unit);
    let hot = one_hot(n, selected, unit);
    assert forall|b: int, j: int| 0 <= b < vs.len() && 0 <= j < n implies (query_phase(
        vs,
        masks,
        s,
        lwe_n,
    )(b, j) - (hot(b, j) + #[trigger] noise(b, j))) % q == 0 by {
        lemma_plan_is_one_hot(plan.blocks@, selected, n, cb, unit, b, j);
        assert((query_phase(vs, masks, s, lwe_n)(b, j) - (selector(b, j) + noise(b, j))) % q == 0);
    }
    assert(encrypts(vs, masks, s, lwe_n, q, n, hot, noise));
    // Every packed row is an entry of its panel and some noise.
    let each = row_bound + pack_bound;
    let total_noise = |j: int, r: int|
        centred_noise(
            phases(j)(r),
            blocks[j * cb + selected / n].entry(r, selected % n) * unit,
            each,
            q,
        );
    assert forall|j: int, r: int| 0 <= j < t && 0 <= r < n implies (phases(j)(r) - (blocks[j * cb
        + selected / n].entry(r, selected % n) * unit + #[trigger] total_noise(j, r))) % q == 0
        && -each <= total_noise(j, r) <= each by {
        let us = panel_row(blocks, cb, j);
        assert forall|b: int| 0 <= b < us.len() implies (#[trigger] us[b]).rows_in == n by {
            lemma_flat_index(j, b, t, cb);
        }
        assert(is_product_row(us, masks, vs, q, lwe_n, r, bodies(j, r), mask_rows(j, r)));
        let e = block_sum(us, r, noise);
        law_selected_entry_decrypts(
            us,
            n,
            masks,
            vs,
            s,
            lwe_n,
            q,
            r,
            selected,
            unit,
            noise,
            bodies(j, r),
            mask_rows(j, r),
        );
        let row_phase = phase(bodies(j, r), mask_rows(j, r), s, lwe_n);
        let m = blocks[j * cb + selected / n].entry(r, selected % n) * unit;
        assert(-pack_bound <= pack_noise(j, r) <= pack_bound);
        lemma_multiples_add(
            phases(j)(r) - (row_phase + pack_noise(j, r)),
            row_phase - (m + e),
            q,
        );
        lemma_centred_noise(phases(j)(r), m, e + pack_noise(j, r), each, q);
    }
    assert forall|j: int, r: int| 0 <= j < t && 0 <= r < n implies -each <= #[trigger] total_noise(
        j,
        r,
    ) <= each by {
        assert((phases(j)(r) - (blocks[j * cb + selected / n].entry(r, selected % n) * unit
            + total_noise(j, r))) % q == 0);
    }
    // The root is that of the matrix.
    crate::query::law_roots_are_distinct(n, t, matrix, matrix);
    lemma_small_mod(((2 * n * matrix) / t) as nat, (2 * n) as nat);
    assert(plan.root.exponent(n) == interpolation.step() * matrix) by {
        assert(plan.root.exponent(n) == ((2 * n * matrix) / t) % (2 * n));
        assert(matrix * ((2 * n) / t) == ((2 * n) / t) * matrix) by (nonlinear_arith);
    }
    assert forall|x: int| 0 <= x < n implies #[trigger] column[x] == centred_residue(
        db.cell(matrix * n + x, selected) as int,
        P::BASIS as int,
    ) by {
        lemma_row_in_matrix(client.layout.rows as int, n, matrix, x);
        lemma_tolerates_less(
            encoder,
            t * 32768,
            t * each + abs(extra(x)),
            t * each + extra_bound,
        );
        law_reduced_digit_decodes(
            interpolation,
            db,
            blocks,
            encoder,
            phases,
            total_noise,
            each,
            extra(x),
            matrix,
            selected,
            x,
        );
    }
    client.law_selected_column_decodes(db, state, index, column, value, block);
}

/// Matrix `matrix` lies in the first `rows / n` whole matrices.
pub proof fn lemma_row_in_matrix(rows: int, n: int, matrix: int, x: int)
    requires
        n >= 1,
        0 <= matrix < rows / n,
        0 <= x < n,
    ensures
        0 <= matrix * n + x < rows,
{
    lemma_fundamental_div_mod(rows, n);
    lemma_mod_bound(rows, n);
    assert(0 <= matrix * n && matrix * n + n <= n * (rows / n)) by (nonlinear_arith)
        requires
            0 <= matrix,
            matrix + 1 <= rows / n,
            n >= 1,
    ;
}

proof fn lemma_tolerates_less(encoder: ModPEncoder, m: int, noise: int, more: int)
    requires
        encoder.wf(),
        0 <= noise <= more,
        encoder.tolerates(m, more),
    ensures
        encoder.tolerates(m, noise),
{
    let p = encoder.p as int;
    assert(2 * noise * p <= 2 * more * p) by (nonlinear_arith)
        requires
            0 <= noise <= more,
            p >= 0,
    ;
}

/// The noise of size at most `bound` by which `total` differs from `m`, modulo `q`.
pub open spec fn centred_noise(total: int, m: int, bound: int, q: int) -> int {
    choose|e: int| -bound <= e <= bound && #[trigger] ((total - (m + e)) % q) == 0
}

pub proof fn lemma_centred_noise(total: int, m: int, e: int, bound: int, q: int)
    requires
        -bound <= e <= bound,
        (total - (m + e)) % q == 0,
    ensures
        ({
            let c = centred_noise(total, m, bound, q);
            -bound <= c <= bound && (total - (m + c)) % q == 0
        }),
{
}

// ---------------------------------------------------------------------------
// The second level
// ---------------------------------------------------------------------------

/// The second level selects digits: a query for batch `k` makes row `r` of the product
/// with a group of digit rows decrypt to the unit times that row's digit of batch `k`, and
/// the product of that row with the noise of the query.
pub proof fn law_second_level_selects(
    digits: Seq<Vec<i16>>,
    us: Seq<CoeffMatrix>,
    group: int,
    gamma: int,
    t: int,
    n: int,
    masks: Seq<QueryMask>,
    vs: Seq<Seq<i64>>,
    s: spec_fn(int) -> int,
    lwe_n: int,
    q: int,
    r: int,
    k: int,
    unit: int,
    noise: spec_fn(int, int) -> int,
    body: int,
    mask: spec_fn(int) -> int,
)
    requires
        n >= 1,
        q >= 1,
        lwe_n >= 0,
        0 <= r < gamma,
        group * gamma + r < digits.len(),
        0 <= k < t,
        t <= us.len() * n,
        vs.len() == us.len(),
        forall|b: int|
            0 <= b < us.len() ==> {
                &&& (#[trigger] us[b]).rows_in == n
                &&& us[b].rows_out == gamma
            },
        forall|b: int, j: int, c: int|
            0 <= b < us.len() && us[b].contains(j, c) ==> #[trigger] us[b].entry(j, c)
                == digit_or_zero(digits, t, group * gamma + j, b * n + c),
        encrypts(vs, masks, s, lwe_n, q, n, one_hot(n, k, unit), noise),
        is_product_row(us, masks, vs, q, lwe_n, r, body, mask),
    ensures
        (phase(body, mask, s, lwe_n) - (digits[group * gamma + r]@[k] * unit + block_sum(
            us,
            r,
            noise,
        ))) % q == 0,
{
    law_selected_entry_decrypts(
        us,
        n,
        masks,
        vs,
        s,
        lwe_n,
        q,
        r,
        k,
        unit,
        noise,
        body,
        mask,
    );
    lemma_block_sum_hot(us, r, n, k, unit);
    lemma_fundamental_div_mod(k, n);
    lemma_mod_bound(k, n);
    assert(n * (k / n) == (k / n) * n) by (nonlinear_arith);
    assert(us[k / n].contains(r, k % n));
}

/// What coefficient `j` of a packed answer of digits decrypts to: its body, and its mask
/// through row `j` of the key.
pub open spec fn packed_phase(v: LimbVec, key: spec_fn(int, int) -> int, j: int) -> int {
    limb_phase(v, 16, key, j)
}

/// What coefficient `j` of a ciphertext in limbs of `b` bits decrypts to.
pub open spec fn limb_phase(
    v: LimbVec,
    b: nat,
    key: spec_fn(int, int) -> int,
    j: int,
) -> int {
    phase(
        limb_value(coefficient_limbs(v, 0, j), b),
        |i: int| limb_value(coefficient_limbs(v, 1, i), b),
        |i: int| key(j, i),
        v.n as int,
    )
}

/// Phases of the second level, one per digit: `digit` units and noise up to `bound`.
pub open spec fn holds_digits(
    encoder: ModPEncoder,
    phases: spec_fn(int) -> int,
    noise: spec_fn(int) -> int,
    bound: int,
    digits: Seq<Vec<i16>>,
    k: int,
) -> bool {
    forall|i: int|
        0 <= i < digits.len() ==> {
            &&& (#[trigger] phases(i) - (digits[i]@[k] * encoder.spec_encode(1) + noise(i))) % pow2(
                encoder.k as nat,
            ) as int == 0
            &&& -bound <= noise(i) <= bound
        }
}

/// Digits modulo `2^16` are decoded from such phases.
proof fn lemma_digits_decode(
    encoder: ModPEncoder,
    phases: spec_fn(int) -> int,
    noise: spec_fn(int) -> int,
    bound: int,
    digits: Seq<Vec<i16>>,
    k: int,
    i: int,
)
    requires
        encoder.wf(),
        encoder.p == 65536,
        bound >= 0,
        encoder.tolerates(32768, bound),
        holds_digits(encoder, phases, noise, bound, digits, k),
        0 <= i < digits.len(),
    ensures
        encoder.spec_decode(phases(i)) == digits[i]@[k],
{
    lemma_phase_decodes(encoder, phases(i), digits[i]@[k] as int, noise(i), 32768, bound);
}

/// The client fetches its record through two levels: for a payload `value` stored at
/// `index`, whatever the keys, if
///
/// - `packed` is the packed answer of the payload's batch, and coefficient `j` of it
///   decrypts to row `j` of the selected column, with noise up to `first_bound`,
/// - the digit databases hold the digits of `packed`,
/// - `mask` and `body` are decoded from what the second level selects, with noise up to
///   `second_bound`,
/// - `column` is decoded from the recomposed answer,
///
/// and the noise is small enough to be decoded, then the payload read from `column` is
/// `value`.
pub proof fn law_recursion_retrieves<P: Payload<[u8; 32]>>(
    client: Client<P>,
    db: Database<P>,
    index: int,
    value: [u8; 32],
    state: QueryState,
    packed: LimbVec,
    key: spec_fn(int, int) -> int,
    first: ModPEncoder,
    first_noise: spec_fn(int) -> int,
    first_bound: int,
    mask_digits: Seq<Vec<i16>>,
    body_digits: Seq<Vec<i16>>,
    second: ModPEncoder,
    mask_phases: spec_fn(int) -> int,
    mask_noise: spec_fn(int) -> int,
    body_phases: spec_fn(int) -> int,
    body_noise: spec_fn(int) -> int,
    second_bound: int,
    mask: Seq<i64>,
    body: Seq<i64>,
    recomposed: LimbVec,
    tau: int,
    column: Seq<i64>,
    block: [u8; 32],
)
    requires
        client.wf(),
        client.params.params.collapse is Recursion,
        db.wf(),
        db.layout == client.layout,
        db.n == client.params.params.n,
        db.height == client.params.params.spec_column_height(),
        0 <= index < client.spec_capacity(),
        client.asks_for(state, index),
        db.digits_at(index) == P::digits_of(value),
        // The first level.
        packed.n == db.n,
        packed.cols == 2,
        packed.size == tau,
        forall|col: int, l: int, c: int|
            packed.contains(col, l, c) ==> -32768 <= #[trigger] packed.coeff(col, l, c) < 32768,
        first.wf(),
        first.p == P::BASIS,
        first_bound >= 0,
        first.tolerates(32768, first_bound),
        forall|j: int|
            0 <= j < db.height ==> {
                &&& (packed_phase(packed, key, j) - (db.cell(
                    state.address.matrix * db.height + j,
                    state.address.column as int,
                ) * first.spec_encode(1) + #[trigger] first_noise(j))) % pow2(first.k as nat) as int
                    == 0
                &&& -first_bound <= first_noise(j) <= first_bound
            },
        // Its digits.
        mask_digits.len() == db.n * tau,
        body_digits.len() == db.height * tau,
        forall|c: int, l: int|
            0 <= c < db.n && 0 <= l < tau ==> mask_digits[c * tau + l]@[state.address.matrix as int]
                == centred16(#[trigger] packed.coeff(1, l, c) as int),
        forall|c: int, l: int|
            0 <= c < db.height && 0 <= l < tau ==> body_digits[c * tau
                + l]@[state.address.matrix as int] == centred16(
                #[trigger] packed.coeff(0, l, c) as int,
            ),
        // The second level.
        second.wf(),
        second.p == 65536,
        second_bound >= 0,
        second.tolerates(32768, second_bound),
        holds_digits(
            second,
            mask_phases,
            mask_noise,
            second_bound,
            mask_digits,
            state.address.matrix as int,
        ),
        holds_digits(
            second,
            body_phases,
            body_noise,
            second_bound,
            body_digits,
            state.address.matrix as int,
        ),
        mask.len() == mask_digits.len(),
        body.len() == body_digits.len(),
        forall|i: int|
            0 <= i < mask.len() ==> #[trigger] mask[i] == second.spec_decode(mask_phases(i)),
        forall|i: int|
            0 <= i < body.len() ==> #[trigger] body[i] == second.spec_decode(body_phases(i)),
        // The answer.
        recomposed.n == db.n,
        recomposed.size == tau,
        forall|l: int, c: int|
            0 <= l < tau && 0 <= c < db.n ==> #[trigger] recomposed.coeff(1, l, c) == mask[c * tau
                + l],
        forall|l: int, c: int|
            0 <= l < tau && 0 <= c < db.height ==> #[trigger] recomposed.coeff(0, l, c) == body[c
                * tau + l],
        column.len() == db.height,
        forall|j: int|
            0 <= j < db.height ==> #[trigger] column[j] == first.spec_decode(
                packed_phase(recomposed, key, j),
            ),
        P::stands_for(Client::<P>::spec_digits(state, column), block),
    ensures
        Client::<P>::readable(state, column),
        block == value,
{
    let n = db.n as int;
    let height = db.height as int;
    let k = state.address.matrix as int;
    client.layout.lemma_address(index, n, height);
    assert forall|i: int| 0 <= i < mask.len() implies #[trigger] mask[i] == mask_digits[i]@[k] by {
        lemma_digits_decode(second, mask_phases, mask_noise, second_bound, mask_digits, k, i);
    }
    assert forall|i: int| 0 <= i < body.len() implies #[trigger] body[i] == body_digits[i]@[k] by {
        lemma_digits_decode(second, body_phases, body_noise, second_bound, body_digits, k, i);
    }
    law_selected_digits_recompose(
        packed,
        mask_digits,
        body_digits,
        mask,
        body,
        recomposed,
        k,
        n,
        height,
        tau,
    );
    assert forall|j: int| 0 <= j < height implies #[trigger] column[j] == centred_residue(
        db.cell(k * height + j, state.address.column as int) as int,
        P::BASIS as int,
    ) by {
        assert(coefficient_limbs(recomposed, 0, j) =~= coefficient_limbs(packed, 0, j));
        let a = |i: int| limb_value(coefficient_limbs(recomposed, 1, i), 16);
        let b = |i: int| limb_value(coefficient_limbs(packed, 1, i), 16);
        let row = |i: int| key(j, i);
        let x = |i: int| a(i) * row(i);
        let y = |i: int| b(i) * row(i);
        assert forall|i: int| 0 <= i < n implies #[trigger] x(i) == y(i) by {
            assert(coefficient_limbs(recomposed, 1, i) =~= coefficient_limbs(packed, 1, i));
        }
        lemma_int_sum_congruent(0, n, x, y);
        lemma_phase_decodes(
            first,
            packed_phase(recomposed, key, j),
            db.cell(k * height + j, state.address.column as int) as int,
            first_noise(j),
            32768,
            first_bound,
        );
    }
    client.law_selected_column_decodes(db, state, index, column, value, block);
}

} // verus!
