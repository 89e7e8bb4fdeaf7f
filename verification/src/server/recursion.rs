//! The recursion construction: seeds, shapes, digit databases and schedules.
//!
//! The first level selects a column of every batch. Its packed answers are split into
//! 16-bit digits, and the digits form the database of the second level, which selects
//! the batch.

use vstd::prelude::*;
use vstd::arithmetic::div_mod::*;
use crate::arith::{
    clamp, div_ceil, just_enough, lemma_div_ceil, lemma_just_enough, lemma_quotient, max, min,
    spec_clamp, spec_div_ceil, spec_max, spec_min,
};
use crate::bytes::{le_bytes, le_value, lemma_u32_fits, write_u32};
use crate::limbs::LimbVec;
use crate::matrix::{lemma_flat_index, lemma_flat_index_injective, CoeffMatrix};
use crate::packing::recursion::{centred16, lemma_centred16, limb_to_digit};
use crate::server::product::copy_vec_znx_rows;
use crate::sums::int_sum;

verus! {

/// Working set of the first level's bodies, in bytes.
pub const BODY_BUDGET: usize = 2147483648;

/// Stride of the order-`gamma` subgroup that a packing key serves.
pub fn key_stride(n: usize, gamma: usize) -> (r: usize)
    requires
        gamma >= 1,
    ensures
        r == (n as int / 2) / gamma as int,
{
    n / 2 / gamma
}

// ---------------------------------------------------------------------------
// Seeds
// ---------------------------------------------------------------------------

/// Seed of one mask block: the last four bytes hold the block's number.
pub open spec fn spec_block_seed(seed: Seq<u8>, block: int) -> Seq<u8> {
    seed.subrange(0, 28) + le_bytes(block, 4)
}

/// Seed of mask block `block`.
pub fn block_seed(seed: [u8; 32], block: usize) -> (r: [u8; 32])
    requires
        block <= u32::MAX,
    ensures
        r@ == spec_block_seed(seed@, block as int),
{
    let mut tail: Vec<u8> = Vec::new();
    write_u32(&mut tail, block as u32);
    proof {
        lemma_u32_fits(block as u32);
        assert(tail@ =~= le_bytes(block as int, 4));
    }
    let mut r: [u8; 32] = seed;
    let mut i: usize = 0;
    while i < 4
        invariant
            i <= 4,
            tail@.len() == 4,
            r@.len() == 32,
            seed@.len() == 32,
            forall|j: int| 0 <= j < 28 ==> #[trigger] r@[j] == seed@[j],
            forall|j: int| 28 <= j < 28 + i ==> #[trigger] r@[j] == tail@[j - 28],
        decreases 4 - i,
    {
        r[28 + i] = tail[i];
        i = i + 1;
    }
    assert(r@ =~= spec_block_seed(seed@, block as int));
    r
}

/// Blocks of one seed have distinct seeds.
pub proof fn law_block_seeds_distinct(seed: Seq<u8>, a: u32, b: u32)
    requires
        seed.len() == 32,
        spec_block_seed(seed, a as int) == spec_block_seed(seed, b as int),
    ensures
        a == b,
{
    lemma_u32_fits(a);
    lemma_u32_fits(b);
    let sa = spec_block_seed(seed, a as int);
    let sb = spec_block_seed(seed, b as int);
    assert(sa.subrange(28, 32) =~= le_bytes(a as int, 4));
    assert(sb.subrange(28, 32) =~= le_bytes(b as int, 4));
}

/// Seeds of the masks that cover `rows` slots in blocks of `n`.
pub fn crs_mask_seeds(seed: [u8; 32], rows: usize, n: usize) -> (r: Vec<[u8; 32]>)
    requires
        n >= 1,
        spec_div_ceil(rows as int, n as int) <= u32::MAX,
    ensures
        r@.len() == spec_div_ceil(rows as int, n as int),
        forall|b: int| 0 <= b < r@.len() ==> (#[trigger] r@[b])@ == spec_block_seed(seed@, b),
{
    let count: usize = div_ceil(rows, n);
    let mut out: Vec<[u8; 32]> = Vec::new();
    while out.len() < count
        invariant
            out@.len() <= count,
            count <= u32::MAX,
            forall|b: int|
                0 <= b < out@.len() ==> (#[trigger] out@[b])@ == spec_block_seed(seed@, b),
        decreases count - out@.len(),
    {
        let block: usize = out.len();
        out.push(block_seed(seed, block));
    }
    out
}

// ---------------------------------------------------------------------------
// Schedules
// ---------------------------------------------------------------------------

/// `a * b`, or the largest word where that does not fit.
pub open spec fn spec_saturating(a: int, b: int) -> int {
    spec_min(a * b, usize::MAX as int)
}

fn saturating_times(a: usize, b: usize) -> (r: usize)
    ensures
        r == spec_saturating(a as int, b as int),
{
    match a.checked_mul(b) {
        Some(x) => x,
        None => usize::MAX,
    }
}

/// Queries answered per pass over the database: as many as keep `t` bodies of `n`
/// coefficients in `size` limbs each within the budget, at least one.
pub fn body_chunk(queries: usize, t: usize, n: usize, size: usize) -> (r: usize)
    requires
        queries >= 1,
    ensures
        r == spec_clamp(
            2147483648int / spec_max(
                spec_saturating(t as int, spec_saturating(spec_saturating(n as int, size as int), 8)),
                1,
            ),
            1,
            queries as int,
        ),
        1 <= r <= queries,
{
    let bytes_per_body: usize = saturating_times(saturating_times(n, size), 8);
    let per_query: usize = max(saturating_times(t, bytes_per_body), 1);
    clamp(BODY_BUDGET / per_query, 1, queries)
}

/// Workers that one unit of work may use, when `units` run at a time.
pub fn inner_threads(total: usize, units: usize) -> (r: usize)
    requires
        units >= 1,
    ensures
        r == spec_max(total as int / units as int, 1),
        units <= total ==> units * r <= total,
{
    proof {
        lemma_fundamental_div_mod(total as int, units as int);
        lemma_mod_pos_bound(total as int, units as int);
        let q = total as int / units as int;
        if units <= total {
            assert(q >= 1) by (nonlinear_arith)
                requires
                    total == units * q + total as int % units as int,
                    total as int % (units as int) < units,
                    units <= total,
            ;
        }
    }
    max(total / units, 1)
}

/// Ceiling on concurrent batches of the second level.
pub open spec fn spec_outer_cap(
    nbatches: int,
    max_threads: int,
    pool_len: int,
    pooled: bool,
) -> int {
    let cap = spec_min(nbatches, spec_max(max_threads, 1));
    if pooled {
        spec_min(cap, pool_len)
    } else {
        cap
    }
}

/// A request, or the ceiling where there is none, moved into `1 ..= cap`.
pub open spec fn spec_requested(request: Option<usize>, cap: int) -> int {
    match request {
        Some(x) => spec_clamp(x as int, 1, cap),
        None => spec_clamp(cap, 1, cap),
    }
}

/// Concurrent batches and workers per batch of the online second level. Requests are
/// moved into what work and scratch pool allow, and the product never exceeds the budget.
pub fn resp2_schedule(
    nbatches: usize,
    max_threads: usize,
    pool_len: usize,
    pooled: bool,
    outer_request: Option<usize>,
    inner_request: Option<usize>,
) -> (r: (usize, usize))
    requires
        nbatches >= 1,
        pooled ==> pool_len >= 1,
    ensures
        ({
            let cap = spec_outer_cap(
                nbatches as int,
                max_threads as int,
                pool_len as int,
                pooled,
            );
            let outer = spec_requested(outer_request, cap);
            let inner_cap = spec_max(spec_max(max_threads as int, 1) / outer, 1);
            &&& r.0 == outer
            &&& r.1 == spec_requested(inner_request, inner_cap)
        }),
        r.0 >= 1,
        r.1 >= 1,
        r.0 <= nbatches,
        r.0 * r.1 <= spec_max(max_threads as int, 1),
{
    let budget: usize = max(max_threads, 1);
    let mut cap: usize = min(nbatches, budget);
    if pooled {
        cap = min(cap, pool_len);
    }
    let outer: usize = match outer_request {
        Some(x) => clamp(x, 1, cap),
        None => cap,
    };
    let inner_cap: usize = inner_threads(budget, outer);
    let inner: usize = match inner_request {
        Some(x) => clamp(x, 1, inner_cap),
        None => inner_cap,
    };
    proof {
        assert(outer * inner <= outer * inner_cap) by (nonlinear_arith)
            requires
                inner <= inner_cap,
                outer >= 0,
        ;
    }
    (outer, inner)
}

// ---------------------------------------------------------------------------
// First level
// ---------------------------------------------------------------------------

/// Batches of one block-row: those of its `rows_per_group` that exist.
pub open spec fn spec_group_batches(row_group: int, rows_per_group: int, t: int) -> int {
    spec_min(rows_per_group, spec_max(t - row_group * rows_per_group, 0))
}

/// Every batch of the database is cut out of exactly one block-row: batch `b` is batch
/// `b % rows_per_group` of block-row `b / rows_per_group`, and no other place of any
/// block-row holds it.
pub proof fn law_batches_are_cut_once(rows_per_group: int, t: int, b: int, g: int, local: int)
    requires
        rows_per_group >= 1,
        0 <= b < t,
        g >= 0,
        local >= 0,
    ensures
        0 <= b % rows_per_group < spec_group_batches(b / rows_per_group, rows_per_group, t),
        (b / rows_per_group) * rows_per_group + b % rows_per_group == b,
        local < spec_group_batches(g, rows_per_group, t) && g * rows_per_group + local == b
            <==> g == b / rows_per_group && local == b % rows_per_group,
{
    lemma_fundamental_div_mod(b, rows_per_group);
    assert(rows_per_group * (b / rows_per_group) == (b / rows_per_group) * rows_per_group)
        by (nonlinear_arith);
    if local < spec_group_batches(g, rows_per_group, t) && g * rows_per_group + local == b {
        lemma_fundamental_div_mod_converse(b, rows_per_group, g, local);
    }
}

/// The batches of the first `groups` block-rows are the first `groups * rows_per_group` of
/// the database, or all of them: none is left out, and no block-row holds one that does not
/// exist.
pub proof fn law_block_rows_hold_all_batches(groups: int, rows_per_group: int, t: int)
    requires
        groups >= 0,
        rows_per_group >= 0,
        t >= 0,
    ensures
        int_sum(0, groups, |g: int| spec_group_batches(g, rows_per_group, t)) == (if groups
            * rows_per_group <= t {
            groups * rows_per_group
        } else {
            t
        }),
    decreases groups,
{
    let f = |g: int| spec_group_batches(g, rows_per_group, t);
    if groups == 0 {
        assert(0 * rows_per_group == 0);
    } else {
        law_block_rows_hold_all_batches(groups - 1, rows_per_group, t);
        assert((groups - 1) * rows_per_group + rows_per_group == groups * rows_per_group)
            by (nonlinear_arith);
        assert(int_sum(0, groups, f) == int_sum(0, groups - 1, f) + f(groups - 1));
    }
}

/// Cuts the product of one block-row into its batches: body `local` holds rows
/// `local * gamma0 ..` of the product in its first `gamma0` coefficients, and zeros above.
pub fn split_rows(
    product: &LimbVec,
    row_group: usize,
    rows_per_group: usize,
    t: usize,
    gamma0: usize,
) -> (r: Vec<LimbVec>)
    requires
        product.wf(),
        product.n * product.cols <= usize::MAX,
        row_group * rows_per_group + rows_per_group <= usize::MAX,
        rows_per_group * gamma0 <= product.n,
        gamma0 >= 1,
    ensures
        r@.len() == spec_group_batches(row_group as int, rows_per_group as int, t as int),
        r@.len() <= rows_per_group,
        forall|local: int|
            0 <= local < rows_per_group ==> (local < r@.len() <==> #[trigger] (row_group
                * rows_per_group + local) < t),
        forall|local: int|
            0 <= local < r@.len() ==> (#[trigger] r@[local]).wf() && r@[local].same_shape(product),
        forall|local: int, col: int, limb: int, i: int|
            0 <= local < r@.len() && product.contains(col, limb, i) ==> #[trigger] r@[local].coeff(
                col,
                limb,
                i,
            ) == (if i < gamma0 {
                product.coeff(col, limb, local * gamma0 + i) as int
            } else {
                0
            }),
{
    let total: usize = product.data.len();
    let first: usize = row_group * rows_per_group;
    let mut out: Vec<LimbVec> = Vec::new();
    let mut local: usize = 0;
    while local < rows_per_group && first + local < t
        invariant
            local <= rows_per_group,
            first == row_group * rows_per_group,
            first + rows_per_group <= usize::MAX,
            total == product.data@.len(),
            product.wf(),
            product.n * product.cols <= usize::MAX,
            rows_per_group * gamma0 <= product.n,
            gamma0 >= 1,
            out@.len() == local,
            local > 0 ==> first + local <= t,
            forall|a: int|
                0 <= a < local ==> (#[trigger] out@[a]).wf() && out@[a].same_shape(product),
            forall|a: int, col: int, limb: int, i: int|
                0 <= a < local && product.contains(col, limb, i) ==> #[trigger] out@[a].coeff(
                    col,
                    limb,
                    i,
                ) == (if i < gamma0 {
                    product.coeff(col, limb, a * gamma0 + i) as int
                } else {
                    0
                }),
        decreases rows_per_group - local,
    {
        proof {
            assert(0 <= local * gamma0 && local * gamma0 + gamma0 <= rows_per_group * gamma0)
                by (nonlinear_arith)
                requires
                    0 <= local,
                    local + 1 <= rows_per_group,
                    gamma0 >= 1,
            ;
        }
        let mut body = LimbVec::zeros(product.n, product.cols, product.size);
        copy_vec_znx_rows(&mut body, 0, product, local * gamma0, gamma0);
        out.push(body);
        local = local + 1;
    }
    out
}

/// Cutting up the products of all block-rows gives a body for every batch of the database:
/// batch `b` is cut out of block-row `b / rows_per_group`, as body `b % rows_per_group`, with
/// its `gamma0` rows in front and zeros behind them.
pub proof fn law_every_batch_gets_a_body(
    product: &LimbVec,
    row_group: usize,
    rows_per_group: usize,
    t: usize,
    gamma0: usize,
    bodies: Vec<LimbVec>,
    b: int,
)
    requires
        call_ensures(split_rows, (product, row_group, rows_per_group, t, gamma0), bodies),
        rows_per_group >= 1,
        0 <= b < t,
        row_group == b / rows_per_group as int,
    ensures
        b % (rows_per_group as int) < bodies@.len(),
        bodies@.len() <= rows_per_group,
        row_group * rows_per_group + bodies@.len() <= t,
        ({
            let local = b % rows_per_group as int;
            forall|col: int, limb: int, i: int|
                product.contains(col, limb, i) ==> #[trigger] bodies@[local].coeff(col, limb, i)
                    == (if i < gamma0 {
                    product.coeff(col, limb, local * gamma0 + i) as int
                } else {
                    0
                })
        }),
{
    law_batches_are_cut_once(rows_per_group as int, t as int, b, 0, 0);
}

// ---------------------------------------------------------------------------
// Digit databases
// ---------------------------------------------------------------------------

/// Row `c * tau + l` holds, for every batch, limb `l` of coefficient `c` of column `col`.
pub open spec fn holds_limbs(
    digits: Seq<Vec<i16>>,
    packed: Seq<LimbVec>,
    col: int,
    coeffs: int,
    tau: int,
) -> bool {
    forall|c: int, l: int, k: int|
        0 <= c < coeffs && 0 <= l < tau && 0 <= k < packed.len() ==> digits[c * tau + l]@[k]
            == centred16(#[trigger] packed[k].coeff(col, l, c) as int)
}

/// Digits of packed answers: row `c * tau + l` holds, for every batch, limb `l` of
/// coefficient `c` of column `col`.
pub fn digit_database(packed: &[LimbVec], col: usize, coeffs: usize, tau: usize) -> (r: Vec<
    Vec<i16>,
>)
    requires
        coeffs * tau <= usize::MAX,
        forall|k: int|
            0 <= k < packed@.len() ==> {
                &&& (#[trigger] packed@[k]).wf()
                &&& col < packed@[k].cols
                &&& tau <= packed@[k].size
                &&& coeffs <= packed@[k].n
            },
    ensures
        r@.len() == coeffs * tau,
        holds_limbs(r@, packed@, col as int, coeffs as int, tau as int),
        forall|row: int| 0 <= row < r@.len() ==> (#[trigger] r@[row])@.len() == packed@.len(),
        forall|c: int, l: int, k: int|
            0 <= c < coeffs && 0 <= l < tau && 0 <= k < packed@.len() ==> r@[c * tau + l]@[k]
                == centred16(#[trigger] packed@[k].coeff(col as int, l, c) as int),
{
    let total: usize = coeffs * tau;
    let mut out: Vec<Vec<i16>> = Vec::new();
    while out.len() < total
        invariant
            out@.len() <= total,
            total == coeffs * tau,
            forall|k: int|
                0 <= k < packed@.len() ==> {
                    &&& (#[trigger] packed@[k]).wf()
                    &&& col < packed@[k].cols
                    &&& tau <= packed@[k].size
                    &&& coeffs <= packed@[k].n
                },
            forall|row: int| 0 <= row < out@.len() ==> (#[trigger] out@[row])@.len() == packed@.len(),
            forall|row: int, k: int|
                0 <= row < out@.len() && 0 <= k < packed@.len() ==> #[trigger] out@[row]@[k]
                    == centred16(
                    packed@[k].coeff(col as int, row % tau as int, row / tau as int) as int,
                ),
        decreases total - out@.len(),
    {
        let row: usize = out.len();
        proof {
            assert(tau >= 1) by (nonlinear_arith)
                requires
                    0 <= row < coeffs * tau,
                    tau >= 0,
            ;
            lemma_row_parts(row as int, coeffs as int, tau as int);
        }
        let c: usize = row / tau;
        let l: usize = row % tau;
        let mut digits: Vec<i16> = Vec::new();
        while digits.len() < packed.len()
            invariant
                digits@.len() <= packed@.len(),
                forall|k: int|
                    0 <= k < packed@.len() ==> {
                        &&& (#[trigger] packed@[k]).wf()
                        &&& col < packed@[k].cols
                        &&& tau <= packed@[k].size
                        &&& coeffs <= packed@[k].n
                    },
                c < coeffs,
                l < tau,
                forall|k: int|
                    0 <= k < digits@.len() ==> #[trigger] digits@[k] == centred16(
                        packed@[k].coeff(col as int, l as int, c as int) as int,
                    ),
            decreases packed@.len() - digits@.len(),
        {
            let k: usize = digits.len();
            assert(packed@[k as int].wf());
            digits.push(limb_to_digit(packed[k].get(col, l, c)));
        }
        out.push(digits);
    }
    proof {
        assert forall|c: int, l: int, k: int|
            0 <= c < coeffs && 0 <= l < tau && 0 <= k < packed@.len() implies out@[c * tau + l]@[k]
            == centred16(#[trigger] packed@[k].coeff(col as int, l, c) as int) by {
            lemma_flat_index(c, l, coeffs as int, tau as int);
            lemma_quotient(c * tau + l, tau as int, c, l);
            assert(out@[c * tau + l]@[k] == centred16(
                packed@[k].coeff(
                    col as int,
                    (c * tau + l) % tau as int,
                    (c * tau + l) / tau as int,
                ) as int,
            ));
        }
    }
    out
}

proof fn lemma_row_parts(row: int, coeffs: int, tau: int)
    requires
        0 <= row < coeffs * tau,
        tau >= 1,
    ensures
        0 <= row / tau < coeffs,
        0 <= row % tau < tau,
{
    lemma_fundamental_div_mod(row, tau);
    lemma_mod_pos_bound(row, tau);
    lemma_div_pos_is_pos(row, tau);
    let c = row / tau;
    assert(c < coeffs) by (nonlinear_arith)
        requires
            row == tau * c + row % tau,
            row < coeffs * tau,
            row % tau >= 0,
            tau >= 1,
    ;
}

/// Digit at row `idx` and batch `k`, or zero outside the database.
pub open spec fn digit_or_zero(digits: Seq<Vec<i16>>, t: int, idx: int, k: int) -> i16 {
    if idx < digits.len() && k < t {
        digits[idx]@[k]
    } else {
        0
    }
}

/// Matrix of one packing batch and one query block: row `j` holds the digits of row
/// `batch * gamma + j` for batches `block * n ..`, and zeros outside the database.
pub fn digit_matrix(
    digits: &[Vec<i16>],
    batch: usize,
    gamma: usize,
    block: usize,
    n: usize,
    t: usize,
) -> (r: CoeffMatrix)
    requires
        gamma * n <= usize::MAX,
        batch * gamma + gamma <= usize::MAX,
        block * n + n <= usize::MAX,
        forall|i: int| 0 <= i < digits@.len() ==> (#[trigger] digits@[i])@.len() == t,
    ensures
        r.wf(),
        r.rows_out == gamma,
        r.rows_in == n,
        forall|j: int, b: int|
            r.contains(j, b) ==> #[trigger] r.entry(j, b) == digit_or_zero(
                digits@,
                t as int,
                batch * gamma + j,
                block * n + b,
            ),
{
    let start: usize = block * n;
    let first: usize = batch * gamma;
    let mut m = CoeffMatrix::zeros(gamma, n);
    let mut j: usize = 0;
    while j < gamma
        invariant
            j <= gamma,
            first == batch * gamma,
            first + gamma <= usize::MAX,
            start == block * n,
            start + n <= usize::MAX,
            m.wf(),
            m.rows_out == gamma,
            m.rows_in == n,
            forall|i: int| 0 <= i < digits@.len() ==> (#[trigger] digits@[i])@.len() == t,
            forall|a: int, b: int|
                m.contains(a, b) ==> #[trigger] m.entry(a, b) == (if a < j {
                    digit_or_zero(digits@, t as int, first + a, start + b)
                } else {
                    0
                }),
        decreases gamma - j,
    {
        let idx: usize = first + j;
        let mut b: usize = 0;
        while b < n
            invariant
                j < gamma,
                b <= n,
                idx == first + j,
                first + gamma <= usize::MAX,
                start + n <= usize::MAX,
                m.wf(),
                m.rows_out == gamma,
                m.rows_in == n,
                forall|i: int| 0 <= i < digits@.len() ==> (#[trigger] digits@[i])@.len() == t,
                forall|a: int, c: int|
                    m.contains(a, c) ==> #[trigger] m.entry(a, c) == (if a < j || a == j && c < b {
                        digit_or_zero(digits@, t as int, first + a, start + c)
                    } else {
                        0
                    }),
            decreases n - b,
        {
            if idx < digits.len() && start + b < t {
                assert(digits@[idx as int]@.len() == t);
                let d: i16 = digits[idx][start + b];
                m.set(j, b, d);
            }
            b = b + 1;
        }
        j = j + 1;
    }
    m
}

/// Packing batches that hold `total` digit rows.
pub fn digit_batches(total: usize, gamma: usize) -> (r: usize)
    requires
        gamma >= 1,
    ensures
        r == spec_div_ceil(total as int, gamma as int),
        r * gamma >= total,
{
    proof {
        lemma_div_ceil(total as int, gamma as int);
    }
    div_ceil(total, gamma)
}

/// Ciphertext with the given mask digits in column one and the given body digits in the
/// first coefficients of column zero.
pub fn recompose(mask: &[i64], body: &[i64], n: usize, gamma0: usize, tau: usize) -> (r: LimbVec)
    requires
        gamma0 <= n,
        mask@.len() == n * tau,
        body@.len() == gamma0 * tau,
        n * 2 * tau <= usize::MAX,
        n * 2 <= usize::MAX,
    ensures
        r.wf(),
        r.n == n,
        r.cols == 2,
        r.size == tau,
        forall|l: int, c: int|
            0 <= l < tau && 0 <= c < n ==> #[trigger] r.coeff(1, l, c) == mask@[c * tau + l],
        forall|l: int, c: int|
            0 <= l < tau && 0 <= c < n ==> #[trigger] r.coeff(0, l, c) == (if c < gamma0 {
                body@[c * tau + l] as int
            } else {
                0
            }),
{
    let mut out = LimbVec::zeros(n, 2, tau);
    store_digits(&mut out, 1, mask, n);
    store_digits(&mut out, 0, body, gamma0);
    out
}

/// Writes digits `c * tau + l` to limb `l` of coefficient `c` of one column.
fn store_digits(dst: &mut LimbVec, col: usize, digits: &[i64], coeffs: usize)
    requires
        old(dst).wf(),
        col < old(dst).cols,
        coeffs <= old(dst).n,
        digits@.len() == coeffs * old(dst).size,
    ensures
        final(dst).wf(),
        final(dst).same_shape(old(dst)),
        forall|a: int, l: int, c: int|
            old(dst).contains(a, l, c) ==> #[trigger] final(dst).coeff(a, l, c) == (if a == col && c
                < coeffs {
                digits@[c * old(dst).size + l]
            } else {
                old(dst).coeff(a, l, c)
            }),
{
    let ghost before = *dst;
    let tau: usize = dst.size;
    let total: usize = digits.len();
    let mut i: usize = 0;
    while i < total
        invariant
            i <= total,
            total == digits@.len(),
            total == coeffs * tau,
            tau == before.size,
            coeffs <= before.n,
            col < before.cols,
            dst.wf(),
            dst.same_shape(&before),
            forall|a: int, l: int, c: int|
                before.contains(a, l, c) ==> #[trigger] dst.coeff(a, l, c) == (if a == col && c
                    < coeffs && c * tau + l < i {
                    digits@[c * tau + l]
                } else {
                    before.coeff(a, l, c)
                }),
        decreases total - i,
    {
        proof {
            assert(tau >= 1) by (nonlinear_arith)
                requires
                    0 <= i < coeffs * tau,
                    tau >= 0,
            ;
            lemma_row_parts(i as int, coeffs as int, tau as int);
            lemma_fundamental_div_mod(i as int, tau as int);
        }
        let ghost earlier = *dst;
        dst.set(col, i % tau, i / tau, digits[i]);
        proof {
            let ic = i as int / tau as int;
            let il = i as int % tau as int;
            assert(tau * ic == ic * tau) by (nonlinear_arith);
            assert forall|a: int, l: int, c: int| before.contains(a, l, c) implies #[trigger] dst.coeff(
                a,
                l,
                c,
            ) == (if a == col && c < coeffs && c * tau + l < i + 1 {
                digits@[c * tau + l]
            } else {
                before.coeff(a, l, c)
            }) by {
                if a == col && c * tau + l == i {
                    lemma_flat_index_injective(c, l, ic, il, tau as int);
                }
                if a == col && c == ic && l == il {
                    assert(c * tau + l == i);
                }
            }
        }
        i = i + 1;
    }
    proof {
        assert forall|a: int, l: int, c: int| before.contains(a, l, c) implies #[trigger] dst.coeff(
            a,
            l,
            c,
        ) == (if a == col && c < coeffs {
            digits@[c * tau + l]
        } else {
            before.coeff(a, l, c)
        }) by {
            if a == col && c < coeffs {
                lemma_flat_index(c, l, coeffs as int, tau as int);
            }
        }
    }
}

/// Selecting one batch's digits and recomposing them gives back that batch's packed
/// answer: the whole mask, and the coefficients of the record in the body.
pub proof fn law_selected_digits_recompose(
    packed: LimbVec,
    mask_digits: Seq<Vec<i16>>,
    body_digits: Seq<Vec<i16>>,
    mask: Seq<i64>,
    body: Seq<i64>,
    recomposed: LimbVec,
    k: int,
    n: int,
    gamma0: int,
    tau: int,
)
    requires
        packed.n == n,
        packed.cols == 2,
        packed.size == tau,
        0 <= gamma0 <= n,
        mask_digits.len() == n * tau,
        body_digits.len() == gamma0 * tau,
        mask.len() == n * tau,
        body.len() == gamma0 * tau,
        // The packed answer's limbs are digits.
        forall|col: int, l: int, c: int|
            packed.contains(col, l, c) ==> -32768 <= #[trigger] packed.coeff(col, l, c) < 32768,
        // The digit databases hold the packed answer as batch `k`.
        forall|c: int, l: int|
            0 <= c < n && 0 <= l < tau ==> mask_digits[c * tau + l]@[k] == centred16(
                #[trigger] packed.coeff(1, l, c) as int,
            ),
        forall|c: int, l: int|
            0 <= c < gamma0 && 0 <= l < tau ==> body_digits[c * tau + l]@[k] == centred16(
                #[trigger] packed.coeff(0, l, c) as int,
            ),
        // The second level selected batch `k`.
        forall|i: int| 0 <= i < mask.len() ==> #[trigger] mask[i] == mask_digits[i]@[k],
        forall|i: int| 0 <= i < body.len() ==> #[trigger] body[i] == body_digits[i]@[k],
        forall|l: int, c: int|
            0 <= l < tau && 0 <= c < n ==> #[trigger] recomposed.coeff(1, l, c) == mask[c * tau + l],
        forall|l: int, c: int|
            0 <= l < tau && 0 <= c < gamma0 ==> #[trigger] recomposed.coeff(0, l, c) == body[c * tau
                + l],
    ensures
        forall|l: int, c: int|
            0 <= l < tau && 0 <= c < n ==> #[trigger] recomposed.coeff(1, l, c) == packed.coeff(
                1,
                l,
                c,
            ),
        forall|l: int, c: int|
            0 <= l < tau && 0 <= c < gamma0 ==> #[trigger] recomposed.coeff(0, l, c)
                == packed.coeff(0, l, c),
{
    assert forall|l: int, c: int| 0 <= l < tau && 0 <= c < n implies #[trigger] recomposed.coeff(
        1,
        l,
        c,
    ) == packed.coeff(1, l, c) by {
        lemma_flat_index(c, l, n, tau);
        assert(packed.contains(1, l, c));
        lemma_centred16(packed.coeff(1, l, c) as int);
        assert(mask[c * tau + l] == mask_digits[c * tau + l]@[k]);
    }
    assert forall|l: int, c: int|
        0 <= l < tau && 0 <= c < gamma0 implies #[trigger] recomposed.coeff(0, l, c)
        == packed.coeff(0, l, c) by {
        lemma_flat_index(c, l, gamma0, tau);
        assert(packed.contains(0, l, c));
        lemma_centred16(packed.coeff(0, l, c) as int);
        assert(body[c * tau + l] == body_digits[c * tau + l]@[k]);
    }
}

// ---------------------------------------------------------------------------
// What the schedules keep
// ---------------------------------------------------------------------------

/// A schedule of the second level stays within work, workers and pool. A request for
/// batches at a time is honoured where it can be, and without one there are as many as
/// possible; workers within a batch likewise.
pub proof fn law_schedule_honours_requests(
    nbatches: usize,
    max_threads: usize,
    pool_len: usize,
    pooled: bool,
    outer_request: Option<usize>,
    inner_request: Option<usize>,
    r: (usize, usize),
    x: int,
)
    requires
        nbatches >= 1,
        max_threads >= 1,
        pooled ==> pool_len >= 1,
        call_ensures(
            resp2_schedule,
            (nbatches, max_threads, pool_len, pooled, outer_request, inner_request),
            r,
        ),
        x >= 1,
    ensures
        1 <= r.0 <= nbatches,
        1 <= r.1,
        pooled ==> r.0 <= pool_len,
        r.0 * r.1 <= max_threads,
        // Batches at a time.
        outer_request == Some(x as usize) && x <= nbatches && x <= max_threads && (pooled ==> x
            <= pool_len) ==> r.0 == x,
        outer_request is None && x <= nbatches && x <= max_threads && (pooled ==> x <= pool_len)
            ==> x <= r.0,
        // Workers within a batch.
        inner_request == Some(x as usize) && x <= usize::MAX && r.0 * x <= max_threads ==> r.1 == x,
        inner_request is None && r.0 * x <= max_threads ==> x <= r.1,
{
    let q = max_threads as int / r.0 as int;
    lemma_fundamental_div_mod(max_threads as int, r.0 as int);
    lemma_mod_pos_bound(max_threads as int, r.0 as int);
    if r.0 * x <= max_threads {
        assert(x <= q) by (nonlinear_arith)
            requires
                r.0 * x <= max_threads,
                max_threads == r.0 * q + max_threads as int % r.0 as int,
                max_threads as int % (r.0 as int) < r.0,
                r.0 >= 1,
        ;
    }
}

/// A pass answers as many queries as keep their bodies within two GiB, and no fewer; one
/// query is always answered.
pub proof fn law_passes_fill_the_budget(
    queries: usize,
    t: usize,
    n: usize,
    size: usize,
    r: usize,
    x: int,
)
    requires
        queries >= 1,
        t >= 1,
        n >= 1,
        size >= 1,
        t * (n * size * 8) <= usize::MAX,
        n * size * 8 <= usize::MAX,
        n * size <= usize::MAX,
        call_ensures(body_chunk, (queries, t, n, size), r),
        1 <= x <= queries,
    ensures
        1 <= r <= queries,
        r > 1 ==> r * (t * (n * size * 8)) <= 2147483648,
        x * (t * (n * size * 8)) <= 2147483648 ==> x <= r,
{
    let bytes = t * (n * size * 8);
    assert(n * size >= 0 && bytes >= 1) by (nonlinear_arith)
        requires
            n >= 1,
            size >= 1,
            t >= 1,
            bytes == t * (n * size * 8),
    ;
    assert(spec_saturating(n as int, size as int) == n * size);
    assert(spec_saturating(n * size, 8) == n * size * 8);
    assert(spec_saturating(t as int, n * size * 8) == bytes);
    let per = spec_max(bytes, 1);
    let q = 2147483648int / per;
    lemma_fundamental_div_mod(2147483648, per);
    lemma_mod_pos_bound(2147483648, per);
    if r > 1 {
        assert(r * bytes <= 2147483648) by (nonlinear_arith)
            requires
                r <= q,
                2147483648 >= per * q,
                0 <= bytes <= per,
                r >= 0,
        ;
    }
    if x * bytes <= 2147483648 {
        assert(x <= q) by (nonlinear_arith)
            requires
                x * bytes <= 2147483648,
                2147483648 == bytes * q + 2147483648int % bytes,
                2147483648int % bytes < bytes,
                bytes >= 1,
        ;
    }
}

/// Seeds of a mask: just enough blocks for all rows, block `b` with the seed's first 28
/// bytes and its number, and no two with the same.
pub proof fn law_mask_seeds_number_their_blocks(
    seed: [u8; 32],
    rows: usize,
    n: usize,
    r: Vec<[u8; 32]>,
    a: int,
    b: int,
)
    requires
        n >= 1,
        rows >= 1,
        call_ensures(crs_mask_seeds, (seed, rows, n), r),
        r@.len() <= u32::MAX,
        0 <= a < r@.len(),
        0 <= b < r@.len(),
    ensures
        just_enough(r@.len() as int, n as int, rows as int),
        forall|i: int| 0 <= i < 28 ==> #[trigger] r@[b]@[i] == seed@[i],
        r@[b]@[28] + 256 * r@[b]@[29] + 65536 * r@[b]@[30] + 16777216 * r@[b]@[31] == b,
        a != b ==> r@[a]@ != r@[b]@,
{
    lemma_just_enough(r@.len() as int, n as int, rows as int);
    let s = r@[b]@;
    assert(s == spec_block_seed(seed@, b));
    lemma_u32_fits(b as u32);
    let tail = le_bytes(b, 4);
    assert(tail.len() == 4);
    assert forall|i: int| 0 <= i < 28 implies #[trigger] s[i] == seed@[i] by {
        assert(seed@.subrange(0, 28)[i] == seed@[i]);
    }
    lemma_four_bytes(tail);
    assert(s[28] == tail[0] && s[29] == tail[1] && s[30] == tail[2] && s[31] == tail[3]);
    if r@[a]@ == r@[b]@ {
        law_block_seeds_distinct(seed@, a as u32, b as u32);
    }
}

proof fn lemma_four_bytes(s: Seq<u8>)
    requires
        s.len() == 4,
    ensures
        le_value(s) == s[0] + 256 * s[1] + 65536 * s[2] + 16777216 * s[3],
{
    reveal_with_fuel(le_value, 5);
    let t = s.drop_first();
    let u = t.drop_first();
    let v = u.drop_first();
    assert(t[0] == s[1] && u[0] == s[2] && v[0] == s[3]);
    assert(v.drop_first().len() == 0);
}

/// The digits of packed answers are their limbs, modulo `2^16`: every limb of every
/// coefficient of every answer has a digit.
pub proof fn law_digits_are_limbs(
    packed: &[LimbVec],
    col: usize,
    coeffs: usize,
    tau: usize,
    r: Vec<Vec<i16>>,
    c: int,
    l: int,
    k: int,
)
    requires
        call_ensures(digit_database, (packed, col, coeffs, tau), r),
        0 <= c < coeffs,
        0 <= l < tau,
        0 <= k < packed@.len(),
    ensures
        r@.len() == coeffs * tau,
        0 <= c * tau + l < r@.len(),
        r@[c * tau + l]@.len() == packed@.len(),
        (packed@[k].coeff(col as int, l, c) - r@[c * tau + l]@[k]) % 65536 == 0,
{
    lemma_flat_index(c, l, coeffs as int, tau as int);
    assert(holds_limbs(r@, packed@, col as int, coeffs as int, tau as int));
    let x = packed@[k].coeff(col as int, l, c) as int;
    assert(r@[c * tau + l]@[k] == centred16(x));
    lemma_centred16(x);
}

/// A matrix of digits holds `gamma` rows of the digits from row `batch * gamma` on, at the
/// batches of one block, and zeros where there are none.
pub proof fn law_digit_matrix_holds_digits(
    digits: &[Vec<i16>],
    batch: usize,
    gamma: usize,
    block: usize,
    n: usize,
    t: usize,
    r: CoeffMatrix,
    j: int,
    b: int,
)
    requires
        call_ensures(digit_matrix, (digits, batch, gamma, block, n, t), r),
        0 <= j < gamma,
        0 <= b < n,
    ensures
        r.rows_out == gamma && r.rows_in == n,
        batch * gamma + j < digits@.len() && block * n + b < t ==> r.entry(j, b) == digits@[batch
            * gamma + j]@[block * n + b],
        !(batch * gamma + j < digits@.len() && block * n + b < t) ==> r.entry(j, b) == 0,
{
    assert(r.contains(j, b));
}

/// A recomposed answer holds the mask digits in all coefficients of its mask, and the body
/// digits in the first of its body.
pub proof fn law_recomposed_answer_holds_digits(
    mask: &[i64],
    body: &[i64],
    n: usize,
    gamma0: usize,
    tau: usize,
    r: LimbVec,
    l: int,
    c: int,
)
    requires
        call_ensures(recompose, (mask, body, n, gamma0, tau), r),
        0 <= l < tau,
        0 <= c < n,
    ensures
        r.n == n && r.cols == 2 && r.size == tau,
        r.coeff(1, l, c) == mask@[c * tau + l],
        c < gamma0 ==> r.coeff(0, l, c) == body@[c * tau + l],
        c >= gamma0 ==> r.coeff(0, l, c) == 0,
{
}

} // verus!
