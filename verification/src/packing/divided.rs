//! What a packing of divided rows decrypts to: the rows themselves, and little noise.

use vstd::prelude::*;
use vstd::arithmetic::div_mod::*;
use vstd::arithmetic::power2::*;
use crate::arith::lemma_quotient;
use crate::interpolation::lemma_extend;
use crate::packing::aggregate::{are_components, component_of, torus_poly};
use crate::packing::bsgs_pack::{body_terms, body_value};
use crate::packing::collapse::{
    is_collapse_half, key_switches, ring_degree, run_steps, share_element, viewed_sum,
    CollapseState, CollapseStep,
};
use crate::packing::convolution::{
    convolution, law_convolution_is_ring_product, term_at,
};
use crate::packing::decrypt::{
    baby_products, half_start, is_start, law_components_decrypt, law_partial_components_decrypt,
    lemma_even, lemma_partial_shares_of_rows, lemma_shares_of_rows, maps_ring, pack_masks,
    pack_noise, packs_fully, packs_partially, partial_masks, partial_start, shares,
};
use crate::packing::divide::{
    divided_polys, is_rounded, law_nearest_is_near, law_rounded_is_near, lemma_levels, levels_of,
    nearest, spare_bits,
};
use crate::packing::partial::{are_partial_components, partial_stride};
use crate::packing::precompute_infos::PackingPrecomputeInfos;
use crate::packing::switch::lemma_switched_sum;
use crate::packing::trace::{lemma_poly_sum_at, viewed_rows};
use crate::retrieval::{centred_noise, lemma_centred_noise};
use crate::ring::{
    abs, automorphism, negacyclic, poly_add, poly_zero, spec_galois_element, unit_inverse, Poly,
};
use crate::sums::{
    int_sum, lemma_int_sum_bound, lemma_int_sum_congruent, lemma_multiples_add,
};

verus! {

/// Where a collapse of `cols` components starts.
pub open spec fn start_of(n: int, components: Seq<Vec<i64>>, from: int, cols: int) -> CollapseState {
    CollapseState {
        work: Seq::new(cols as nat, |j: int| torus_poly(n, components[from + j]@)),
        body: poly_zero(),
    }
}

pub proof fn lemma_starts(n: int, components: Seq<Vec<i64>>, from: int, cols: int)
    requires
        n >= 1,
        cols >= 1,
    ensures
        is_start(n, start_of(n, components, from, cols)),
{
    let start = start_of(n, components, from, cols);
    assert forall|j: int| 0 <= j < cols implies negacyclic(n, #[trigger] start.work[j]) by {
        lemma_extend(n, |i: int| components[from + j]@[i] as int);
    }
}

/// A rounded component times a share of the secret, in units of the component before.
proof fn lemma_rounded_share(
    n: int,
    bits: int,
    spare: int,
    v: Seq<i64>,
    f: Poly,
    share: Poly,
    most: int,
    i: int,
) -> (d: int)
    requires
        n >= 1,
        bits >= 1,
        spare >= 0,
        is_rounded(v, n, bits, spare, f),
        forall|x: int| abs(#[trigger] share(x)) <= most,
    ensures
        2 * abs(d) <= pow2(spare as nat) * (n * most),
        (pow2(spare as nat) * convolution(n)(torus_poly(n, v), share)(i) - (convolution(n)(
            f,
            share,
        )(i) + d)) % pow2((bits + spare) as nat) as int == 0,
{
    let unit = pow2(spare as nat) as int;
    let big = pow2((bits + spare) as nat) as int;
    lemma_pow2_pos(spare as nat);
    lemma_pow2_pos((bits + spare) as nat);
    lemma_extend(n, |j: int| v[j] as int);
    let x = |j: int| torus_poly(n, v)(j);
    let e = |j: int| centred_noise(unit * x(j), f(j), unit / 2, big);
    let m = |j: int| (unit * x(j) - (f(j) + e(j))) / big;
    let key = |j: int| share(i - j);
    assert forall|j: int| 0 <= j < n implies {
        &&& unit * #[trigger] x(j) == 1 * (f(j) + e(j)) + big * m(j)
        &&& 2 * abs(e(j)) <= unit
    } by {
        let gap = law_rounded_is_near(v, n, bits, spare, f, j);
        assert(x(j) == v[j]);
        lemma_centred_noise(unit * x(j), f(j), gap, unit / 2, big);
        lemma_fundamental_div_mod(unit * x(j) - (f(j) + e(j)), big);
    }
    lemma_switched_sum(n, unit, 1, big, x, f, e, m, key);
    let fx = |j: int| x(j) * key(j);
    let ff = |j: int| f(j) * key(j);
    let fe = |j: int| e(j) * key(j);
    let fm = |j: int| m(j) * key(j);
    let fk = |j: int| abs(key(j));
    lemma_int_sum_congruent(0, n, fx, term_at(torus_poly(n, v), share, i));
    lemma_int_sum_congruent(0, n, ff, term_at(f, share, i));
    assert forall|j: int| 0 <= j < n implies -most <= #[trigger] fk(j) <= most by {
        assert(abs(share(i - j)) <= most);
    }
    lemma_int_sum_bound(0, n, most, fk);
    let d = int_sum(0, n, fe);
    let (sk, limit) = (int_sum(0, n, fk), n * most);
    assert(unit * sk <= unit * limit) by (nonlinear_arith)
        requires
            sk <= limit,
            unit >= 1,
    ;
    let total = unit * int_sum(0, n, fx);
    lemma_quotient(total - (int_sum(0, n, ff) + d), big, int_sum(0, n, fm), 0);
    d
}

/// Sums of shares that are near, one by one.
proof fn lemma_near_sum(
    cols: int,
    unit: int,
    big: int,
    x: spec_fn(int) -> int,
    f: spec_fn(int) -> int,
    d: spec_fn(int) -> int,
    limit: int,
)
    requires
        cols >= 0,
        big >= 1,
        forall|j: int|
            0 <= j < cols ==> {
                &&& (unit * #[trigger] x(j) - (f(j) + d(j))) % big == 0
                &&& 2 * abs(d(j)) <= limit
            },
    ensures
        (unit * int_sum(0, cols, x) - (int_sum(0, cols, f) + int_sum(0, cols, d))) % big == 0,
        2 * abs(int_sum(0, cols, d)) <= cols * limit,
    decreases cols,
{
    if cols == 0 {
        assert(unit * 0 == 0) by (nonlinear_arith);
        assert(0 * limit == 0) by (nonlinear_arith);
        lemma_small_mod(0, big as nat);
    } else {
        let j = cols - 1;
        lemma_near_sum(j, unit, big, x, f, d, limit);
        let (sx, sf, sd) = (int_sum(0, j, x), int_sum(0, j, f), int_sum(0, j, d));
        assert(unit * (sx + x(j)) == unit * sx + unit * x(j)) by (nonlinear_arith);
        lemma_multiples_add(unit * sx - (sf + sd), unit * x(j) - (f(j) + d(j)), big);
        assert((j + 1) * limit == j * limit + limit) by (nonlinear_arith);
    }
}

/// Shares of rounded components, all together.
proof fn lemma_rounded_shares(
    n: int,
    bits: int,
    spare: int,
    stride: int,
    use_tau_h: bool,
    components: Seq<Vec<i64>>,
    from: int,
    exact: CollapseState,
    s: Poly,
    most: int,
    i: int,
) -> (d: int)
    requires
        n >= 1,
        bits >= 1,
        spare >= 0,
        forall|j: int|
            0 <= j < exact.work.len() ==> is_rounded(
                components[from + j]@,
                n,
                bits,
                spare,
                #[trigger] exact.work[j],
            ),
        forall|x: int| abs(#[trigger] s(x)) <= most,
    ensures
        2 * abs(d) <= exact.work.len() * (pow2(spare as nat) * (n * most)),
        (pow2(spare as nat) * shares(
            n,
            stride,
            use_tau_h,
            start_of(n, components, from, exact.work.len() as int),
            convolution(n),
            s,
        )(i) - (shares(n, stride, use_tau_h, exact, convolution(n), s)(i) + d)) % pow2(
            (bits + spare) as nat,
        ) as int == 0,
{
    let cols = exact.work.len() as int;
    let start = start_of(n, components, from, cols);
    let unit = pow2(spare as nat) as int;
    let big = pow2((bits + spare) as nat) as int;
    let limit = unit * (n * most);
    let times = convolution(n);
    lemma_pow2_pos((bits + spare) as nat);
    let view = |j: int| automorphism(n, share_element(n, stride, use_tau_h, j), s);
    let px = |j: int|
        times(start.work[j], automorphism(n, share_element(n, stride, use_tau_h, j), s));
    let pf = |j: int|
        times(exact.work[j], automorphism(n, share_element(n, stride, use_tau_h, j), s));
    let x = |j: int| px(j)(i);
    let f = |j: int| pf(j)(i);
    let d = |j: int| centred_noise(unit * x(j), f(j), limit / 2, big);
    assert forall|j: int| 0 <= j < cols implies {
        &&& (unit * #[trigger] x(j) - (f(j) + d(j))) % big == 0
        &&& 2 * abs(d(j)) <= limit
    } by {
        let p = share_element(n, stride, use_tau_h, j);
        let share = automorphism(n, p, s);
        assert forall|y: int| abs(#[trigger] share(y)) <= most by {
            assert(abs(s(y * unit_inverse(p, 2 * n))) <= most);
        }
        let v = components[from + j]@;
        assert(is_rounded(v, n, bits, spare, exact.work[j]));
        let gap = lemma_rounded_share(n, bits, spare, v, exact.work[j], share, most, i);
        lemma_centred_noise(unit * x(j), f(j), gap, limit / 2, big);
    }
    lemma_near_sum(cols, unit, big, x, f, d, limit);
    lemma_poly_sum_at(0, cols, px, i);
    lemma_poly_sum_at(0, cols, pf, i);
    int_sum(0, cols, d)
}

/// The inner product of a divided row with the secret, times the divisor.
proof fn lemma_divided_dot(
    n: int,
    rows: Seq<Vec<i64>>,
    divisor: int,
    s: Poly,
    most: int,
    i: int,
) -> (g: int)
    requires
        n >= 1,
        divisor >= 1,
        forall|x: int| abs(#[trigger] s(x)) <= most,
    ensures
        2 * abs(g) <= divisor * (n * most),
        divisor * int_sum(0, n, |j: int| divided_polys(n, rows, divisor)(i)(j) * s(j)) == int_sum(
            0,
            n,
            |j: int| rows[i]@[j] * s(j),
        ) + g,
{
    let x = |j: int| divided_polys(n, rows, divisor)(i)(j);
    let v = |j: int| rows[i]@[j] as int;
    let e = |j: int| divisor * x(j) - v(j);
    let m = |j: int| 0int;
    lemma_extend(n, |y: int| nearest(rows[i]@[y] as int, divisor));
    assert forall|j: int| 0 <= j < n implies {
        &&& divisor * #[trigger] x(j) == 1 * (v(j) + e(j)) + 0 * m(j)
        &&& 2 * abs(e(j)) <= divisor
    } by {
        law_nearest_is_near(rows[i]@[j] as int, divisor);
        assert(x(j) == nearest(rows[i]@[j] as int, divisor));
    }
    lemma_switched_sum(n, divisor, 1, 0, x, v, e, m, s);
    let fx = |j: int| x(j) * s(j);
    let fv = |j: int| v(j) * s(j);
    let fe = |j: int| e(j) * s(j);
    let fk = |j: int| abs(s(j));
    lemma_int_sum_congruent(0, n, fx, |j: int| divided_polys(n, rows, divisor)(i)(j) * s(j));
    lemma_int_sum_congruent(0, n, fv, |j: int| rows[i]@[j] * s(j));
    assert forall|j: int| 0 <= j < n implies -most <= #[trigger] fk(j) <= most by {
        assert(abs(s(j)) <= most);
    }
    lemma_int_sum_bound(0, n, most, fk);
    let (sk, limit) = (int_sum(0, n, fk), n * most);
    assert(divisor * sk <= divisor * limit) by (nonlinear_arith)
        requires
            sk <= limit,
            divisor >= 1,
    ;
    int_sum(0, n, fe)
}

/// What division and rounding add to a packed coefficient.
proof fn lemma_division_noise(
    unit: int,
    divisor: int,
    count: int,
    q: int,
    total: int,
    dot: int,
    divided: int,
    g: int,
    d: int,
    weight: int,
) -> (e: int)
    requires
        unit >= 1,
        divisor >= 1,
        q >= 1,
        count == divisor * unit,
        (unit * total - (count * divided + d)) % (unit * q) == 0,
        divisor * divided == dot + g,
        2 * abs(g) <= divisor * weight,
        2 * abs(d) <= count * (unit * weight),
    ensures
        2 * abs(e) <= (divisor + count) * weight,
        (total - (dot + e)) % q == 0,
{
    let big = unit * q;
    assert(big >= 1) by (nonlinear_arith)
        requires
            big == unit * q,
            unit >= 1,
            q >= 1,
    ;
    lemma_fundamental_div_mod(unit * total - (count * divided + d), big);
    let w = (unit * total - (count * divided + d)) / big;
    let e = total - dot - q * w;
    assert(count * divided == unit * (dot + g)) by (nonlinear_arith)
        requires
            count == divisor * unit,
            divisor * divided == dot + g,
    ;
    assert(unit * e == unit * total - unit * dot - big * w) by (nonlinear_arith)
        requires
            e == total - dot - q * w,
            big == unit * q,
    ;
    assert(unit * (dot + g) == unit * dot + unit * g) by (nonlinear_arith);
    assert(unit * e == unit * g + d);
    assert(2 * abs(unit * g) <= unit * (divisor * weight)) by (nonlinear_arith)
        requires
            2 * abs(g) <= divisor * weight,
            unit >= 1,
    ;
    assert(count * (unit * weight) == unit * (count * weight)) by (nonlinear_arith);
    let limit = (divisor + count) * weight;
    assert(unit * limit == unit * (divisor * weight) + unit * (count * weight))
        by (nonlinear_arith)
        requires
            limit == (divisor + count) * weight,
    ;
    assert(2 * abs(unit * e) <= unit * limit);
    assert(2 * abs(e) <= limit) by (nonlinear_arith)
        requires
            2 * abs(unit * e) <= unit * limit,
            unit >= 1,
    ;
    lemma_quotient(total - (dot + e), q, w, 0);
    e
}

/// What `count` rows of `bits` bits are divided by before they are aggregated; the rest of
/// their number is divided out where the components are rounded back.
pub open spec fn divisor_of(count: int, bits: int) -> int {
    let levels = levels_of(count) as int;
    pow2((levels - spare_bits(levels, bits)) as nat) as int
}

proof fn lemma_divisor(count: int, bits: int)
    requires
        1 <= count <= i64::MAX,
        is_pow2(count),
        1 <= bits <= 62,
    ensures
        ({
            let spare = spare_bits(levels_of(count) as int, bits);
            &&& spare >= 0
            &&& divisor_of(count, bits) >= 1
            &&& pow2(spare as nat) >= 1
            &&& count == divisor_of(count, bits) * pow2(spare as nat)
            &&& pow2((bits + spare) as nat) == pow2(spare as nat) * pow2(bits as nat)
        }),
{
    is_pow2_equiv(count);
    let k = choose|k: nat| vstd::arithmetic::power::pow(2, k) == count;
    lemma_pow2(k);
    lemma_levels(count, k);
    let levels = levels_of(count) as int;
    let spare = spare_bits(levels, bits);
    lemma_pow2_pos((levels - spare) as nat);
    lemma_pow2_pos(spare as nat);
    lemma_pow2_adds((levels - spare) as nat, spare as nat);
    lemma_pow2_adds(spare as nat, bits as nat);
}

/// Rows are divided by no more than their number.
pub proof fn law_divisor_is_small(count: int, bits: int)
    requires
        1 <= count <= i64::MAX,
        is_pow2(count),
        1 <= bits <= 62,
    ensures
        1 <= divisor_of(count, bits) <= count,
{
    lemma_divisor(count, bits);
    let d = divisor_of(count, bits);
    let unit = pow2(spare_bits(levels_of(count) as int, bits) as nat) as int;
    assert(d <= count) by (nonlinear_arith)
        requires
            count == d * unit,
            d >= 1,
            unit >= 1,
    ;
}

/// A full packing decrypts to its rows: coefficient `i` of the packed ciphertext carries
/// body `i`, the inner product of mask row `i` with the secret, the noise of the key
/// switches, and what rounding the divided rows and their components adds, all modulo
/// `2^bits`. The components are what the mask rows are preprocessed to.
pub proof fn law_divided_packing_decrypts(
    n: int,
    bits: int,
    infos: PackingPrecomputeInfos,
    rows: Seq<Vec<i64>>,
    components: Seq<Vec<i64>>,
    base: Poly,
    first: Seq<CollapseStep>,
    second: Seq<CollapseStep>,
    mask_product_g: spec_fn(Poly) -> Poly,
    body_g: spec_fn(Poly) -> Poly,
    mask_product_h: spec_fn(Poly) -> Poly,
    body_h: spec_fn(Poly) -> Poly,
    s: Poly,
    most: int,
    err_g: spec_fn(Poly) -> Poly,
    err_h: spec_fn(Poly) -> Poly,
    i: int,
) -> (e: int)
    requires
        ring_degree(n),
        1 <= bits <= 62,
        packs_fully(n, infos),
        are_components(n, bits, rows, components),
        negacyclic(n, s),
        maps_ring(n, body_g),
        forall|x: int| abs(#[trigger] s(x)) <= most,
        is_collapse_half(first, n, n / 2, 1, false, 0),
        is_collapse_half(second, n, n / 2, 1, true, n / 2 - 1),
        key_switches(
            n,
            convolution(n),
            mask_product_g,
            body_g,
            automorphism(n, spec_galois_element(1, 2 * n), s),
            s,
            err_g,
        ),
        key_switches(
            n,
            convolution(n),
            mask_product_h,
            body_h,
            automorphism(n, -1, s),
            s,
            err_h,
        ),
        0 <= i < n,
    ensures
        2 * abs(e) <= (divisor_of(n, bits) + n) * (n * most),
        ({
            let times = convolution(n);
            let start_one = start_of(n, components, 0, n / 2);
            let start_two = start_of(n, components, n / 2, n / 2);
            let masks = pack_masks(n, start_one, start_two, first, second, mask_product_g, body_g);
            let one = run_steps(n, start_one, first, mask_product_g, body_g);
            let two = run_steps(n, start_two, second, mask_product_g, body_g);
            let mask = poly_add(one.work[0], mask_product_h(two.work[0]));
            let body = poly_add(
                poly_add(
                    base,
                    body_value(
                        n,
                        infos,
                        body_terms(infos, infos.group_count()),
                        baby_products(n, 1, masks, body_g),
                    ),
                ),
                body_h(two.work[0]),
            );
            (body(i) + times(mask, s)(i) - (base(i) + int_sum(0, n, |j: int| rows[i]@[j] * s(j))
                + pack_noise(
                n,
                start_one,
                start_two,
                first,
                second,
                mask_product_g,
                body_g,
                err_g,
                err_h,
            )(i) + e)) % pow2(bits as nat) as int == 0
        }),
{
    let times = convolution(n);
    let divisor = divisor_of(n, bits);
    let spare = spare_bits(levels_of(n) as int, bits);
    let unit = pow2(spare as nat) as int;
    let q = pow2(bits as nat) as int;
    let polys = divided_polys(n, rows, divisor);
    let h = n / 2;
    let start_one = start_of(n, components, 0, h);
    let start_two = start_of(n, components, h, h);
    let exact_one = half_start(n, false, polys);
    let exact_two = half_start(n, true, polys);
    lemma_even(n);
    lemma_divisor(n, bits);
    lemma_pow2_pos(bits as nat);
    lemma_starts(n, components, 0, h);
    lemma_starts(n, components, h, h);
    law_convolution_is_ring_product(n);
    law_components_decrypt(
        n,
        infos,
        start_one,
        start_two,
        base,
        first,
        second,
        times,
        mask_product_g,
        body_g,
        mask_product_h,
        body_h,
        s,
        err_g,
        err_h,
        i,
    );
    assert forall|k: int| negacyclic(n, #[trigger] polys(k)) by {
        lemma_extend(n, |x: int| nearest(rows[k]@[x] as int, divisor));
    }
    assert forall|j: int| 0 <= j < h implies is_rounded(
        components[0 + j]@,
        n,
        bits,
        spare,
        #[trigger] exact_one.work[j],
    ) by {
        assert(exact_one.work[j] == component_of(n, j, polys));
    }
    assert forall|j: int| 0 <= j < h implies is_rounded(
        components[h + j]@,
        n,
        bits,
        spare,
        #[trigger] exact_two.work[j],
    ) by {
        assert(exact_two.work[j] == component_of(n, h + j, polys));
    }
    let d1 = lemma_rounded_shares(n, bits, spare, 1, false, components, 0, exact_one, s, most, i);
    let d2 = lemma_rounded_shares(n, bits, spare, 1, true, components, h, exact_two, s, most, i);
    lemma_shares_of_rows(n, polys, s, i);
    let g = lemma_divided_dot(n, rows, divisor, s, most, i);
    let x1 = shares(n, 1, false, start_one, times, s)(i);
    let x2 = shares(n, 1, true, start_two, times, s)(i);
    let f1 = shares(n, 1, false, exact_one, times, s)(i);
    let f2 = shares(n, 1, true, exact_two, times, s)(i);
    lemma_pow2_pos((bits + spare) as nat);
    lemma_multiples_add(
        unit * x1 - (f1 + d1),
        unit * x2 - (f2 + d2),
        pow2((bits + spare) as nat) as int,
    );
    assert(unit * (x1 + x2) == unit * x1 + unit * x2) by (nonlinear_arith);
    let limit = unit * (n * most);
    assert(h * limit + h * limit == n * limit) by (nonlinear_arith)
        requires
            n == 2 * h,
    ;
    lemma_division_noise(
        unit,
        divisor,
        n,
        q,
        x1 + x2,
        int_sum(0, n, |j: int| rows[i]@[j] * s(j)),
        int_sum(0, n, |j: int| polys(i)(j) * s(j)),
        g,
        d1 + d2,
        n * most,
    )
}

/// A partial packing decrypts to its rows on its first `gamma` coefficients: coefficient
/// `i` of the packed ciphertext carries body `i`, the inner product of mask row `i` with the
/// secret, the noise of the key switches, and what rounding the divided rows and their
/// components adds, all modulo `2^bits`.
pub proof fn law_partial_divided_packing_decrypts(
    n: int,
    gamma: int,
    bits: int,
    infos: PackingPrecomputeInfos,
    rows: Seq<Vec<i64>>,
    components: Seq<Vec<i64>>,
    base: Poly,
    steps: Seq<CollapseStep>,
    mask_product: spec_fn(Poly) -> Poly,
    body_product: spec_fn(Poly) -> Poly,
    s: Poly,
    most: int,
    err: spec_fn(Poly) -> Poly,
    i: int,
) -> (e: int)
    requires
        packs_partially(n, gamma, infos),
        1 <= bits <= 62,
        are_partial_components(n, gamma, bits, rows, components),
        negacyclic(n, s),
        maps_ring(n, body_product),
        forall|x: int| abs(#[trigger] s(x)) <= most,
        is_collapse_half(steps, n, gamma, infos.stride as int, false, 0),
        key_switches(
            n,
            convolution(n),
            mask_product,
            body_product,
            automorphism(n, spec_galois_element(infos.stride as int, 2 * n), s),
            s,
            err,
        ),
        0 <= i < gamma,
    ensures
        2 * abs(e) <= (divisor_of(gamma, bits) + gamma) * (n * most),
        ({
            let times = convolution(n);
            let start = start_of(n, components, 0, gamma);
            let masks = partial_masks(n, start, steps, mask_product, body_product);
            let mask = run_steps(n, start, steps, mask_product, body_product).work[0];
            let body = poly_add(
                base,
                body_value(
                    n,
                    infos,
                    body_terms(infos, infos.group_count()),
                    baby_products(n, infos.stride as int, masks, body_product),
                ),
            );
            (body(i) + times(mask, s)(i) - (base(i) + int_sum(0, n, |j: int| rows[i]@[j] * s(j))
                + viewed_sum(
                n,
                start,
                steps,
                mask_product,
                body_product,
                err,
                steps.len() as int,
            )(i) + e)) % pow2(bits as nat) as int == 0
        }),
{
    let times = convolution(n);
    let stride = infos.stride as int;
    let divisor = divisor_of(gamma, bits);
    let spare = spare_bits(levels_of(gamma) as int, bits);
    let unit = pow2(spare as nat) as int;
    let polys = divided_polys(n, rows, divisor);
    let start = start_of(n, components, 0, gamma);
    let exact = partial_start(n, gamma, polys);
    lemma_divisor(gamma, bits);
    lemma_pow2_pos(bits as nat);
    lemma_starts(n, components, 0, gamma);
    law_partial_components_decrypt(
        n,
        gamma,
        infos,
        start,
        base,
        steps,
        mask_product,
        body_product,
        s,
        err,
        i,
    );
    assert forall|k: int| negacyclic(n, #[trigger] polys(k)) by {
        lemma_extend(n, |x: int| nearest(rows[k]@[x] as int, divisor));
    }
    assert forall|j: int| 0 <= j < gamma implies is_rounded(
        components[0 + j]@,
        n,
        bits,
        spare,
        #[trigger] exact.work[j],
    ) by {
        assert(is_rounded(
            components[j]@,
            n,
            bits,
            spare,
            viewed_rows(
                n,
                share_element(n, partial_stride(n, gamma), false, j),
                gamma,
                polys,
            ),
        ));
    }
    let d = lemma_rounded_shares(n, bits, spare, stride, false, components, 0, exact, s, most, i);
    lemma_partial_shares_of_rows(n, gamma, polys, s, i);
    let g = lemma_divided_dot(n, rows, divisor, s, most, i);
    lemma_division_noise(
        unit,
        divisor,
        gamma,
        pow2(bits as nat) as int,
        shares(n, stride, false, start, times, s)(i),
        int_sum(0, n, |j: int| rows[i]@[j] * s(j)),
        int_sum(0, n, |j: int| polys(i)(j) * s(j)),
        g,
        d,
        n * most,
    )
}

} // verus!
