//! What a packed ciphertext decrypts to.

use vstd::prelude::*;
use crate::packing::bsgs_pack::{
    body_terms, body_value, law_collapse_steps_follow_views, law_pack_matches_collapse,
    lemma_sum_shift, lemma_sum_split, spec_baby_automorphism, step_view,
};
use crate::packing::collapse::{
    collapse_term, is_collapse_half, key_switches, lemma_poly_sum_congruent,
    lemma_prefix_keeps_phase, lemma_share_range, phase, ring_degree, run_steps, share_element,
    viewed_sum, CollapseState, CollapseStep,
};
use crate::packing::convolution::{
    convolution, law_convolution_is_ring_product, law_reversed_row_gives_inner_product,
};
use crate::packing::partial::{law_partial_aggregate_decrypts, partial_rows, partial_stride};
use crate::packing::precompute_infos::PackingPrecomputeInfos;
use crate::packing::trace::{
    aggregate_component, law_aggregate_decrypts, lemma_poly_sum_at, lemma_viewed_rows_negacyclic,
    reversed, ring_product, unit_coefficient, viewed_rows,
};
use crate::ring::{
    automorphism, law_automorphism_identity, lemma_automorphism_negacyclic, lemma_binary_even,
    lemma_binary_modulus, lemma_zero_negacyclic, negacyclic, poly_add, poly_sum, poly_zero,
    spec_galois_element, Poly,
};
use crate::sums::{
    int_sum, lemma_int_sum_add, lemma_int_sum_congruent, lemma_int_sum_single,
};

verus! {

/// The components of a collapse, before anything is folded: component `j` sums `count` rows
/// through the share of column `j`.
pub open spec fn components(
    n: int,
    stride: int,
    use_tau_h: bool,
    cols: int,
    count: int,
    rows: spec_fn(int) -> Poly,
) -> CollapseState {
    CollapseState {
        work: Seq::new(
            cols as nat,
            |j: int| viewed_rows(n, share_element(n, stride, use_tau_h, j), count, rows),
        ),
        body: poly_zero(),
    }
}

/// The components of one half of a full packing.
pub open spec fn half_start(n: int, use_tau_h: bool, rows: spec_fn(int) -> Poly) -> CollapseState {
    components(n, 1, use_tau_h, n / 2, n, rows)
}

/// A state that a collapse can start from.
pub open spec fn is_start(n: int, start: CollapseState) -> bool {
    &&& start.work.len() >= 1
    &&& forall|col: int|
        0 <= col < start.work.len() ==> negacyclic(n, #[trigger] start.work[col])
    &&& start.body == poly_zero()
}

pub proof fn lemma_components_start(
    n: int,
    stride: int,
    use_tau_h: bool,
    cols: int,
    count: int,
    rows: spec_fn(int) -> Poly,
)
    requires
        ring_degree(n),
        stride >= 0,
        cols >= 1,
        forall|k: int| negacyclic(n, #[trigger] rows(k)),
    ensures
        is_start(n, components(n, stride, use_tau_h, cols, count, rows)),
{
    let start = components(n, stride, use_tau_h, cols, count, rows);
    assert forall|col: int| 0 <= col < cols implies negacyclic(n, #[trigger] start.work[col]) by {
        lemma_share_range(n, stride, use_tau_h, col);
        lemma_viewed_rows_negacyclic(n, share_element(n, stride, use_tau_h, col), count, rows);
    }
}

/// A collapse adds to the body the product of every term, viewed back.
pub proof fn lemma_collapse_body(
    n: int,
    state: CollapseState,
    steps: Seq<CollapseStep>,
    mask_product: spec_fn(Poly) -> Poly,
    body_product: spec_fn(Poly) -> Poly,
    count: int,
)
    requires
        0 <= count <= steps.len(),
    ensures
        run_steps(n, state, steps.subrange(0, count), mask_product, body_product).body == poly_add(
            state.body,
            viewed_sum(n, state, steps, mask_product, body_product, body_product, count),
        ),
    decreases count,
{
    let f = |i: int|
        automorphism(
            n,
            steps[i].addend_automorphism as int,
            body_product(collapse_term(n, state, steps, mask_product, body_product, i)),
        );
    let part = steps.subrange(0, count);
    let end = run_steps(n, state, part, mask_product, body_product);
    if count > 0 {
        lemma_collapse_body(n, state, steps, mask_product, body_product, count - 1);
        assert(part.drop_last() =~= steps.subrange(0, count - 1));
        assert(part.last() == steps[count - 1]);
        let before = run_steps(n, state, part.drop_last(), mask_product, body_product);
        assert(end.body == poly_add(before.body, f(count - 1)));
        assert(end.body =~= poly_add(state.body, poly_sum(0, count, f)));
    } else {
        assert(end.body =~= poly_add(state.body, poly_sum(0, 0, f)));
    }
}

/// A full packing of the rows of a ring of degree `n`.
pub open spec fn packs_fully(n: int, infos: PackingPrecomputeInfos) -> bool {
    &&& infos.wf()
    &&& !infos.partial
    &&& infos.steps == n - 1
    &&& infos.stride == 1
}

/// The terms of both halves, by step.
pub open spec fn pack_masks(
    n: int,
    one: CollapseState,
    two: CollapseState,
    first: Seq<CollapseStep>,
    second: Seq<CollapseStep>,
    mask_product: spec_fn(Poly) -> Poly,
    body_product: spec_fn(Poly) -> Poly,
) -> spec_fn(int) -> Poly {
    |step: int|
        if 0 <= step < first.len() {
            collapse_term(n, one, first, mask_product, body_product, step)
        } else if first.len() <= step < first.len() + second.len() {
            collapse_term(
                n,
                two,
                second,
                mask_product,
                body_product,
                step - first.len(),
            )
        } else {
            poly_zero()
        }
}

/// The shares of a collapse, decrypted: every component times its share, summed.
pub open spec fn shares(
    n: int,
    stride: int,
    use_tau_h: bool,
    start: CollapseState,
    times: spec_fn(Poly, Poly) -> Poly,
    s: Poly,
) -> Poly {
    poly_sum(
        0,
        start.work.len() as int,
        |j: int|
            times(start.work[j], automorphism(n, share_element(n, stride, use_tau_h, j), s)),
    )
}

/// The noise of the key switches of one half, viewed back.
pub open spec fn half_noise(
    n: int,
    start: CollapseState,
    steps: Seq<CollapseStep>,
    mask_product: spec_fn(Poly) -> Poly,
    body_product: spec_fn(Poly) -> Poly,
    err: spec_fn(Poly) -> Poly,
) -> Poly {
    viewed_sum(n, start, steps, mask_product, body_product, err, steps.len() as int)
}

/// What a collapse leaves decrypts to the shares and to the noise of the key switches.
pub proof fn lemma_collapsed_decrypts(
    n: int,
    stride: int,
    use_tau_h: bool,
    first_step: int,
    start: CollapseState,
    steps: Seq<CollapseStep>,
    times: spec_fn(Poly, Poly) -> Poly,
    mask_product: spec_fn(Poly) -> Poly,
    body_product: spec_fn(Poly) -> Poly,
    s: Poly,
    err: spec_fn(Poly) -> Poly,
)
    requires
        ring_degree(n),
        stride >= 0,
        ring_product(n, times),
        negacyclic(n, s),
        is_start(n, start),
        is_collapse_half(steps, n, start.work.len() as int, stride, use_tau_h, first_step),
        key_switches(
            n,
            times,
            mask_product,
            body_product,
            automorphism(n, spec_galois_element(stride, 2 * n), s),
            s,
            err,
        ),
    ensures
        ({
            let end = run_steps(n, start, steps, mask_product, body_product);
            &&& negacyclic(n, end.work[0])
            &&& poly_add(
                end.body,
                times(end.work[0], automorphism(n, if use_tau_h { -1 } else { 1 }, s)),
            ) == poly_add(
                shares(n, stride, use_tau_h, start, times, s),
                viewed_sum(
                    n,
                    start,
                    steps,
                    mask_product,
                    body_product,
                    err,
                    steps.len() as int,
                ),
            )
        }),
{
    let end = run_steps(n, start, steps, mask_product, body_product);
    let cols = start.work.len() as int;
    lemma_prefix_keeps_phase(
        n,
        cols,
        stride,
        use_tau_h,
        first_step,
        steps,
        steps.len() as int,
        start,
        times,
        mask_product,
        body_product,
        s,
        err,
    );
    assert(steps.subrange(0, steps.len() as int) =~= steps);
    assert(negacyclic(n, end.work[0]));
    let left = |col: int|
        times(end.work[col], automorphism(n, share_element(n, stride, use_tau_h, col), s));
    let noise = viewed_sum(
        n,
        start,
        steps,
        mask_product,
        body_product,
        err,
        steps.len() as int,
    );
    let before = phase(n, stride, use_tau_h, start, cols, times, s);
    let after = phase(n, stride, use_tau_h, end, 1, times, s);
    assert(after == poly_add(before, noise));
    assert(stride * 0 == 0);
    assert(share_element(n, stride, use_tau_h, 0) == (if use_tau_h { -1int } else { 1 }));
    assert(poly_sum(0, 0, left) == poly_zero());
    assert(poly_sum(0, 1, left) == poly_add(poly_zero(), left(0)));
    let target = poly_add(end.body, left(0));
    let want = poly_add(shares(n, stride, use_tau_h, start, times, s), noise);
    assert forall|i: int| #[trigger] target(i) == want(i) by {
        assert(after(i) == (end.body)(i) + left(0)(i));
        assert(before(i) == shares(n, stride, use_tau_h, start, times, s)(i));
        assert(after(i) == before(i) + noise(i));
    }
    assert(target =~= want);
}

/// A map of polynomials of the ring, such as the products with the bodies of a key.
pub open spec fn maps_ring(n: int, f: spec_fn(Poly) -> Poly) -> bool {
    forall|x: Poly| negacyclic(n, x) ==> negacyclic(n, #[trigger] f(x))
}

/// Products that the online pass asks for: those of the mask columns with the key bodies,
/// seen through the baby step.
pub open spec fn baby_products(
    n: int,
    stride: int,
    masks: spec_fn(int) -> Poly,
    body_product: spec_fn(Poly) -> Poly,
) -> spec_fn(int, int) -> Poly {
    |step: int, baby: int|
        automorphism(n, spec_baby_automorphism(n, stride, baby), body_product(masks(step)))
}

pub proof fn lemma_term_negacyclic(
    n: int,
    stride: int,
    use_tau_h: bool,
    first_step: int,
    start: CollapseState,
    steps: Seq<CollapseStep>,
    times: spec_fn(Poly, Poly) -> Poly,
    mask_product: spec_fn(Poly) -> Poly,
    body_product: spec_fn(Poly) -> Poly,
    s: Poly,
    err: spec_fn(Poly) -> Poly,
    i: int,
)
    requires
        ring_degree(n),
        stride >= 0,
        ring_product(n, times),
        negacyclic(n, s),
        is_start(n, start),
        is_collapse_half(steps, n, start.work.len() as int, stride, use_tau_h, first_step),
        key_switches(
            n,
            times,
            mask_product,
            body_product,
            automorphism(n, spec_galois_element(stride, 2 * n), s),
            s,
            err,
        ),
        0 <= i < steps.len(),
    ensures
        negacyclic(n, collapse_term(n, start, steps, mask_product, body_product, i)),
{
    let cols = start.work.len() as int;
    lemma_prefix_keeps_phase(
        n,
        cols,
        stride,
        use_tau_h,
        first_step,
        steps,
        i,
        start,
        times,
        mask_product,
        body_product,
        s,
        err,
    );
    let mid = run_steps(n, start, steps.subrange(0, i), mask_product, body_product);
    let st = steps[i];
    lemma_share_range(n, stride, use_tau_h, cols - 2 - i);
    assert(negacyclic(n, mid.work[st.source_col as int]));
    lemma_automorphism_negacyclic(
        n,
        st.term_automorphism as int,
        mid.work[st.source_col as int],
    );
}

/// The groups of the online pass add to the body what the two collapses add.
proof fn lemma_groups_add_collapses(
    n: int,
    infos: PackingPrecomputeInfos,
    start_one: CollapseState,
    start_two: CollapseState,
    first: Seq<CollapseStep>,
    second: Seq<CollapseStep>,
    times: spec_fn(Poly, Poly) -> Poly,
    mask_product: spec_fn(Poly) -> Poly,
    g: spec_fn(Poly) -> Poly,
    s: Poly,
    err: spec_fn(Poly) -> Poly,
)
    requires
        ring_degree(n),
        packs_fully(n, infos),
        ring_product(n, times),
        negacyclic(n, s),
        maps_ring(n, g),
        is_start(n, start_one),
        is_start(n, start_two),
        start_one.work.len() == n / 2,
        start_two.work.len() == n / 2,
        is_collapse_half(first, n, n / 2, 1, false, 0),
        is_collapse_half(second, n, n / 2, 1, true, n / 2 - 1),
        key_switches(
            n,
            times,
            mask_product,
            g,
            automorphism(n, spec_galois_element(1, 2 * n), s),
            s,
            err,
        ),
    ensures
        ({
            let masks = pack_masks(n, start_one, start_two, first, second, mask_product, g);
            let one = run_steps(n, start_one, first, mask_product, g);
            let two = run_steps(n, start_two, second, mask_product, g);
            body_value(
                n,
                infos,
                body_terms(infos, infos.group_count()),
                baby_products(n, 1, masks, g),
            ) == poly_add(one.body, two.body)
        }),
{
    let masks = pack_masks(n, start_one, start_two, first, second, mask_product, g);
    let one = run_steps(n, start_one, first, mask_product, g);
    let two = run_steps(n, start_two, second, mask_product, g);
    let h = n / 2 - 1;
    lemma_even(n);
    assert(infos.kg_steps() == 2 * h);
    assert(infos.half_steps() == h);
    assert forall|step: int| negacyclic(n, #[trigger] masks(step)) by {
        if 0 <= step < h {
            lemma_term_negacyclic(
                n,
                1,
                false,
                0,
                start_one,
                first,
                times,
                mask_product,
                g,
                s,
                err,
                step,
            );
        } else if h <= step < 2 * h {
            lemma_term_negacyclic(
                n,
                1,
                true,
                h,
                start_two,
                second,
                times,
                mask_product,
                g,
                s,
                err,
                step - h,
            );
        } else {
            lemma_zero_negacyclic(n);
        }
    }
    let each = |step: int| g(masks(step));
    law_pack_matches_collapse(n, infos, each);
    let products = baby_products(n, 1, masks, g);
    let target = |step: int| automorphism(n, step_view(n, infos, step), g(masks(step)));
    assert(products =~= |step: int, baby: int|
        automorphism(n, spec_baby_automorphism(n, infos.stride as int, baby), each(step)));
    assert(target =~= |step: int| automorphism(n, step_view(n, infos, step), each(step)));
    lemma_sum_split(0, h, 2 * h, target);
    lemma_sum_shift(h, h, target);
    let shifted = |i: int| target(h + i);
    let f = |i: int|
        automorphism(
            n,
            first[i].addend_automorphism as int,
            g(collapse_term(n, start_one, first, mask_product, g, i)),
        );
    let f2 = |i: int|
        automorphism(
            n,
            second[i].addend_automorphism as int,
            g(collapse_term(n, start_two, second, mask_product, g, i)),
        );
    assert forall|i: int| 0 <= i < h implies #[trigger] target(i) == f(i) by {
        law_collapse_steps_follow_views(n, infos, first, false, i);
    }
    assert forall|i: int| 0 <= i < h implies #[trigger] shifted(i) == f2(i) by {
        law_collapse_steps_follow_views(n, infos, second, true, i);
    }
    lemma_poly_sum_congruent(0, h, target, f);
    lemma_poly_sum_congruent(0, h, shifted, f2);
    lemma_collapse_body(n, start_one, first, mask_product, g, h);
    lemma_collapse_body(n, start_two, second, mask_product, g, h);
    assert(first.subrange(0, h) =~= first);
    assert(second.subrange(0, h) =~= second);
    assert(one.body =~= poly_sum(0, h, f));
    assert(two.body =~= poly_sum(0, h, f2));
}

pub proof fn lemma_even(n: int)
    requires
        ring_degree(n),
    ensures
        n == 2 * (n / 2),
{
    lemma_binary_modulus(n);
    lemma_binary_even(n);
}

/// The noise of a full packing: that of both halves and of the last switch.
pub open spec fn pack_noise(
    n: int,
    one: CollapseState,
    two: CollapseState,
    first: Seq<CollapseStep>,
    second: Seq<CollapseStep>,
    mask_product: spec_fn(Poly) -> Poly,
    body_product: spec_fn(Poly) -> Poly,
    err_g: spec_fn(Poly) -> Poly,
    err_h: spec_fn(Poly) -> Poly,
) -> Poly {
    poly_add(
        poly_add(
            half_noise(n, one, first, mask_product, body_product, err_g),
            half_noise(n, two, second, mask_product, body_product, err_g),
        ),
        err_h(run_steps(n, two, second, mask_product, body_product).work[0]),
    )
}

/// A packing decrypts to the shares of the components that it starts from, up to the noise
/// of its key switches.
///
/// Both halves are collapsed with the key of the products `mask_product_g` and `body_g`, what
/// is left of the second half is switched with that of `mask_product_h` and `body_h`, and
/// the online pass adds its groups and the final product to the bodies. Then the packed body
/// and mask decrypt, under the secret `s` alone, to the bodies and what all components carry,
/// each times its share of the secret. The noise of every switch comes on top, viewed back.
pub proof fn law_components_decrypt(
    n: int,
    infos: PackingPrecomputeInfos,
    start_one: CollapseState,
    start_two: CollapseState,
    base: Poly,
    first: Seq<CollapseStep>,
    second: Seq<CollapseStep>,
    times: spec_fn(Poly, Poly) -> Poly,
    mask_product_g: spec_fn(Poly) -> Poly,
    body_g: spec_fn(Poly) -> Poly,
    mask_product_h: spec_fn(Poly) -> Poly,
    body_h: spec_fn(Poly) -> Poly,
    s: Poly,
    err_g: spec_fn(Poly) -> Poly,
    err_h: spec_fn(Poly) -> Poly,
    i: int,
)
    requires
        ring_degree(n),
        packs_fully(n, infos),
        ring_product(n, times),
        negacyclic(n, s),
        maps_ring(n, body_g),
        is_start(n, start_one),
        is_start(n, start_two),
        start_one.work.len() == n / 2,
        start_two.work.len() == n / 2,
        is_collapse_half(first, n, n / 2, 1, false, 0),
        is_collapse_half(second, n, n / 2, 1, true, n / 2 - 1),
        key_switches(
            n,
            times,
            mask_product_g,
            body_g,
            automorphism(n, spec_galois_element(1, 2 * n), s),
            s,
            err_g,
        ),
        key_switches(
            n,
            times,
            mask_product_h,
            body_h,
            automorphism(n, -1, s),
            s,
            err_h,
        ),
    ensures
        ({
            let masks = pack_masks(n, start_one, start_two, first, second, mask_product_g, body_g);
            let one = run_steps(n, start_one, first, mask_product_g, body_g);
            let two = run_steps(n, start_two, second, mask_product_g, body_g);
            let mask = poly_add(one.work[0], mask_product_h(two.work[0]));
            let body = poly_add(
                poly_add(
                    base,
                    body_value(
                        n,
                        infos,
                        body_terms(infos, infos.group_count()),
                        baby_products(n, 1, masks, body_g),
                    ),
                ),
                body_h(two.work[0]),
            );
            body(i) + times(mask, s)(i) == base(i) + shares(
                n,
                1,
                false,
                start_one,
                times,
                s,
            )(i) + shares(n, 1, true, start_two, times, s)(i) + pack_noise(
                n,
                start_one,
                start_two,
                first,
                second,
                mask_product_g,
                body_g,
                err_g,
                err_h,
            )(i)
        }),
{
    let one = run_steps(n, start_one, first, mask_product_g, body_g);
    let two = run_steps(n, start_two, second, mask_product_g, body_g);
    let moved = mask_product_h(two.work[0]);
    lemma_groups_add_collapses(
        n,
        infos,
        start_one,
        start_two,
        first,
        second,
        times,
        mask_product_g,
        body_g,
        s,
        err_g,
    );
    lemma_collapsed_decrypts(
        n,
        1,
        false,
        0,
        start_one,
        first,
        times,
        mask_product_g,
        body_g,
        s,
        err_g,
    );
    lemma_collapsed_decrypts(
        n,
        1,
        true,
        n / 2 - 1,
        start_two,
        second,
        times,
        mask_product_g,
        body_g,
        s,
        err_g,
    );
    vstd::arithmetic::div_mod::lemma_small_mod(1, (2 * n) as nat);
    law_automorphism_identity(n, 1, s);
    // The two masks.
    assert(times(poly_add(one.work[0], moved), s) == poly_add(
        times(one.work[0], s),
        times(moved, s),
    ));
    // The switch of the second half.
    assert(negacyclic(n, mask_product_h(two.work[0])));
    let switched = poly_add(body_h(two.work[0]), times(moved, s));
    let share = times(two.work[0], automorphism(n, -1, s));
    assert(switched == poly_add(share, err_h(two.work[0])));
    assert(switched(i) == share(i) + err_h(two.work[0])(i));
    assert(switched(i) == body_h(two.work[0])(i) + times(moved, s)(i));
    // Both halves at `i`.
    let whole_one = poly_add(one.body, times(one.work[0], s));
    let whole_two = poly_add(two.body, times(two.work[0], automorphism(n, -1, s)));
    let noise_one = half_noise(n, start_one, first, mask_product_g, body_g, err_g);
    let noise_two = half_noise(n, start_two, second, mask_product_g, body_g, err_g);
    assert(whole_one(i) == shares(n, 1, false, start_one, times, s)(i) + noise_one(i));
    assert(whole_two(i) == shares(n, 1, true, start_two, times, s)(i) + noise_two(i));
}

/// A full packing decrypts to its rows, up to the noise of its key switches.
///
/// The components are the aggregate of the mask rows. Then the packed body and mask
/// decrypt, under the secret `s` alone, to the bodies and `n` times the inner products of
/// the rows with the secret. The noise of every switch comes on top, viewed back.
pub proof fn law_packing_decrypts(
    n: int,
    infos: PackingPrecomputeInfos,
    rows: spec_fn(int) -> Poly,
    base: Poly,
    first: Seq<CollapseStep>,
    second: Seq<CollapseStep>,
    times: spec_fn(Poly, Poly) -> Poly,
    mask_product_g: spec_fn(Poly) -> Poly,
    body_g: spec_fn(Poly) -> Poly,
    mask_product_h: spec_fn(Poly) -> Poly,
    body_h: spec_fn(Poly) -> Poly,
    s: Poly,
    err_g: spec_fn(Poly) -> Poly,
    err_h: spec_fn(Poly) -> Poly,
    i: int,
)
    requires
        ring_degree(n),
        packs_fully(n, infos),
        ring_product(n, times),
        negacyclic(n, s),
        maps_ring(n, body_g),
        forall|k: int| negacyclic(n, #[trigger] rows(k)),
        is_collapse_half(first, n, n / 2, 1, false, 0),
        is_collapse_half(second, n, n / 2, 1, true, n / 2 - 1),
        key_switches(
            n,
            times,
            mask_product_g,
            body_g,
            automorphism(n, spec_galois_element(1, 2 * n), s),
            s,
            err_g,
        ),
        key_switches(
            n,
            times,
            mask_product_h,
            body_h,
            automorphism(n, -1, s),
            s,
            err_h,
        ),
    ensures
        ({
            let start_one = half_start(n, false, rows);
            let start_two = half_start(n, true, rows);
            let masks = pack_masks(n, start_one, start_two, first, second, mask_product_g, body_g);
            let one = run_steps(n, start_one, first, mask_product_g, body_g);
            let two = run_steps(n, start_two, second, mask_product_g, body_g);
            let mask = poly_add(one.work[0], mask_product_h(two.work[0]));
            let body = poly_add(
                poly_add(
                    base,
                    body_value(
                        n,
                        infos,
                        body_terms(infos, infos.group_count()),
                        baby_products(n, 1, masks, body_g),
                    ),
                ),
                body_h(two.work[0]),
            );
            body(i) + times(mask, s)(i) == base(i) + int_sum(
                0,
                n,
                |k: int| n * times(reversed(n, rows(k)), s)(0) * unit_coefficient(n, i - k),
            ) + pack_noise(
                n,
                start_one,
                start_two,
                first,
                second,
                mask_product_g,
                body_g,
                err_g,
                err_h,
            )(i)
        }),
{
    let start_one = half_start(n, false, rows);
    let start_two = half_start(n, true, rows);
    lemma_even(n);
    lemma_components_start(n, 1, false, n / 2, n, rows);
    lemma_components_start(n, 1, true, n / 2, n, rows);
    law_components_decrypt(
        n,
        infos,
        start_one,
        start_two,
        base,
        first,
        second,
        times,
        mask_product_g,
        body_g,
        mask_product_h,
        body_h,
        s,
        err_g,
        err_h,
        i,
    );
    let f = |j: int|
        times(start_one.work[j], automorphism(n, share_element(n, 1, false, j), s));
    let f2 = |j: int|
        times(start_two.work[j], automorphism(n, share_element(n, 1, true, j), s));
    lemma_poly_sum_at(0, n / 2, f, i);
    lemma_poly_sum_at(0, n / 2, f2, i);
    let at_one = |j: int| f(j)(i);
    let at_two = |j: int| f2(j)(i);
    lemma_int_sum_add(0, n / 2, at_one, at_two);
    let both = |j: int| at_one(j) + at_two(j);
    let decrypted = |j: int|
        times(
            aggregate_component(n, false, j, rows),
            automorphism(n, share_element(n, 1, false, j), s),
        )(i) + times(
            aggregate_component(n, true, j, rows),
            automorphism(n, share_element(n, 1, true, j), s),
        )(i);
    lemma_int_sum_congruent(0, n / 2, both, decrypted);
    law_aggregate_decrypts(n, rows, times, s, i);
}

/// The components of the aggregated rows carry, each times its share, `n` times the inner
/// product of row `i` with the secret in coefficient `i`.
pub proof fn lemma_shares_of_rows(n: int, rows: spec_fn(int) -> Poly, s: Poly, i: int)
    requires
        ring_degree(n),
        negacyclic(n, s),
        forall|k: int| negacyclic(n, #[trigger] rows(k)),
        0 <= i < n,
    ensures
        shares(n, 1, false, half_start(n, false, rows), convolution(n), s)(i) + shares(
            n,
            1,
            true,
            half_start(n, true, rows),
            convolution(n),
            s,
        )(i) == n * int_sum(0, n, |j: int| rows(i)(j) * s(j)),
{
    let times = convolution(n);
    law_convolution_is_ring_product(n);
    let start_one = half_start(n, false, rows);
    let start_two = half_start(n, true, rows);
    lemma_even(n);
    let f = |j: int|
        times(start_one.work[j], automorphism(n, share_element(n, 1, false, j), s));
    let f2 = |j: int|
        times(start_two.work[j], automorphism(n, share_element(n, 1, true, j), s));
    lemma_poly_sum_at(0, n / 2, f, i);
    lemma_poly_sum_at(0, n / 2, f2, i);
    let at_one = |j: int| f(j)(i);
    let at_two = |j: int| f2(j)(i);
    lemma_int_sum_add(0, n / 2, at_one, at_two);
    let both = |j: int| at_one(j) + at_two(j);
    let decrypted = |j: int|
        times(
            aggregate_component(n, false, j, rows),
            automorphism(n, share_element(n, 1, false, j), s),
        )(i) + times(
            aggregate_component(n, true, j, rows),
            automorphism(n, share_element(n, 1, true, j), s),
        )(i);
    lemma_int_sum_congruent(0, n / 2, both, decrypted);
    law_aggregate_decrypts(n, rows, times, s, i);
    let g = |k: int| n * times(reversed(n, rows(k)), s)(0) * unit_coefficient(n, i - k);
    assert forall|k: int| 0 <= k < n && k != i implies #[trigger] g(k) == 0 by {
        if k < i {
            vstd::arithmetic::div_mod::lemma_small_mod((i - k) as nat, (2 * n) as nat);
        } else {
            crate::arith::lemma_quotient(i - k, 2 * n, -1, 2 * n + i - k);
        }
        assert(unit_coefficient(n, i - k) == 0);
        assert(n * times(reversed(n, rows(k)), s)(0) * 0 == 0);
    }
    lemma_int_sum_single(0, n, i, g);
    assert(negacyclic(n, rows(i)));
    law_reversed_row_gives_inner_product(n, rows(i), s);
    vstd::arithmetic::div_mod::lemma_small_mod(0, (2 * n) as nat);
    assert(unit_coefficient(n, i - i) == 1);
}

/// A full packing decrypts coefficient by coefficient: coefficient `i` of the packed
/// ciphertext carries body `i`, `n` times the inner product of row `i` with the secret, and
/// the noise of the key switches.
pub proof fn law_packed_row_decrypts(
    n: int,
    infos: PackingPrecomputeInfos,
    rows: spec_fn(int) -> Poly,
    base: Poly,
    first: Seq<CollapseStep>,
    second: Seq<CollapseStep>,
    mask_product_g: spec_fn(Poly) -> Poly,
    body_g: spec_fn(Poly) -> Poly,
    mask_product_h: spec_fn(Poly) -> Poly,
    body_h: spec_fn(Poly) -> Poly,
    s: Poly,
    err_g: spec_fn(Poly) -> Poly,
    err_h: spec_fn(Poly) -> Poly,
    i: int,
)
    requires
        ring_degree(n),
        packs_fully(n, infos),
        negacyclic(n, s),
        maps_ring(n, body_g),
        forall|k: int| negacyclic(n, #[trigger] rows(k)),
        is_collapse_half(first, n, n / 2, 1, false, 0),
        is_collapse_half(second, n, n / 2, 1, true, n / 2 - 1),
        key_switches(
            n,
            convolution(n),
            mask_product_g,
            body_g,
            automorphism(n, spec_galois_element(1, 2 * n), s),
            s,
            err_g,
        ),
        key_switches(
            n,
            convolution(n),
            mask_product_h,
            body_h,
            automorphism(n, -1, s),
            s,
            err_h,
        ),
        0 <= i < n,
    ensures
        ({
            let times = convolution(n);
            let start_one = half_start(n, false, rows);
            let start_two = half_start(n, true, rows);
            let masks = pack_masks(n, start_one, start_two, first, second, mask_product_g, body_g);
            let one = run_steps(n, start_one, first, mask_product_g, body_g);
            let two = run_steps(n, start_two, second, mask_product_g, body_g);
            let mask = poly_add(one.work[0], mask_product_h(two.work[0]));
            let body = poly_add(
                poly_add(
                    base,
                    body_value(
                        n,
                        infos,
                        body_terms(infos, infos.group_count()),
                        baby_products(n, 1, masks, body_g),
                    ),
                ),
                body_h(two.work[0]),
            );
            body(i) + times(mask, s)(i) == base(i) + n * int_sum(
                0,
                n,
                |j: int| rows(i)(j) * s(j),
            ) + pack_noise(
                n,
                start_one,
                start_two,
                first,
                second,
                mask_product_g,
                body_g,
                err_g,
                err_h,
            )(i)
        }),
{
    lemma_even(n);
    lemma_components_start(n, 1, false, n / 2, n, rows);
    lemma_components_start(n, 1, true, n / 2, n, rows);
    law_convolution_is_ring_product(n);
    lemma_shares_of_rows(n, rows, s, i);
    law_components_decrypt(
        n,
        infos,
        half_start(n, false, rows),
        half_start(n, true, rows),
        base,
        first,
        second,
        convolution(n),
        mask_product_g,
        body_g,
        mask_product_h,
        body_h,
        s,
        err_g,
        err_h,
        i,
    );
}

// ---------------------------------------------------------------------------
// Partial packing
// ---------------------------------------------------------------------------

/// A partial packing of `gamma` rows.
pub open spec fn packs_partially(n: int, gamma: int, infos: PackingPrecomputeInfos) -> bool {
    &&& partial_rows(n, gamma)
    &&& infos.wf()
    &&& infos.partial
    &&& infos.steps == gamma - 1
    &&& infos.stride == partial_stride(n, gamma)
}

/// The components of a partial packing.
pub open spec fn partial_start(n: int, gamma: int, rows: spec_fn(int) -> Poly) -> CollapseState {
    components(n, partial_stride(n, gamma), false, gamma, gamma, rows)
}

/// The terms of a collapse, by step.
pub open spec fn partial_masks(
    n: int,
    start: CollapseState,
    steps: Seq<CollapseStep>,
    mask_product: spec_fn(Poly) -> Poly,
    body_product: spec_fn(Poly) -> Poly,
) -> spec_fn(int) -> Poly {
    |step: int|
        if 0 <= step < steps.len() {
            collapse_term(n, start, steps, mask_product, body_product, step)
        } else {
            poly_zero()
        }
}

/// The groups of the online pass add to the body what the collapse adds.
proof fn lemma_groups_add_collapse(
    n: int,
    infos: PackingPrecomputeInfos,
    start: CollapseState,
    steps: Seq<CollapseStep>,
    times: spec_fn(Poly, Poly) -> Poly,
    mask_product: spec_fn(Poly) -> Poly,
    body_product: spec_fn(Poly) -> Poly,
    s: Poly,
    err: spec_fn(Poly) -> Poly,
)
    requires
        ring_degree(n),
        infos.wf(),
        infos.partial,
        infos.steps + 1 == start.work.len(),
        ring_product(n, times),
        negacyclic(n, s),
        maps_ring(n, body_product),
        is_start(n, start),
        is_collapse_half(steps, n, start.work.len() as int, infos.stride as int, false, 0),
        key_switches(
            n,
            times,
            mask_product,
            body_product,
            automorphism(n, spec_galois_element(infos.stride as int, 2 * n), s),
            s,
            err,
        ),
    ensures
        body_value(
            n,
            infos,
            body_terms(infos, infos.group_count()),
            baby_products(
                n,
                infos.stride as int,
                partial_masks(n, start, steps, mask_product, body_product),
                body_product,
            ),
        ) == run_steps(n, start, steps, mask_product, body_product).body,
{
    let stride = infos.stride as int;
    let g = body_product;
    let masks = partial_masks(n, start, steps, mask_product, g);
    let end = run_steps(n, start, steps, mask_product, g);
    let count = steps.len() as int;
    assert(infos.kg_steps() == count);
    assert(infos.half_steps() == count);
    assert forall|step: int| negacyclic(n, #[trigger] masks(step)) by {
        if 0 <= step < count {
            lemma_term_negacyclic(
                n,
                stride,
                false,
                0,
                start,
                steps,
                times,
                mask_product,
                g,
                s,
                err,
                step,
            );
        } else {
            lemma_zero_negacyclic(n);
        }
    }
    let each = |step: int| g(masks(step));
    law_pack_matches_collapse(n, infos, each);
    let products = baby_products(n, stride, masks, g);
    let target = |step: int| automorphism(n, step_view(n, infos, step), g(masks(step)));
    assert(products =~= |step: int, baby: int|
        automorphism(n, spec_baby_automorphism(n, infos.stride as int, baby), each(step)));
    assert(target =~= |step: int| automorphism(n, step_view(n, infos, step), each(step)));
    let f = |i: int|
        automorphism(
            n,
            steps[i].addend_automorphism as int,
            g(collapse_term(n, start, steps, mask_product, g, i)),
        );
    assert forall|i: int| 0 <= i < count implies #[trigger] target(i) == f(i) by {
        law_collapse_steps_follow_views(n, infos, steps, false, i);
    }
    lemma_poly_sum_congruent(0, count, target, f);
    lemma_collapse_body(n, start, steps, mask_product, g, count);
    assert(steps.subrange(0, count) =~= steps);
    assert(end.body =~= poly_sum(0, count, f));
}

/// A partial packing decrypts to the shares of the components that it starts from, up to
/// the noise of its key switches.
pub proof fn law_partial_components_decrypt(
    n: int,
    gamma: int,
    infos: PackingPrecomputeInfos,
    start: CollapseState,
    base: Poly,
    steps: Seq<CollapseStep>,
    mask_product: spec_fn(Poly) -> Poly,
    body_product: spec_fn(Poly) -> Poly,
    s: Poly,
    err: spec_fn(Poly) -> Poly,
    i: int,
)
    requires
        packs_partially(n, gamma, infos),
        negacyclic(n, s),
        maps_ring(n, body_product),
        is_start(n, start),
        start.work.len() == gamma,
        is_collapse_half(steps, n, gamma, infos.stride as int, false, 0),
        key_switches(
            n,
            convolution(n),
            mask_product,
            body_product,
            automorphism(n, spec_galois_element(infos.stride as int, 2 * n), s),
            s,
            err,
        ),
    ensures
        ({
            let times = convolution(n);
            let masks = partial_masks(n, start, steps, mask_product, body_product);
            let mask = run_steps(n, start, steps, mask_product, body_product).work[0];
            let body = poly_add(
                base,
                body_value(
                    n,
                    infos,
                    body_terms(infos, infos.group_count()),
                    baby_products(n, infos.stride as int, masks, body_product),
                ),
            );
            body(i) + times(mask, s)(i) == base(i) + shares(
                n,
                infos.stride as int,
                false,
                start,
                times,
                s,
            )(i) + viewed_sum(
                n,
                start,
                steps,
                mask_product,
                body_product,
                err,
                steps.len() as int,
            )(i)
        }),
{
    let times = convolution(n);
    let stride = infos.stride as int;
    law_convolution_is_ring_product(n);
    lemma_groups_add_collapse(n, infos, start, steps, times, mask_product, body_product, s, err);
    lemma_collapsed_decrypts(
        n,
        stride,
        false,
        0,
        start,
        steps,
        times,
        mask_product,
        body_product,
        s,
        err,
    );
    let end = run_steps(n, start, steps, mask_product, body_product);
    vstd::arithmetic::div_mod::lemma_small_mod(1, (2 * n) as nat);
    law_automorphism_identity(n, 1, s);
    let whole = poly_add(end.body, times(end.work[0], s));
    let noise = viewed_sum(
        n,
        start,
        steps,
        mask_product,
        body_product,
        err,
        steps.len() as int,
    );
    assert(whole(i) == shares(n, stride, false, start, times, s)(i) + noise(i));
}

/// The components of a partial packing carry, each times its share, `gamma` times the inner
/// product of row `i` with the secret in coefficient `i`.
pub proof fn lemma_partial_shares_of_rows(
    n: int,
    gamma: int,
    rows: spec_fn(int) -> Poly,
    s: Poly,
    i: int,
)
    requires
        partial_rows(n, gamma),
        negacyclic(n, s),
        forall|k: int| negacyclic(n, #[trigger] rows(k)),
        0 <= i < gamma,
    ensures
        shares(
            n,
            partial_stride(n, gamma),
            false,
            partial_start(n, gamma, rows),
            convolution(n),
            s,
        )(i) == gamma * int_sum(0, n, |j: int| rows(i)(j) * s(j)),
{
    let times = convolution(n);
    let stride = partial_stride(n, gamma);
    let start = partial_start(n, gamma, rows);
    law_convolution_is_ring_product(n);
    let f = |j: int|
        times(start.work[j], automorphism(n, share_element(n, stride, false, j), s));
    lemma_poly_sum_at(0, gamma, f, i);
    let at_i = |j: int| f(j)(i);
    let decrypted = |j: int|
        times(
            viewed_rows(n, share_element(n, stride, false, j), gamma, rows),
            automorphism(n, share_element(n, stride, false, j), s),
        )(i);
    lemma_int_sum_congruent(0, gamma, at_i, decrypted);
    law_partial_aggregate_decrypts(n, gamma, rows, times, s, i);
    assert(negacyclic(n, rows(i)));
    law_reversed_row_gives_inner_product(n, rows(i), s);
}

/// A partial packing decrypts on its first `gamma` coefficients: coefficient `i` of the
/// packed ciphertext carries body `i`, `gamma` times the inner product of row `i` with the
/// secret, and the noise of the key switches.
pub proof fn law_partial_packed_row_decrypts(
    n: int,
    gamma: int,
    infos: PackingPrecomputeInfos,
    rows: spec_fn(int) -> Poly,
    base: Poly,
    steps: Seq<CollapseStep>,
    mask_product: spec_fn(Poly) -> Poly,
    body_product: spec_fn(Poly) -> Poly,
    s: Poly,
    err: spec_fn(Poly) -> Poly,
    i: int,
)
    requires
        packs_partially(n, gamma, infos),
        negacyclic(n, s),
        maps_ring(n, body_product),
        forall|k: int| negacyclic(n, #[trigger] rows(k)),
        is_collapse_half(steps, n, gamma, infos.stride as int, false, 0),
        key_switches(
            n,
            convolution(n),
            mask_product,
            body_product,
            automorphism(n, spec_galois_element(infos.stride as int, 2 * n), s),
            s,
            err,
        ),
        0 <= i < gamma,
    ensures
        ({
            let times = convolution(n);
            let start = partial_start(n, gamma, rows);
            let masks = partial_masks(n, start, steps, mask_product, body_product);
            let mask = run_steps(n, start, steps, mask_product, body_product).work[0];
            let body = poly_add(
                base,
                body_value(
                    n,
                    infos,
                    body_terms(infos, infos.group_count()),
                    baby_products(n, infos.stride as int, masks, body_product),
                ),
            );
            body(i) + times(mask, s)(i) == base(i) + gamma * int_sum(
                0,
                n,
                |j: int| rows(i)(j) * s(j),
            ) + viewed_sum(
                n,
                start,
                steps,
                mask_product,
                body_product,
                err,
                steps.len() as int,
            )(i)
        }),
{
    let start = partial_start(n, gamma, rows);
    lemma_components_start(n, infos.stride as int, false, gamma, gamma, rows);
    lemma_partial_shares_of_rows(n, gamma, rows, s, i);
    law_partial_components_decrypt(
        n,
        gamma,
        infos,
        start,
        base,
        steps,
        mask_product,
        body_product,
        s,
        err,
        i,
    );
}

} // verus!
