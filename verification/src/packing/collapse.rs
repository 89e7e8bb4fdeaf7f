//! The sequential key-switch collapse of an aggregated mask.
//!
//! Component `col` of a half is masked by the share `tau(s)`, where `tau` is the
//! automorphism `X -> X^v` with `v = 5^(stride * col)` in the first half and
//! `v = -5^(stride * col)` in the second. One step folds component `col + 1` into
//! component `col`: the source is viewed through the inverse of `v`, switched from
//! `tau_g(s)` to `s`, and the two products are viewed back through `v`.

use vstd::prelude::*;
use vstd::arithmetic::div_mod::*;
use vstd::arithmetic::mul::*;
use vstd::arithmetic::power2::is_pow2;
use crate::packing::precompute_infos::PackingPrecomputeInfos;
use crate::ring::{
    automorphism, galois_element, galois_element_inv, law_automorphism_adds, law_automorphism_composes,
    law_automorphism_congruent, law_automorphism_identity, law_galois_inverse,
    lemma_automorphism_negacyclic, lemma_double_binary, lemma_galois_adds,
    lemma_galois_inv_congruent, lemma_galois_odd, lemma_negate_congruent, negacyclic, odd, poly_add,
    poly_sum, poly_zero, spec_galois_element, spec_galois_element_inv, Poly,
};

verus! {

/// One step of the collapse of a half.
#[derive(Clone, Copy, Debug, PartialEq, Eq, Structural)]
pub struct CollapseStep {
    /// Column of the stored mask schedule that this step fills.
    pub step: usize,
    /// Component that is folded away.
    pub source_col: usize,
    /// Component that receives it.
    pub target_col: usize,
    /// Automorphism applied to the source before the key switch.
    pub term_automorphism: i64,
    /// Automorphism applied to the key-switch products.
    pub addend_automorphism: i64,
}

/// The steps of a whole collapse.
#[derive(Debug)]
pub struct CollapsePlan {
    /// Steps over the first half of the aggregate.
    pub first_half: Vec<CollapseStep>,
    /// Steps over the second half; empty for a partial pack.
    pub second_half: Vec<CollapseStep>,
    /// First aggregate column of the second half.
    pub second_half_offset: usize,
    /// Schedule column of the final `key_h` product; absent for a partial pack.
    pub key_h_step: Option<usize>,
}

/// Exponent of the share that masks component `col` of a half.
pub open spec fn share_element(n: int, stride: int, use_tau_h: bool, col: int) -> int {
    let g = spec_galois_element(stride * col, 2 * n);
    if use_tau_h { -g } else { g }
}

/// Step `i` of the collapse of a half with `cols` components.
pub open spec fn is_collapse_step(
    s: CollapseStep,
    n: int,
    cols: int,
    stride: int,
    use_tau_h: bool,
    first_step: int,
    i: int,
) -> bool {
    let target = cols - 2 - i;
    let view = share_element(n, stride, use_tau_h, target);
    &&& s.step == first_step + i
    &&& s.target_col == target
    &&& s.source_col == target + 1
    &&& s.addend_automorphism == view
    &&& s.term_automorphism == spec_galois_element_inv(view, 2 * n)
}

/// The whole schedule of one half.
pub open spec fn is_collapse_half(
    steps: Seq<CollapseStep>,
    n: int,
    cols: int,
    stride: int,
    use_tau_h: bool,
    first_step: int,
) -> bool {
    &&& steps.len() == cols - 1
    &&& forall|i: int|
        0 <= i < steps.len() ==> is_collapse_step(
            #[trigger] steps[i],
            n,
            cols,
            stride,
            use_tau_h,
            first_step,
            i,
        )
}

/// Exponents that fit both a signed word and a size.
pub open spec fn machine_exponent(x: int) -> bool {
    x <= i64::MAX && x <= usize::MAX
}

/// Ring degrees on which the schedules are defined.
pub open spec fn ring_degree(n: int) -> bool {
    n >= 2 && is_pow2(n) && machine_exponent(2 * n)
}

pub proof fn lemma_share_range(n: int, stride: int, use_tau_h: bool, col: int)
    requires
        ring_degree(n),
        stride >= 0,
        col >= 0,
    ensures
        odd(share_element(n, stride, use_tau_h, col)),
        share_element(n, stride, use_tau_h, col) != 0,
        -2 * n < share_element(n, stride, use_tau_h, col) < 2 * n,
        odd(spec_galois_element_inv(share_element(n, stride, use_tau_h, col), 2 * n)),
        spec_galois_element(stride * col, 2 * n) >= 0,
{
    lemma_double_binary(n);
    let m = 2 * n;
    assert(stride * col >= 0) by (nonlinear_arith)
        requires
            stride >= 0,
            col >= 0,
    ;
    lemma_galois_odd(stride * col, m);
    let e = stride * col;
    if e != 0 {
        let x = vstd::arithmetic::power::pow(5, e as nat);
        lemma_mod_bound(x, m);
        assert(1 * (x % m) == x % m);
    }
    let g = spec_galois_element(e, m);
    assert(odd(-g));
    lemma_galois_inv_congruent(share_element(n, stride, use_tau_h, col), m);
}

/// The share element of a component.
pub fn secret_view(n: usize, stride: usize, use_tau_h: bool, col: usize) -> (r: i64)
    requires
        ring_degree(n as int),
        machine_exponent(stride * col),
    ensures
        r == share_element(n as int, stride as int, use_tau_h, col as int),
        -2 * n < r < 2 * n,
        odd(r as int),
{
    proof {
        lemma_double_binary(n as int);
        lemma_share_range(n as int, stride as int, use_tau_h, col as int);
        assert(stride * col >= 0) by (nonlinear_arith)
            requires
                stride >= 0,
                col >= 0,
        ;
    }
    let tau: i64 = galois_element((stride * col) as i64, (2 * n) as i64);
    if use_tau_h {
        -tau
    } else {
        tau
    }
}

/// Schedule of one half of the collapse, from the last component down to the first.
pub fn collapse_half(
    n: usize,
    cols: usize,
    stride: usize,
    use_tau_h: bool,
    first_step: usize,
) -> (steps: Vec<CollapseStep>)
    requires
        ring_degree(n as int),
        cols >= 1,
        machine_exponent(stride * cols),
        first_step + cols <= usize::MAX,
    ensures
        is_collapse_half(
            steps@,
            n as int,
            cols as int,
            stride as int,
            use_tau_h,
            first_step as int,
        ),
{
    let mut steps: Vec<CollapseStep> = Vec::new();
    let mut i: usize = 0;
    while i < cols - 1
        invariant
            ring_degree(n as int),
            cols >= 1,
            machine_exponent(stride * cols),
            first_step + cols <= usize::MAX,
            i <= cols - 1,
            steps.len() == i,
            forall|j: int|
                0 <= j < i ==> is_collapse_step(
                    #[trigger] steps@[j],
                    n as int,
                    cols as int,
                    stride as int,
                    use_tau_h,
                    first_step as int,
                    j,
                ),
        decreases cols - i,
    {
        let target_col: usize = cols - 2 - i;
        assert(stride * target_col <= stride * cols) by (nonlinear_arith)
            requires
                target_col <= cols,
                stride >= 0,
        ;
        proof {
            lemma_share_range(n as int, stride as int, use_tau_h, target_col as int);
            lemma_double_binary(n as int);
        }
        let view: i64 = secret_view(n, stride, use_tau_h, target_col);
        let alpha: i64 = galois_element_inv(view, (2 * n) as i64);
        steps.push(
            CollapseStep {
                step: first_step + i,
                source_col: target_col + 1,
                target_col,
                term_automorphism: alpha,
                addend_automorphism: view,
            },
        );
        i = i + 1;
    }
    steps
}

/// The collapse schedule of a packing shape over a ring of degree `n`.
///
/// A full pack collapses two halves of `n / 2` components and ends with the
/// `key_h` product; a partial pack collapses its `steps + 1` components once.
pub fn collapse_plan(n: usize, infos: PackingPrecomputeInfos) -> (plan: CollapsePlan)
    requires
        ring_degree(n as int),
        infos.wf(),
        infos.partial ==> machine_exponent(infos.stride * (infos.steps + 1)) && infos.steps < usize::MAX,
        !infos.partial ==> infos.steps == n - 1 && infos.stride == 1,
    ensures
        infos.partial ==> {
            &&& is_collapse_half(
                plan.first_half@,
                n as int,
                infos.steps + 1,
                infos.stride as int,
                false,
                0,
            )
            &&& plan.second_half@.len() == 0
            &&& plan.second_half_offset == infos.steps + 1
            &&& plan.key_h_step is None
        },
        !infos.partial ==> {
            &&& is_collapse_half(plan.first_half@, n as int, n as int / 2, 1, false, 0)
            &&& is_collapse_half(plan.second_half@, n as int, n as int / 2, 1, true, n as int / 2 - 1)
            &&& plan.second_half_offset == n / 2
            &&& plan.key_h_step == Some((n - 2) as usize)
        },
{
    if infos.partial {
        let cols: usize = infos.steps + 1;
        CollapsePlan {
            first_half: collapse_half(n, cols, infos.stride, false, 0),
            second_half: Vec::new(),
            second_half_offset: cols,
            key_h_step: None,
        }
    } else {
        let half: usize = n / 2;
        CollapsePlan {
            first_half: collapse_half(n, half, 1, false, 0),
            second_half: collapse_half(n, half, 1, true, half - 1),
            second_half_offset: half,
            key_h_step: Some(n - 2),
        }
    }
}

// ---------------------------------------------------------------------------
// What the collapse computes
// ---------------------------------------------------------------------------

/// The components still to be folded and the body accumulated so far.
pub struct CollapseState {
    pub work: Seq<Poly>,
    pub body: Poly,
}

/// Effect of one step, for a key switch given by its mask and body products.
pub open spec fn run_step(
    n: int,
    state: CollapseState,
    s: CollapseStep,
    mask_product: spec_fn(Poly) -> Poly,
    body_product: spec_fn(Poly) -> Poly,
) -> CollapseState {
    let term = automorphism(n, s.term_automorphism as int, state.work[s.source_col as int]);
    let addend = automorphism(n, s.addend_automorphism as int, mask_product(term));
    CollapseState {
        work: state.work.update(
            s.target_col as int,
            poly_add(state.work[s.target_col as int], addend),
        ),
        body: poly_add(
            state.body,
            automorphism(n, s.addend_automorphism as int, body_product(term)),
        ),
    }
}

/// Effect of a whole schedule.
pub open spec fn run_steps(
    n: int,
    state: CollapseState,
    steps: Seq<CollapseStep>,
    mask_product: spec_fn(Poly) -> Poly,
    body_product: spec_fn(Poly) -> Poly,
) -> CollapseState
    decreases steps.len(),
{
    if steps.len() == 0 {
        state
    } else {
        run_step(
            n,
            run_steps(n, state, steps.drop_last(), mask_product, body_product),
            steps.last(),
            mask_product,
            body_product,
        )
    }
}

/// `body + sum of work[col] * share(col)` over the first `count` components: what
/// the ciphertext decrypts to under the secret `s`.
pub open spec fn phase(
    n: int,
    stride: int,
    use_tau_h: bool,
    state: CollapseState,
    count: int,
    times: spec_fn(Poly, Poly) -> Poly,
    s: Poly,
) -> Poly {
    poly_add(
        state.body,
        poly_sum(
            0,
            count,
            |col: int|
                times(
                    state.work[col],
                    automorphism(n, share_element(n, stride, use_tau_h, col), s),
                ),
        ),
    )
}

/// On polynomials, `times` is additive in its first argument, commutes with automorphisms
/// and gives a polynomial.
pub open spec fn equivariant_product(n: int, times: spec_fn(Poly, Poly) -> Poly) -> bool {
    &&& forall|a: Poly, b: Poly, c: Poly|
        negacyclic(n, a) && negacyclic(n, b) && negacyclic(n, c) ==> #[trigger] times(
            poly_add(a, b),
            c,
        ) == poly_add(times(a, c), times(b, c))
    &&& forall|p: int, a: Poly, b: Poly|
        odd(p) && negacyclic(n, a) && negacyclic(n, b) ==> #[trigger] automorphism(
            n,
            p,
            times(a, b),
        ) == times(automorphism(n, p, a), automorphism(n, p, b))
    &&& forall|a: Poly, b: Poly|
        negacyclic(n, a) && negacyclic(n, b) ==> negacyclic(n, #[trigger] times(a, b))
}

/// The two products switch a mask from the key `from` to the key `s`, up to the noise
/// `err`, and the mask product is a polynomial.
pub open spec fn key_switches(
    n: int,
    times: spec_fn(Poly, Poly) -> Poly,
    mask_product: spec_fn(Poly) -> Poly,
    body_product: spec_fn(Poly) -> Poly,
    from: Poly,
    s: Poly,
    err: spec_fn(Poly) -> Poly,
) -> bool {
    forall|x: Poly|
        negacyclic(n, x) ==> {
            &&& negacyclic(n, #[trigger] mask_product(x))
            &&& poly_add(body_product(x), times(mask_product(x), s)) == poly_add(
                times(x, from),
                err(x),
            )
        }
}

/// The term that step `i` multiplies.
pub open spec fn collapse_term(
    n: int,
    state: CollapseState,
    steps: Seq<CollapseStep>,
    mask_product: spec_fn(Poly) -> Poly,
    body_product: spec_fn(Poly) -> Poly,
    i: int,
) -> Poly {
    let before = run_steps(n, state, steps.subrange(0, i), mask_product, body_product);
    automorphism(n, steps[i].term_automorphism as int, before.work[steps[i].source_col as int])
}

/// A quantity of every term, viewed back and summed over the first `count` steps.
pub open spec fn viewed_sum(
    n: int,
    state: CollapseState,
    steps: Seq<CollapseStep>,
    mask_product: spec_fn(Poly) -> Poly,
    body_product: spec_fn(Poly) -> Poly,
    of: spec_fn(Poly) -> Poly,
    count: int,
) -> Poly {
    poly_sum(
        0,
        count,
        |i: int|
            automorphism(
                n,
                steps[i].addend_automorphism as int,
                of(collapse_term(n, state, steps, mask_product, body_product, i)),
            ),
    )
}

pub proof fn lemma_poly_sum_congruent(
    lo: int,
    hi: int,
    f: spec_fn(int) -> Poly,
    g: spec_fn(int) -> Poly,
)
    requires
        forall|i: int| lo <= i < hi ==> #[trigger] f(i) == g(i),
    ensures
        poly_sum(lo, hi, f) == poly_sum(lo, hi, g),
    decreases hi - lo,
{
    if lo < hi {
        lemma_poly_sum_congruent(lo, hi - 1, f, g);
        assert(f(hi - 1) == g(hi - 1));
    }
}

/// Moving one generator step along the share: `view(col) * 5^stride = view(col + 1)`.
proof fn lemma_share_step(n: int, stride: int, use_tau_h: bool, col: int)
    requires
        ring_degree(n),
        stride >= 0,
        col >= 0,
    ensures
        (share_element(n, stride, use_tau_h, col) * spec_galois_element(stride, 2 * n)) % (2 * n)
            == share_element(n, stride, use_tau_h, col + 1) % (2 * n),
{
    let m = 2 * n;
    lemma_double_binary(n);
    assert(stride * col >= 0) by (nonlinear_arith)
        requires
            stride >= 0,
            col >= 0,
    ;
    assert(stride * (col + 1) == stride * col + stride) by (nonlinear_arith);
    lemma_galois_adds(stride * col, stride, m);
    let a = spec_galois_element(stride * col, m);
    let b = spec_galois_element(stride, m);
    let c = spec_galois_element(stride * (col + 1), m);
    if use_tau_h {
        assert((-a) * b == -(a * b)) by (nonlinear_arith);
        lemma_negate_congruent(a * b, c, m);
    }
}

/// One step moves the phase of the last component into the one before it.
proof fn lemma_step_keeps_phase(
    n: int,
    stride: int,
    use_tau_h: bool,
    state: CollapseState,
    st: CollapseStep,
    cols: int,
    first_step: int,
    i: int,
    times: spec_fn(Poly, Poly) -> Poly,
    mask_product: spec_fn(Poly) -> Poly,
    body_product: spec_fn(Poly) -> Poly,
    s: Poly,
    err: spec_fn(Poly) -> Poly,
)
    requires
        ring_degree(n),
        stride >= 0,
        0 <= i < cols - 1,
        state.work.len() >= cols,
        is_collapse_step(st, n, cols, stride, use_tau_h, first_step, i),
        negacyclic(n, s),
        forall|col: int| 0 <= col < cols ==> negacyclic(n, #[trigger] state.work[col]),
        equivariant_product(n, times),
        key_switches(
            n,
            times,
            mask_product,
            body_product,
            automorphism(n, spec_galois_element(stride, 2 * n), s),
            s,
            err,
        ),
    ensures
        ({
            let next = run_step(n, state, st, mask_product, body_product);
            &&& next.work.len() == state.work.len()
            &&& forall|col: int| 0 <= col < cols ==> negacyclic(n, #[trigger] next.work[col])
            &&& phase(n, stride, use_tau_h, next, cols - 1 - i, times, s) == poly_add(
                phase(n, stride, use_tau_h, state, cols - i, times, s),
                automorphism(
                    n,
                    st.addend_automorphism as int,
                    err(
                        automorphism(
                            n,
                            st.term_automorphism as int,
                            state.work[st.source_col as int],
                        ),
                    ),
                ),
            )
        }),
{
    let m = 2 * n;
    lemma_double_binary(n);
    let t = cols - 2 - i;
    let v = share_element(n, stride, use_tau_h, t);
    let w = st.term_automorphism as int;
    let g = spec_galois_element(stride, m);
    lemma_share_range(n, stride, use_tau_h, t);
    lemma_share_range(n, stride, use_tau_h, t + 1);
    lemma_galois_odd(stride, m);
    let next = run_step(n, state, st, mask_product, body_product);
    let src = state.work[t + 1];
    let tgt = state.work[t];
    let x = automorphism(n, w, src);
    let mp = mask_product(x);
    let bp = body_product(x);
    let from = automorphism(n, g, s);
    assert(negacyclic(n, src));
    lemma_automorphism_negacyclic(n, w, src);
    assert(negacyclic(n, mp));
    assert(poly_add(bp, times(mp, s)) == poly_add(times(x, from), err(x)));
    // automorphism(v, x) == src
    law_automorphism_composes(n, v, w, src);
    law_galois_inverse(v, m);
    law_automorphism_identity(n, v * w, src);
    assert(automorphism(n, v, x) == src);
    // automorphism(v, from) == automorphism(share(t + 1), s)
    law_automorphism_composes(n, v, g, s);
    lemma_share_step(n, stride, use_tau_h, t);
    law_automorphism_congruent(n, v * g, share_element(n, stride, use_tau_h, t + 1), s);
    let sv = automorphism(n, v, s);
    let sn = automorphism(n, share_element(n, stride, use_tau_h, t + 1), s);
    assert(automorphism(n, v, from) == sn);
    // the products
    lemma_automorphism_negacyclic(n, v, s);
    lemma_automorphism_negacyclic(n, v, mp);
    lemma_automorphism_negacyclic(n, g, s);
    assert(negacyclic(n, tgt));
    let va = automorphism(n, v, mp);
    let vb = automorphism(n, v, bp);
    assert(times(poly_add(tgt, va), sv) == poly_add(times(tgt, sv), times(va, sv)));
    assert(automorphism(n, v, times(mp, s)) == times(va, sv));
    assert(automorphism(n, v, times(x, from)) == times(src, sn));
    law_automorphism_adds(n, v, bp, times(mp, s));
    law_automorphism_adds(n, v, times(x, from), err(x));
    let ve = automorphism(n, v, err(x));
    assert(poly_add(vb, times(va, sv)) == poly_add(times(src, sn), ve));
    // sums
    let f_old = |col: int|
        times(state.work[col], automorphism(n, share_element(n, stride, use_tau_h, col), s));
    let f_new = |col: int|
        times(next.work[col], automorphism(n, share_element(n, stride, use_tau_h, col), s));
    assert forall|col: int| 0 <= col < t implies #[trigger] f_old(col) == f_new(col) by {
        assert(next.work[col] == state.work[col]);
    }
    lemma_poly_sum_congruent(0, t, f_old, f_new);
    let base = poly_sum(0, t, f_old);
    assert(next.work[t] == poly_add(tgt, va));
    assert(poly_sum(0, t + 1, f_new) == poly_add(base, f_new(t)));
    assert(poly_sum(0, t + 1, f_old) == poly_add(base, f_old(t)));
    assert(poly_sum(0, t + 2, f_old) == poly_add(poly_sum(0, t + 1, f_old), f_old(t + 1)));
    assert(f_new(t) == poly_add(times(tgt, sv), times(va, sv)));
    assert(f_old(t) == times(tgt, sv));
    assert(f_old(t + 1) == times(src, sn));
    let lhs = poly_add(poly_add(state.body, vb), poly_add(base, f_new(t)));
    let rhs = poly_add(
        poly_add(state.body, poly_add(poly_add(base, f_old(t)), f_old(t + 1))),
        ve,
    );
    assert forall|k: int| #[trigger] lhs(k) == rhs(k) by {
        assert(poly_add(vb, times(va, sv))(k) == times(src, sn)(k) + ve(k));
    }
    assert(lhs =~= rhs);
    assert forall|col: int| 0 <= col < cols implies negacyclic(n, #[trigger] next.work[col]) by {
        if col == t {
            assert forall|k: int| #[trigger] next.work[t](k + n) == -next.work[t](k) by {
                assert(tgt(k + n) == -tgt(k));
                assert(va(k + n) == -va(k));
            }
        } else {
            assert(next.work[col] == state.work[col]);
        }
    }
}

/// The collapse of a half changes what the ciphertext decrypts to by the noise of the key
/// switches alone: after the schedule has run, the body and component zero carry the phase
/// that the body and all `cols` components carried before, and the noise of every step,
/// viewed back.
///
/// This holds of every product `times` that is additive and commutes with
/// automorphisms, and of every pair of key-switch products from `tau_g(s)` to `s`.
pub proof fn law_collapse_adds_key_noise(
    n: int,
    cols: int,
    stride: int,
    use_tau_h: bool,
    first_step: int,
    steps: Seq<CollapseStep>,
    state: CollapseState,
    times: spec_fn(Poly, Poly) -> Poly,
    mask_product: spec_fn(Poly) -> Poly,
    body_product: spec_fn(Poly) -> Poly,
    s: Poly,
    err: spec_fn(Poly) -> Poly,
)
    requires
        ring_degree(n),
        stride >= 0,
        cols >= 1,
        state.work.len() >= cols,
        is_collapse_half(steps, n, cols, stride, use_tau_h, first_step),
        negacyclic(n, s),
        forall|col: int| 0 <= col < cols ==> negacyclic(n, #[trigger] state.work[col]),
        equivariant_product(n, times),
        key_switches(
            n,
            times,
            mask_product,
            body_product,
            automorphism(n, spec_galois_element(stride, 2 * n), s),
            s,
            err,
        ),
    ensures
        phase(
            n,
            stride,
            use_tau_h,
            run_steps(n, state, steps, mask_product, body_product),
            1,
            times,
            s,
        ) == poly_add(
            phase(n, stride, use_tau_h, state, cols, times, s),
            viewed_sum(n, state, steps, mask_product, body_product, err, steps.len() as int),
        ),
{
    lemma_prefix_keeps_phase(
        n,
        cols,
        stride,
        use_tau_h,
        first_step,
        steps,
        steps.len() as int,
        state,
        times,
        mask_product,
        body_product,
        s,
        err,
    );
    assert(steps.subrange(0, steps.len() as int) =~= steps);
}

pub proof fn lemma_prefix_keeps_phase(
    n: int,
    cols: int,
    stride: int,
    use_tau_h: bool,
    first_step: int,
    steps: Seq<CollapseStep>,
    count: int,
    state: CollapseState,
    times: spec_fn(Poly, Poly) -> Poly,
    mask_product: spec_fn(Poly) -> Poly,
    body_product: spec_fn(Poly) -> Poly,
    s: Poly,
    err: spec_fn(Poly) -> Poly,
)
    requires
        ring_degree(n),
        stride >= 0,
        cols >= 1,
        0 <= count <= steps.len(),
        state.work.len() >= cols,
        is_collapse_half(steps, n, cols, stride, use_tau_h, first_step),
        negacyclic(n, s),
        forall|col: int| 0 <= col < cols ==> negacyclic(n, #[trigger] state.work[col]),
        equivariant_product(n, times),
        key_switches(
            n,
            times,
            mask_product,
            body_product,
            automorphism(n, spec_galois_element(stride, 2 * n), s),
            s,
            err,
        ),
    ensures
        ({
            let end = run_steps(n, state, steps.subrange(0, count), mask_product, body_product);
            &&& end.work.len() == state.work.len()
            &&& forall|col: int| 0 <= col < cols ==> negacyclic(n, #[trigger] end.work[col])
            &&& phase(n, stride, use_tau_h, end, cols - count, times, s) == poly_add(
                phase(n, stride, use_tau_h, state, cols, times, s),
                viewed_sum(n, state, steps, mask_product, body_product, err, count),
            )
        }),
    decreases count,
{
    let part = steps.subrange(0, count);
    if count > 0 {
        lemma_prefix_keeps_phase(
            n,
            cols,
            stride,
            use_tau_h,
            first_step,
            steps,
            count - 1,
            state,
            times,
            mask_product,
            body_product,
            s,
            err,
        );
        assert(part.drop_last() =~= steps.subrange(0, count - 1));
        assert(part.last() == steps[count - 1]);
        let mid = run_steps(
            n,
            state,
            steps.subrange(0, count - 1),
            mask_product,
            body_product,
        );
        lemma_step_keeps_phase(
            n,
            stride,
            use_tau_h,
            mid,
            steps[count - 1],
            cols,
            first_step,
            count - 1,
            times,
            mask_product,
            body_product,
            s,
            err,
        );
        let f = |i: int|
            automorphism(
                n,
                steps[i].addend_automorphism as int,
                err(collapse_term(n, state, steps, mask_product, body_product, i)),
            );
        let start = phase(n, stride, use_tau_h, state, cols, times, s);
        let before = poly_sum(0, count - 1, f);
        assert(poly_sum(0, count, f) == poly_add(before, f(count - 1)));
        assert(poly_add(poly_add(start, before), f(count - 1)) =~= poly_add(
            start,
            poly_add(before, f(count - 1)),
        ));
    } else {
        let start = phase(n, stride, use_tau_h, state, cols, times, s);
        let none = viewed_sum(n, state, steps, mask_product, body_product, err, 0);
        assert(none == poly_zero());
        assert(poly_add(start, none) =~= start);
    }
}

} // verus!
