//! Packings as a whole: from mask rows and bodies to what the packed ciphertext decodes to.

use vstd::prelude::*;
use vstd::arithmetic::div_mod::*;
use vstd::arithmetic::power2::*;
use crate::encoding::{centred_residue, ModPEncoder};
use crate::interpolation::lemma_extend;
use crate::packing::aggregate::{are_components, are_residues, torus_poly};
use crate::packing::bsgs_pack::{body_terms, body_value};
use crate::packing::collapse::{
    is_collapse_half, key_switches, lemma_prefix_keeps_phase, ring_degree, run_steps, viewed_sum,
    CollapseState, CollapseStep,
};
use crate::packing::convolution::{convolution, law_convolution_is_ring_product, term_at};
use crate::packing::decrypt::{
    baby_products, is_start, lemma_even, maps_ring, pack_masks, pack_noise, packs_fully,
    packs_partially, partial_masks,
};
use crate::packing::divided::{
    divisor_of, law_divided_packing_decrypts, law_partial_divided_packing_decrypts, lemma_starts,
    start_of,
};
use crate::packing::partial::are_partial_components;
use crate::packing::precompute_infos::PackingPrecomputeInfos;
use crate::packing::run::{law_finished_pass_is_packed, PackRun};
use crate::retrieval::lemma_phase_decodes;
use crate::ring::{
    abs, automorphism, lemma_add_negacyclic, negacyclic, poly_add, poly_zero, spec_galois_element,
    Poly,
};
use crate::sums::{
    int_sum, lemma_int_sum_mod, lemma_multiple_scales, lemma_multiples_add,
};

verus! {

/// What a ciphertext decrypts to, coefficient by coefficient: its body, and its mask times
/// the secret.
pub open spec fn decrypted(n: int, body: Seq<i64>, mask: Seq<i64>, s: Poly) -> Poly {
    poly_add(torus_poly(n, body), convolution(n)(torus_poly(n, mask), s))
}

/// Masks that agree modulo `q` decrypt alike.
proof fn lemma_mask_residues(n: int, q: int, mask: Seq<i64>, f: Poly, s: Poly, i: int)
    requires
        n >= 1,
        q >= 1,
        negacyclic(n, f),
        are_residues(mask, n, q, f),
    ensures
        (convolution(n)(torus_poly(n, mask), s)(i) - convolution(n)(f, s)(i)) % q == 0,
{
    let g = torus_poly(n, mask);
    lemma_extend(n, |j: int| mask[j] as int);
    let a = term_at(g, s, i);
    let b = term_at(f, s, i);
    assert forall|j: int| 0 <= j < n implies (#[trigger] a(j) - b(j)) % q == 0 by {
        assert(g(j) == mask[j]);
        lemma_multiple_scales(g(j) - f(j), s(i - j), q);
        assert(s(i - j) * (g(j) - f(j)) == g(j) * s(i - j) - f(j) * s(i - j)) by (nonlinear_arith);
    }
    lemma_int_sum_mod(0, n, q, a, b);
}

// ---------------------------------------------------------------------------
// Full packings
// ---------------------------------------------------------------------------

/// A full packing of mask rows: the components that they are preprocessed to, the steps of
/// both halves, and the two keys. A product with a key switches a mask to the secret `s`, up
/// to its noise.
pub struct FullPacking {
    pub n: int,
    pub bits: int,
    pub infos: PackingPrecomputeInfos,
    pub rows: Seq<Vec<i64>>,
    pub components: Seq<Vec<i64>>,
    pub first: Seq<CollapseStep>,
    pub second: Seq<CollapseStep>,
    pub mask_product_g: spec_fn(Poly) -> Poly,
    pub body_g: spec_fn(Poly) -> Poly,
    pub err_g: spec_fn(Poly) -> Poly,
    pub mask_product_h: spec_fn(Poly) -> Poly,
    pub body_h: spec_fn(Poly) -> Poly,
    pub err_h: spec_fn(Poly) -> Poly,
    pub s: Poly,
    /// Bound of the secret's coefficients.
    pub most: int,
}

impl FullPacking {
    pub open spec fn wf(self) -> bool {
        let times = convolution(self.n);
        &&& ring_degree(self.n)
        &&& 1 <= self.bits <= 62
        &&& packs_fully(self.n, self.infos)
        &&& are_components(self.n, self.bits, self.rows, self.components)
        &&& negacyclic(self.n, self.s)
        &&& maps_ring(self.n, self.body_g)
        &&& forall|x: int| abs(#[trigger] (self.s)(x)) <= self.most
        &&& is_collapse_half(self.first, self.n, self.n / 2, 1, false, 0)
        &&& is_collapse_half(self.second, self.n, self.n / 2, 1, true, self.n / 2 - 1)
        &&& key_switches(
            self.n,
            times,
            self.mask_product_g,
            self.body_g,
            automorphism(self.n, spec_galois_element(1, 2 * self.n), self.s),
            self.s,
            self.err_g,
        )
        &&& key_switches(
            self.n,
            times,
            self.mask_product_h,
            self.body_h,
            automorphism(self.n, -1, self.s),
            self.s,
            self.err_h,
        )
    }

    pub open spec fn start_one(self) -> CollapseState {
        start_of(self.n, self.components, 0, self.n / 2)
    }

    pub open spec fn start_two(self) -> CollapseState {
        start_of(self.n, self.components, self.n / 2, self.n / 2)
    }

    /// What is left of the first half.
    pub open spec fn one(self) -> CollapseState {
        run_steps(self.n, self.start_one(), self.first, self.mask_product_g, self.body_g)
    }

    /// What is left of the second half.
    pub open spec fn two(self) -> CollapseState {
        run_steps(self.n, self.start_two(), self.second, self.mask_product_g, self.body_g)
    }

    /// The packed mask.
    pub open spec fn mask(self) -> Poly {
        poly_add(self.one().work[0], (self.mask_product_h)(self.two().work[0]))
    }

    /// The products that the online pass asks for.
    pub open spec fn product(self) -> spec_fn(int, int) -> Poly {
        let masks = pack_masks(
            self.n,
            self.start_one(),
            self.start_two(),
            self.first,
            self.second,
            self.mask_product_g,
            self.body_g,
        );
        baby_products(self.n, 1, masks, self.body_g)
    }

    /// The final product.
    pub open spec fn last(self) -> spec_fn(int) -> Poly {
        |step: int| (self.body_h)(self.two().work[0])
    }

    /// The noise of all key switches.
    pub open spec fn noise(self) -> Poly {
        pack_noise(
            self.n,
            self.start_one(),
            self.start_two(),
            self.first,
            self.second,
            self.mask_product_g,
            self.body_g,
            self.err_g,
            self.err_h,
        )
    }

    /// Twice what rounding the divided rows and their components can add.
    pub open spec fn rounding(self) -> int {
        (divisor_of(self.n, self.bits) + self.n) * (self.n * self.most)
    }

    /// Row `i` of the masks times the secret.
    pub open spec fn row_key(self, i: int) -> int {
        int_sum(0, self.n, |j: int| self.rows[i]@[j] * (self.s)(j))
    }

    /// `run` packed the bodies to the end, in groups of whatever size, and `mask` is the
    /// packed mask.
    pub open spec fn packs(self, bodies: Seq<i64>, run: PackRun, mask: Seq<i64>) -> bool {
        &&& run.n == self.n
        &&& run.q == pow2(self.bits as nat)
        &&& run.infos == self.infos
        &&& run.finishes(self.product(), self.last(), torus_poly(self.n, bodies))
        &&& are_residues(mask, self.n, pow2(self.bits as nat) as int, self.mask())
    }
}

/// A finished pass decrypts to its rows: coefficient `i` carries body `i`, mask row `i` times
/// the secret, the noise of the key switches, and what rounding adds.
pub proof fn law_pass_decrypts(
    pack: FullPacking,
    bodies: Seq<i64>,
    run: PackRun,
    mask: Seq<i64>,
    i: int,
) -> (e: int)
    requires
        pack.wf(),
        pack.packs(bodies, run, mask),
        0 <= i < pack.n,
    ensures
        2 * abs(e) <= pack.rounding(),
        (decrypted(pack.n, run.body@, mask, pack.s)(i) - (bodies[i] + pack.row_key(i)
            + pack.noise()(i) + e)) % pow2(pack.bits as nat) as int == 0,
{
    let n = pack.n;
    let q = pow2(pack.bits as nat) as int;
    let times = convolution(n);
    let base = torus_poly(n, bodies);
    lemma_pow2_pos(pack.bits as nat);
    lemma_even(n);
    lemma_extend(n, |j: int| bodies[j] as int);
    lemma_extend(n, |j: int| run.body@[j] as int);
    let e = law_divided_packing_decrypts(
        n,
        pack.bits,
        pack.infos,
        pack.rows,
        pack.components,
        base,
        pack.first,
        pack.second,
        pack.mask_product_g,
        pack.body_g,
        pack.mask_product_h,
        pack.body_h,
        pack.s,
        pack.most,
        pack.err_g,
        pack.err_h,
        i,
    );
    law_finished_pass_is_packed(run, pack.product(), pack.last(), base);
    let whole = poly_add(
        poly_add(
            base,
            body_value(
                n,
                pack.infos,
                body_terms(pack.infos, pack.infos.group_count()),
                pack.product(),
            ),
        ),
        (pack.body_h)(pack.two().work[0]),
    );
    assert((run.body@[i] - whole(i)) % q == 0);
    lemma_full_mask_negacyclic(pack);
    lemma_mask_residues(n, q, mask, pack.mask(), pack.s, i);
    let exact = whole(i) + times(pack.mask(), pack.s)(i);
    let target = bodies[i] + pack.row_key(i) + pack.noise()(i) + e;
    assert((exact - target) % q == 0);
    lemma_multiples_add(
        run.body@[i] - whole(i),
        times(torus_poly(n, mask), pack.s)(i) - times(pack.mask(), pack.s)(i),
        q,
    );
    lemma_multiples_add(
        (run.body@[i] - whole(i)) + (times(torus_poly(n, mask), pack.s)(i) - times(
            pack.mask(),
            pack.s,
        )(i)),
        exact - target,
        q,
    );
    e
}

proof fn lemma_full_mask_negacyclic(pack: FullPacking)
    requires
        pack.wf(),
    ensures
        negacyclic(pack.n, pack.mask()),
{
    let n = pack.n;
    let h = n / 2;
    let times = convolution(n);
    law_convolution_is_ring_product(n);
    lemma_even(n);
    lemma_starts(n, pack.components, 0, h);
    lemma_starts(n, pack.components, h, h);
    lemma_end_negacyclic(
        n,
        h,
        1,
        false,
        0,
        pack.start_one(),
        pack.first,
        pack.mask_product_g,
        pack.body_g,
        pack.s,
        pack.err_g,
    );
    lemma_end_negacyclic(
        n,
        h,
        1,
        true,
        h - 1,
        pack.start_two(),
        pack.second,
        pack.mask_product_g,
        pack.body_g,
        pack.s,
        pack.err_g,
    );
    assert(negacyclic(n, (pack.mask_product_h)(pack.two().work[0])));
    lemma_add_negacyclic(n, pack.one().work[0], (pack.mask_product_h)(pack.two().work[0]));
}

proof fn lemma_end_negacyclic(
    n: int,
    cols: int,
    stride: int,
    use_tau_h: bool,
    first_step: int,
    start: CollapseState,
    steps: Seq<CollapseStep>,
    mask_product: spec_fn(Poly) -> Poly,
    body_product: spec_fn(Poly) -> Poly,
    s: Poly,
    err: spec_fn(Poly) -> Poly,
)
    requires
        ring_degree(n),
        stride >= 0,
        cols >= 1,
        negacyclic(n, s),
        is_start(n, start),
        start.work.len() == cols,
        is_collapse_half(steps, n, cols, stride, use_tau_h, first_step),
        key_switches(
            n,
            convolution(n),
            mask_product,
            body_product,
            automorphism(n, spec_galois_element(stride, 2 * n), s),
            s,
            err,
        ),
    ensures
        negacyclic(n, run_steps(n, start, steps, mask_product, body_product).work[0]),
{
    law_convolution_is_ring_product(n);
    lemma_prefix_keeps_phase(
        n,
        cols,
        stride,
        use_tau_h,
        first_step,
        steps,
        steps.len() as int,
        start,
        convolution(n),
        mask_product,
        body_product,
        s,
        err,
    );
    assert(steps.subrange(0, steps.len() as int) =~= steps);
    let end = run_steps(n, start, steps, mask_product, body_product);
    assert(negacyclic(n, end.work[0]));
}

/// A pack decodes: whatever the size of the groups that the pass handled together, if row
/// `i` carries `message` units with noise up to `row_bound`, and that noise, the noise of
/// the key switches and what rounding adds stay together below half a unit, then coefficient
/// `i` of the packed ciphertext decodes to the message.
pub proof fn law_pack_decodes(
    pack: FullPacking,
    bodies: Seq<i64>,
    run: PackRun,
    mask: Seq<i64>,
    encoder: ModPEncoder,
    i: int,
    message: int,
    most: int,
    row_noise: int,
    row_bound: int,
    switch_noise: int,
    switch_bound: int,
)
    requires
        pack.wf(),
        pack.packs(bodies, run, mask),
        0 <= i < pack.n,
        encoder.wf(),
        encoder.k == pack.bits,
        -most <= message <= most,
        (bodies[i] + pack.row_key(i) - (message * encoder.spec_encode(1) + row_noise)) % pow2(
            encoder.k as nat,
        ) as int == 0,
        abs(row_noise) <= row_bound,
        (pack.noise()(i) - switch_noise) % pow2(encoder.k as nat) as int == 0,
        abs(switch_noise) <= switch_bound,
        encoder.tolerates(most, row_bound + switch_bound + pack.rounding() / 2),
    ensures
        encoder.spec_decode(decrypted(pack.n, run.body@, mask, pack.s)(i)) == centred_residue(
            message,
            encoder.p as int,
        ),
{
    let q = pow2(encoder.k as nat) as int;
    let total = decrypted(pack.n, run.body@, mask, pack.s)(i);
    lemma_pow2_pos(encoder.k as nat);
    let e = law_pass_decrypts(pack, bodies, run, mask, i);
    let carried = bodies[i] + pack.row_key(i);
    lemma_multiples_add(
        total - (carried + pack.noise()(i) + e),
        pack.noise()(i) - switch_noise,
        q,
    );
    lemma_multiples_add(
        total - (carried + e + switch_noise),
        carried - (message * encoder.spec_encode(1) + row_noise),
        q,
    );
    lemma_phase_decodes(
        encoder,
        total,
        message,
        row_noise + switch_noise + e,
        most,
        row_bound + switch_bound + pack.rounding() / 2,
    );
}

// ---------------------------------------------------------------------------
// Partial packings
// ---------------------------------------------------------------------------

/// A partial packing of `gamma` mask rows.
pub struct PartialPacking {
    pub n: int,
    pub gamma: int,
    pub bits: int,
    pub infos: PackingPrecomputeInfos,
    pub rows: Seq<Vec<i64>>,
    pub components: Seq<Vec<i64>>,
    pub steps: Seq<CollapseStep>,
    pub mask_product: spec_fn(Poly) -> Poly,
    pub body_product: spec_fn(Poly) -> Poly,
    pub err: spec_fn(Poly) -> Poly,
    pub s: Poly,
    /// Bound of the secret's coefficients.
    pub most: int,
}

impl PartialPacking {
    pub open spec fn wf(self) -> bool {
        let times = convolution(self.n);
        let stride = self.infos.stride as int;
        &&& packs_partially(self.n, self.gamma, self.infos)
        &&& 1 <= self.bits <= 62
        &&& are_partial_components(self.n, self.gamma, self.bits, self.rows, self.components)
        &&& negacyclic(self.n, self.s)
        &&& maps_ring(self.n, self.body_product)
        &&& forall|x: int| abs(#[trigger] (self.s)(x)) <= self.most
        &&& is_collapse_half(self.steps, self.n, self.gamma, stride, false, 0)
        &&& key_switches(
            self.n,
            times,
            self.mask_product,
            self.body_product,
            automorphism(self.n, spec_galois_element(stride, 2 * self.n), self.s),
            self.s,
            self.err,
        )
    }

    pub open spec fn start(self) -> CollapseState {
        start_of(self.n, self.components, 0, self.gamma)
    }

    /// The packed mask.
    pub open spec fn mask(self) -> Poly {
        run_steps(self.n, self.start(), self.steps, self.mask_product, self.body_product).work[0]
    }

    /// The products that the online pass asks for.
    pub open spec fn product(self) -> spec_fn(int, int) -> Poly {
        let masks = partial_masks(self.n, self.start(), self.steps, self.mask_product, self.body_product);
        baby_products(self.n, self.infos.stride as int, masks, self.body_product)
    }

    /// There is no final product.
    pub open spec fn last(self) -> spec_fn(int) -> Poly {
        |step: int| poly_zero()
    }

    /// The noise of all key switches.
    pub open spec fn noise(self) -> Poly {
        viewed_sum(
            self.n,
            self.start(),
            self.steps,
            self.mask_product,
            self.body_product,
            self.err,
            self.steps.len() as int,
        )
    }

    /// Twice what rounding the divided rows and their components can add.
    pub open spec fn rounding(self) -> int {
        (divisor_of(self.gamma, self.bits) + self.gamma) * (self.n * self.most)
    }

    /// Row `i` of the masks times the secret.
    pub open spec fn row_key(self, i: int) -> int {
        int_sum(0, self.n, |j: int| self.rows[i]@[j] * (self.s)(j))
    }

    /// `run` packed the bodies to the end, in groups of whatever size, and `mask` is the
    /// packed mask.
    pub open spec fn packs(self, bodies: Seq<i64>, run: PackRun, mask: Seq<i64>) -> bool {
        &&& run.n == self.n
        &&& run.q == pow2(self.bits as nat)
        &&& run.infos == self.infos
        &&& run.finishes(self.product(), self.last(), torus_poly(self.n, bodies))
        &&& are_residues(mask, self.n, pow2(self.bits as nat) as int, self.mask())
    }
}

/// A finished partial pass decrypts to its rows on its first coefficients.
pub proof fn law_partial_pass_decrypts(
    pack: PartialPacking,
    bodies: Seq<i64>,
    run: PackRun,
    mask: Seq<i64>,
    i: int,
) -> (e: int)
    requires
        pack.wf(),
        pack.packs(bodies, run, mask),
        0 <= i < pack.gamma,
    ensures
        2 * abs(e) <= pack.rounding(),
        (decrypted(pack.n, run.body@, mask, pack.s)(i) - (bodies[i] + pack.row_key(i)
            + pack.noise()(i) + e)) % pow2(pack.bits as nat) as int == 0,
{
    let n = pack.n;
    let q = pow2(pack.bits as nat) as int;
    let times = convolution(n);
    let base = torus_poly(n, bodies);
    lemma_pow2_pos(pack.bits as nat);
    lemma_extend(n, |j: int| bodies[j] as int);
    lemma_extend(n, |j: int| run.body@[j] as int);
    let e = law_partial_divided_packing_decrypts(
        n,
        pack.gamma,
        pack.bits,
        pack.infos,
        pack.rows,
        pack.components,
        base,
        pack.steps,
        pack.mask_product,
        pack.body_product,
        pack.s,
        pack.most,
        pack.err,
        i,
    );
    law_finished_pass_is_packed(run, pack.product(), pack.last(), base);
    let sum = poly_add(
        base,
        body_value(
            n,
            pack.infos,
            body_terms(pack.infos, pack.infos.group_count()),
            pack.product(),
        ),
    );
    let whole = poly_add(sum, poly_zero());
    assert((run.body@[i] - whole(i)) % q == 0);
    assert(whole(i) == sum(i));
    lemma_starts(n, pack.components, 0, pack.gamma);
    lemma_end_negacyclic(
        n,
        pack.gamma,
        pack.infos.stride as int,
        false,
        0,
        pack.start(),
        pack.steps,
        pack.mask_product,
        pack.body_product,
        pack.s,
        pack.err,
    );
    lemma_mask_residues(n, q, mask, pack.mask(), pack.s, i);
    let exact = sum(i) + times(pack.mask(), pack.s)(i);
    let target = bodies[i] + pack.row_key(i) + pack.noise()(i) + e;
    assert((exact - target) % q == 0);
    lemma_multiples_add(
        run.body@[i] - sum(i),
        times(torus_poly(n, mask), pack.s)(i) - times(pack.mask(), pack.s)(i),
        q,
    );
    lemma_multiples_add(
        (run.body@[i] - sum(i)) + (times(torus_poly(n, mask), pack.s)(i) - times(
            pack.mask(),
            pack.s,
        )(i)),
        exact - target,
        q,
    );
    e
}

/// A partial pack decodes on its first coefficients, as [`law_pack_decodes`] says of a full
/// one.
pub proof fn law_partial_pack_decodes(
    pack: PartialPacking,
    bodies: Seq<i64>,
    run: PackRun,
    mask: Seq<i64>,
    encoder: ModPEncoder,
    i: int,
    message: int,
    most: int,
    row_noise: int,
    row_bound: int,
    switch_noise: int,
    switch_bound: int,
)
    requires
        pack.wf(),
        pack.packs(bodies, run, mask),
        0 <= i < pack.gamma,
        encoder.wf(),
        encoder.k == pack.bits,
        -most <= message <= most,
        (bodies[i] + pack.row_key(i) - (message * encoder.spec_encode(1) + row_noise)) % pow2(
            encoder.k as nat,
        ) as int == 0,
        abs(row_noise) <= row_bound,
        (pack.noise()(i) - switch_noise) % pow2(encoder.k as nat) as int == 0,
        abs(switch_noise) <= switch_bound,
        encoder.tolerates(most, row_bound + switch_bound + pack.rounding() / 2),
    ensures
        encoder.spec_decode(decrypted(pack.n, run.body@, mask, pack.s)(i)) == centred_residue(
            message,
            encoder.p as int,
        ),
{
    let q = pow2(encoder.k as nat) as int;
    let total = decrypted(pack.n, run.body@, mask, pack.s)(i);
    lemma_pow2_pos(encoder.k as nat);
    let e = law_partial_pass_decrypts(pack, bodies, run, mask, i);
    let carried = bodies[i] + pack.row_key(i);
    lemma_multiples_add(
        total - (carried + pack.noise()(i) + e),
        pack.noise()(i) - switch_noise,
        q,
    );
    lemma_multiples_add(
        total - (carried + e + switch_noise),
        carried - (message * encoder.spec_encode(1) + row_noise),
        q,
    );
    lemma_phase_decodes(
        encoder,
        total,
        message,
        row_noise + switch_noise + e,
        most,
        row_bound + switch_bound + pack.rounding() / 2,
    );
}

} // verus!
