//! Collapse and online pass on torus polynomials, one key product at a time.
//!
//! Products with a key are the work of a backend. Everything between two products is done
//! here, modulo `q`: which term is multiplied next, how its product is viewed back, and
//! where it is added.

use vstd::prelude::*;
use vstd::arithmetic::div_mod::*;
use vstd::arithmetic::power2::*;
use crate::encoding::{
    centred_residue, lemma_centred_congruent, lemma_centred_residue, lemma_pow2_small,
};
use crate::interpolation::{lemma_congruent_everywhere, lemma_extend};
use crate::packing::aggregate::{
    add_assign, are_coefficients, are_residues, automorphed, in_range, lemma_residues_add,
    torus_poly,
};
use crate::packing::bsgs_pack::{
    body_terms, body_value, giant_automorphisms, group_value, is_sound, lemma_trace_push,
    pack_program, pack_trace, slots_below, trace_op, PackOp,
};
use crate::packing::collapse::{
    collapse_term, is_collapse_half, lemma_poly_sum_congruent, lemma_share_range, machine_exponent,
    ring_degree, run_step, run_steps, CollapseState, CollapseStep,
};
use crate::packing::precompute_infos::PackingPrecomputeInfos;
use crate::ring::{
    automorphism, lemma_add_negacyclic, lemma_automorphism_negacyclic, lemma_sum_negacyclic,
    negacyclic, odd, poly_add, poly_sum, poly_zero, unit_inverse, Poly,
};
use crate::server::product::torus_modulus_i128;
use crate::sums::{lemma_multiple_scales, lemma_multiples_add};

verus! {

/// Ring and torus of a run.
pub open spec fn run_shape(n: int, q: int) -> bool {
    ring_degree(n) && 2 <= q <= 0x4000_0000_0000_0000
}

/// Coefficients of a run.
pub open spec fn is_operand(v: Seq<i64>, n: int) -> bool {
    v.len() == n && in_range(v)
}

/// Automorphisms keep residues.
pub proof fn lemma_residues_automorphism(
    v: Seq<i64>,
    r: Seq<i64>,
    n: int,
    q: int,
    p: int,
    f: Poly,
)
    requires
        n >= 1,
        q >= 1,
        negacyclic(n, f),
        are_residues(v, n, q, f),
        are_coefficients(r, n, automorphism(n, p, torus_poly(n, v))),
    ensures
        are_residues(r, n, q, automorphism(n, p, f)),
{
    lemma_viewed_residues(v, n, q, p, f);
    assert forall|x: int| 0 <= x < n implies (#[trigger] r[x] - automorphism(n, p, f)(x)) % q
        == 0 by {
        assert(r[x] == automorphism(n, p, torus_poly(n, v))(x));
    }
}

/// The view of residues is congruent to the view of the polynomial.
proof fn lemma_viewed_residues(v: Seq<i64>, n: int, q: int, p: int, f: Poly)
    requires
        n >= 1,
        q >= 1,
        negacyclic(n, f),
        are_residues(v, n, q, f),
    ensures
        forall|x: int|
            0 <= x < n ==> (#[trigger] automorphism(n, p, torus_poly(n, v))(x) - automorphism(
                n,
                p,
                f,
            )(x)) % q == 0,
{
    let g = torus_poly(n, v);
    lemma_extend(n, |i: int| v[i] as int);
    assert forall|i: int| 0 <= i < n implies (#[trigger] g(i) - f(i)) % q == 0 by {
        assert((v[i] - f(i)) % q == 0);
    }
    assert forall|x: int| 0 <= x < n implies (#[trigger] automorphism(n, p, g)(x) - automorphism(
        n,
        p,
        f,
    )(x)) % q == 0 by {
        lemma_congruent_everywhere(n, q, g, f, x * unit_inverse(p, 2 * n));
    }
}

// ---------------------------------------------------------------------------
// The collapse
// ---------------------------------------------------------------------------

/// The collapse of one half of the components.
#[derive(Debug)]
pub struct CollapseRun {
    pub n: usize,
    pub q: i64,
    pub steps: Vec<CollapseStep>,
    /// Steps taken so far.
    pub done: usize,
    /// Components, of which those that were folded away are left as they are.
    pub work: Vec<Vec<i64>>,
    /// Terms of the steps taken, as they were multiplied.
    pub terms: Vec<Vec<i64>>,
}

/// Steps over `cols` components.
pub open spec fn are_steps(steps: Seq<CollapseStep>, cols: int) -> bool {
    forall|i: int|
        0 <= i < steps.len() ==> {
            &&& (#[trigger] steps[i]).source_col < cols
            &&& steps[i].target_col < cols
            &&& steps[i].term_automorphism != 0 && odd(steps[i].term_automorphism as int)
            &&& steps[i].addend_automorphism != 0 && odd(steps[i].addend_automorphism as int)
        }
}

/// The schedule of a half can be run on its components.
pub proof fn law_schedule_can_run(
    steps: Seq<CollapseStep>,
    n: int,
    cols: int,
    stride: int,
    use_tau_h: bool,
    first_step: int,
)
    requires
        ring_degree(n),
        stride >= 0,
        is_collapse_half(steps, n, cols, stride, use_tau_h, first_step),
    ensures
        are_steps(steps, cols),
{
    assert forall|i: int| 0 <= i < steps.len() implies {
        &&& (#[trigger] steps[i]).source_col < cols
        &&& steps[i].target_col < cols
        &&& steps[i].term_automorphism != 0 && odd(steps[i].term_automorphism as int)
        &&& steps[i].addend_automorphism != 0 && odd(steps[i].addend_automorphism as int)
    } by {
        lemma_share_range(n, stride, use_tau_h, cols - 2 - i);
    }
}

impl CollapseRun {
    pub open spec fn wf(self) -> bool {
        &&& run_shape(self.n as int, self.q as int)
        &&& self.done <= self.steps@.len()
        &&& self.terms@.len() == self.done
        &&& are_steps(self.steps@, self.work@.len() as int)
        &&& forall|col: int|
            0 <= col < self.work@.len() ==> is_operand((#[trigger] self.work@[col])@, self.n as int)
    }

    /// Starts with all components.
    pub fn new(n: usize, torus_bits: usize, steps: Vec<CollapseStep>, components: Vec<Vec<i64>>) -> (r:
        Self)
        requires
            ring_degree(n as int),
            1 <= torus_bits <= 62,
            are_steps(steps@, components@.len() as int),
            forall|col: int|
                0 <= col < components@.len() ==> is_operand(
                    (#[trigger] components@[col])@,
                    n as int,
                ),
        ensures
            r.wf(),
            r.n == n,
            r.q == pow2(torus_bits as nat),
            r.steps == steps,
            r.work == components,
            r.done == 0,
    {
        proof {
            lemma_pow2_small(torus_bits as nat);
            lemma_pow2_unfold(torus_bits as nat);
            lemma_pow2_pos((torus_bits - 1) as nat);
        }
        let q: i64 = torus_modulus_i128(torus_bits) as i64;
        CollapseRun { n, q, steps, done: 0, work: components, terms: Vec::new() }
    }

    /// The step to be taken.
    pub open spec fn step(self) -> CollapseStep {
        self.steps@[self.done as int]
    }

    /// The term that the next step multiplies.
    pub open spec fn is_next_term(self, term: Seq<i64>) -> bool {
        are_coefficients(
            term,
            self.n as int,
            automorphism(
                self.n as int,
                self.step().term_automorphism as int,
                torus_poly(self.n as int, self.work@[self.step().source_col as int]@),
            ),
        )
    }

    /// The term to be multiplied with the key's mask, unless all steps are taken.
    pub fn next_term(&self) -> (r: Option<Vec<i64>>)
        requires
            self.wf(),
        ensures
            match r {
                Some(term) => self.done < self.steps@.len() && self.is_next_term(term@)
                    && is_operand(term@, self.n as int),
                None => self.done == self.steps@.len(),
            },
    {
        if self.done == self.steps.len() {
            return None;
        }
        let s: CollapseStep = self.steps[self.done];
        proof {
            assert(self.steps@[self.done as int].source_col < self.work@.len());
            assert(is_operand(self.work@[s.source_col as int]@, self.n as int));
        }
        Some(automorphed(&self.work[s.source_col], self.n, s.term_automorphism))
    }

    /// `after` is this run with the product of the next term taken in.
    pub open spec fn takes(self, product: Seq<i64>, after: CollapseRun) -> bool {
        let s = self.step();
        let view = automorphism(
            self.n as int,
            s.addend_automorphism as int,
            torus_poly(self.n as int, product),
        );
        &&& after.n == self.n
        &&& after.q == self.q
        &&& after.steps == self.steps
        &&& after.done == self.done + 1
        &&& after.work@.len() == self.work@.len()
        &&& after.terms@.len() == self.terms@.len() + 1
        &&& forall|i: int| 0 <= i < self.terms@.len() ==> #[trigger] after.terms@[i] == self.terms@[i]
        &&& self.is_next_term(after.terms@[self.terms@.len() as int]@)
        &&& forall|col: int|
            0 <= col < self.work@.len() && col != s.target_col ==> #[trigger] after.work@[col]
                == self.work@[col]
        &&& after.work@[s.target_col as int]@.len() == self.n
        &&& forall|x: int|
            0 <= x < self.n ==> #[trigger] after.work@[s.target_col as int]@[x] == centred_residue(
                self.work@[s.target_col as int]@[x] + view(x),
                self.q as int,
            )
    }

    /// Takes in the product of the next term with the key's mask.
    pub fn take_product(&mut self, product: &Vec<i64>)
        requires
            old(self).wf(),
            old(self).done < old(self).steps@.len(),
            is_operand(product@, old(self).n as int),
        ensures
            final(self).wf(),
            old(self).takes(product@, *final(self)),
    {
        let n: usize = self.n;
        let total: usize = self.steps.len();
        let s: CollapseStep = self.steps[self.done];
        proof {
            assert(self.done < total);
            assert(self.steps@[self.done as int].source_col < self.work@.len());
            assert(is_operand(self.work@[s.source_col as int]@, n as int));
            assert(is_operand(self.work@[s.target_col as int]@, n as int));
        }
        let term: Vec<i64> = automorphed(&self.work[s.source_col], n, s.term_automorphism);
        let addend: Vec<i64> = automorphed(product, n, s.addend_automorphism);
        let mut sum: Vec<i64> = Vec::new();
        let ghost target = self.work@[s.target_col as int]@;
        while sum.len() < n
            invariant
                sum@.len() <= n,
                n == self.n,
                s.target_col < self.work@.len(),
                target == self.work@[s.target_col as int]@,
                target.len() == n,
                forall|x: int| 0 <= x < sum@.len() ==> #[trigger] sum@[x] == target[x],
            decreases n - sum@.len(),
        {
            let x: usize = sum.len();
            sum.push(self.work[s.target_col][x]);
        }
        add_assign(&mut sum, &addend, self.q);
        self.work[s.target_col] = sum;
        self.terms.push(term);
        self.done = self.done + 1;
    }

    /// Component zero, which carries what is left when all steps are taken.
    pub fn first(&self) -> (r: &Vec<i64>)
        requires
            self.work@.len() >= 1,
        ensures
            *r == self.work@[0],
    {
        &self.work[0]
    }

    /// The components are those of the state, modulo `q`.
    pub open spec fn follows(self, state: CollapseState) -> bool {
        &&& self.work@.len() == state.work.len()
        &&& forall|col: int|
            0 <= col < self.work@.len() ==> {
                &&& negacyclic(self.n as int, #[trigger] state.work[col])
                &&& are_residues(
                    self.work@[col]@,
                    self.n as int,
                    self.q as int,
                    state.work[col],
                )
            }
    }
}

/// A run follows the collapse: if the products that it takes in are those of the key
/// switch, its components are those that the collapse computes, and the terms that it hands
/// out those that the collapse multiplies.
pub proof fn law_run_follows_collapse(
    before: CollapseRun,
    after: CollapseRun,
    product: Seq<i64>,
    state: CollapseState,
    mask_product: spec_fn(Poly) -> Poly,
    body_product: spec_fn(Poly) -> Poly,
)
    requires
        before.wf(),
        before.done < before.steps@.len(),
        before.follows(state),
        before.takes(product, after),
        ({
            let n = before.n as int;
            let s = before.step();
            let term = automorphism(n, s.term_automorphism as int, state.work[s.source_col as int]);
            &&& negacyclic(n, mask_product(term))
            &&& are_residues(product, n, before.q as int, mask_product(term))
        }),
    ensures
        after.follows(
            run_step(before.n as int, state, before.step(), mask_product, body_product),
        ),
        are_residues(
            after.terms@[before.done as int]@,
            before.n as int,
            before.q as int,
            automorphism(
                before.n as int,
                before.step().term_automorphism as int,
                state.work[before.step().source_col as int],
            ),
        ),
{
    let n = before.n as int;
    let q = before.q as int;
    let s = before.steps@[before.done as int];
    assert(before.step() == s);
    assert(s.source_col < before.work@.len());
    let source = state.work[s.source_col as int];
    let target = state.work[s.target_col as int];
    let term = automorphism(n, s.term_automorphism as int, source);
    let moved = mask_product(term);
    let addend = automorphism(n, s.addend_automorphism as int, moved);
    let next = run_step(n, state, s, mask_product, body_product);
    lemma_residues_automorphism(
        before.work@[s.source_col as int]@,
        after.terms@[before.done as int]@,
        n,
        q,
        s.term_automorphism as int,
        source,
    );
    lemma_automorphism_negacyclic(n, s.addend_automorphism as int, moved);
    let view = automorphism(n, s.addend_automorphism as int, torus_poly(n, product));
    let old_target = before.work@[s.target_col as int]@;
    let new_target = after.work@[s.target_col as int]@;
    assert(is_operand(old_target, n));
    lemma_viewed_residues(product, n, q, s.addend_automorphism as int, moved);
    assert forall|x: int| 0 <= x < n implies (#[trigger] new_target[x] - poly_add(target, addend)(x))
        % q == 0 by {
        let total = old_target[x] + view(x);
        assert((old_target[x] - target(x)) % q == 0);
        lemma_centred_residue(total, q);
        lemma_multiple_scales(total - new_target[x], -1, q);
        lemma_multiples_add(old_target[x] - target(x), view(x) - addend(x), q);
        lemma_multiples_add(new_target[x] - total, total - (target(x) + addend(x)), q);
    }
    assert forall|col: int| 0 <= col < after.work@.len() implies {
        &&& negacyclic(n, #[trigger] next.work[col])
        &&& are_residues(after.work@[col]@, n, q, next.work[col])
    } by {
        if col == s.target_col {
            lemma_add_negacyclic(n, target, addend);
        } else {
            assert(next.work[col] == state.work[col]);
        }
    }
}

/// Step by step, a run is the collapse of the components that it started with: after each
/// product its components are those of the steps taken so far, and the term that it handed
/// out is that of the collapse.
pub proof fn law_run_is_collapse(
    before: CollapseRun,
    after: CollapseRun,
    product: Seq<i64>,
    start: CollapseState,
    mask_product: spec_fn(Poly) -> Poly,
    body_product: spec_fn(Poly) -> Poly,
)
    requires
        before.wf(),
        before.done < before.steps@.len(),
        before.follows(
            run_steps(
                before.n as int,
                start,
                before.steps@.subrange(0, before.done as int),
                mask_product,
                body_product,
            ),
        ),
        before.takes(product, after),
        ({
            let n = before.n as int;
            let term = collapse_term(
                n,
                start,
                before.steps@,
                mask_product,
                body_product,
                before.done as int,
            );
            &&& negacyclic(n, mask_product(term))
            &&& are_residues(product, n, before.q as int, mask_product(term))
        }),
    ensures
        after.follows(
            run_steps(
                after.n as int,
                start,
                after.steps@.subrange(0, after.done as int),
                mask_product,
                body_product,
            ),
        ),
        are_residues(
            after.terms@[before.done as int]@,
            before.n as int,
            before.q as int,
            collapse_term(
                before.n as int,
                start,
                before.steps@,
                mask_product,
                body_product,
                before.done as int,
            ),
        ),
{
    let n = before.n as int;
    let done = before.done as int;
    let steps = before.steps@;
    let state = run_steps(n, start, steps.subrange(0, done), mask_product, body_product);
    law_run_follows_collapse(before, after, product, state, mask_product, body_product);
    let part = steps.subrange(0, done + 1);
    assert(part.drop_last() =~= steps.subrange(0, done));
    assert(part.last() == steps[done]);
}

// ---------------------------------------------------------------------------
// The online pass
// ---------------------------------------------------------------------------

/// The online pass over one body.
#[derive(Debug)]
pub struct PackRun {
    pub n: usize,
    pub q: i64,
    pub infos: PackingPrecomputeInfos,
    pub ops: Vec<PackOp>,
    /// Instructions done so far.
    pub at: usize,
    pub giants: Vec<i64>,
    pub slots: Vec<Vec<i64>>,
    pub group: Vec<i64>,
    pub body: Vec<i64>,
}

impl PackRun {
    pub open spec fn wf(self) -> bool {
        &&& run_shape(self.n as int, self.q as int)
        &&& self.at <= self.ops@.len()
        &&& slots_below(self.ops@, self.slots@.len() as int)
        &&& is_sound(self.infos, self.ops@)
        &&& self.giants@.len() == self.infos.group_count()
        &&& forall|g: int|
            0 <= g < self.giants@.len() ==> {
                &&& #[trigger] self.giants@[g] == self.infos.giant_automorphism(self.n as int, g)
                &&& self.giants@[g] != 0
                &&& odd(self.giants@[g] as int)
            }
        &&& forall|i: int|
            0 <= i < self.slots@.len() ==> is_operand((#[trigger] self.slots@[i])@, self.n as int)
        &&& is_operand(self.group@, self.n as int)
        &&& is_operand(self.body@, self.n as int)
    }

    /// Starts with the body that is to be packed.
    pub fn new(
        n: usize,
        torus_bits: usize,
        infos: PackingPrecomputeInfos,
        chunk_size: usize,
        body: Vec<i64>,
    ) -> (r: Self)
        requires
            ring_degree(n as int),
            1 <= torus_bits <= 62,
            infos.wf(),
            machine_exponent(infos.stride * infos.steps),
            chunk_size >= 1,
            chunk_size * infos.baby_size <= usize::MAX,
            infos.group_count() + chunk_size <= usize::MAX,
            is_operand(body@, n as int),
        ensures
            r.wf(),
            r.n == n,
            r.q == pow2(torus_bits as nat),
            r.infos == infos,
            r.body == body,
            r.at == 0,
            pack_trace(r.ops@).body == body_terms(infos, infos.group_count()),
            pack_trace(r.ops@).last == (if infos.partial {
                Seq::<int>::empty()
            } else {
                seq![infos.kg_steps()]
            }),
            are_residues(r.group@, n as int, r.q as int, poly_zero()),
    {
        proof {
            lemma_pow2_small(torus_bits as nat);
            lemma_pow2_unfold(torus_bits as nat);
            lemma_pow2_pos((torus_bits - 1) as nat);
        }
        let q: i64 = torus_modulus_i128(torus_bits) as i64;
        let ops: Vec<PackOp> = pack_program(infos, chunk_size);
        let giants: Vec<i64> = giant_automorphisms(n, infos);
        proof {
            lemma_small_mod(0, q as nat);
            assert forall|g: int| 0 <= g < giants@.len() implies {
                &&& #[trigger] giants@[g] == infos.giant_automorphism(n as int, g)
                &&& giants@[g] != 0
                &&& odd(giants@[g] as int)
            } by {
                infos.lemma_group(g);
                lemma_share_range(
                    n as int,
                    infos.stride as int,
                    infos.group_half(g) == 1,
                    infos.giant_target(g),
                );
            }
        }
        let count: usize = chunk_size * infos.baby_size;
        let mut slots: Vec<Vec<i64>> = Vec::new();
        while slots.len() < count
            invariant
                slots@.len() <= count,
                forall|i: int|
                    0 <= i < slots@.len() ==> is_operand((#[trigger] slots@[i])@, n as int),
            decreases count - slots@.len(),
        {
            slots.push(vec![0i64; n]);
        }
        PackRun { n, q, infos, ops, at: 0, giants, slots, group: vec![0i64; n], body }
    }

    /// The instruction to be done next, unless all are done.
    pub fn pending(&self) -> (r: Option<PackOp>)
        requires
            self.wf(),
        ensures
            match r {
                Some(op) => self.at < self.ops@.len() && op == self.ops@[self.at as int],
                None => self.at == self.ops@.len(),
            },
    {
        if self.at < self.ops.len() {
            Some(self.ops[self.at])
        } else {
            None
        }
    }

    /// `after` is this run with the next instruction done. `product` is the product that
    /// the instruction asks for, if it does.
    pub open spec fn takes(self, product: Seq<i64>, after: PackRun) -> bool {
        let n = self.n as int;
        let q = self.q as int;
        &&& after.n == self.n
        &&& after.q == self.q
        &&& after.infos == self.infos
        &&& after.ops == self.ops
        &&& after.at == self.at + 1
        &&& after.giants == self.giants
        &&& match self.ops@[self.at as int] {
            PackOp::Product { slot, .. } => {
                &&& after.slots@.len() == self.slots@.len()
                &&& after.slots@[slot as int]@ == product
                &&& forall|i: int|
                    0 <= i < self.slots@.len() && i != slot ==> #[trigger] after.slots@[i]
                        == self.slots@[i]
                &&& after.group == self.group
                &&& after.body == self.body
            },
            PackOp::ClearGroup => {
                &&& after.group@.len() == n
                &&& forall|x: int| 0 <= x < n ==> #[trigger] after.group@[x] == 0
                &&& after.slots == self.slots
                &&& after.body == self.body
            },
            PackOp::AddProduct { slot } => {
                &&& after.group@.len() == n
                &&& forall|x: int|
                    0 <= x < n ==> #[trigger] after.group@[x] == centred_residue(
                        self.group@[x] + self.slots@[slot as int]@[x],
                        q,
                    )
                &&& after.slots == self.slots
                &&& after.body == self.body
            },
            PackOp::CloseGroup { group_idx } => {
                let view = automorphism(
                    n,
                    self.infos.giant_automorphism(n, group_idx as int),
                    torus_poly(n, self.group@),
                );
                &&& after.body@.len() == n
                &&& forall|x: int|
                    0 <= x < n ==> #[trigger] after.body@[x] == centred_residue(
                        self.body@[x] + view(x),
                        q,
                    )
                &&& after.slots == self.slots
                &&& after.group == self.group
            },
            PackOp::FinalProduct { .. } => {
                &&& after.body@.len() == n
                &&& forall|x: int|
                    0 <= x < n ==> #[trigger] after.body@[x] == centred_residue(
                        self.body@[x] + product[x],
                        q,
                    )
                &&& after.slots == self.slots
                &&& after.group == self.group
            },
        }
    }

    /// Does the next instruction, with the product that it asks for, if it does.
    pub fn advance(&mut self, product: Vec<i64>)
        requires
            old(self).wf(),
            old(self).at < old(self).ops@.len(),
            is_operand(product@, old(self).n as int),
        ensures
            final(self).wf(),
            old(self).takes(product@, *final(self)),
    {
        let n: usize = self.n;
        let total: usize = self.ops.len();
        let op: PackOp = self.ops[self.at];
        assert(self.at < total);
        assert(self.ops@[self.at as int] == op);
        match op {
            PackOp::Product { slot, .. } => {
                self.slots[slot] = product;
            },
            PackOp::ClearGroup => {
                self.group = vec![0i64; n];
            },
            PackOp::AddProduct { slot } => {
                assert(is_operand(self.slots@[slot as int]@, n as int));
                add_assign(&mut self.group, &self.slots[slot], self.q);
            },
            PackOp::CloseGroup { group_idx } => {
                assert(self.giants@[group_idx as int] == self.infos.giant_automorphism(
                    n as int,
                    group_idx as int,
                ));
                let view: Vec<i64> = automorphed(&self.group, n, self.giants[group_idx]);
                add_assign(&mut self.body, &view, self.q);
            },
            PackOp::FinalProduct { .. } => {
                add_assign(&mut self.body, &product, self.q);
            },
        }
        self.at = self.at + 1;
    }

    /// What the body stands for: the first body, the groups closed so far, and the final
    /// products.
    pub open spec fn body_so_far(
        self,
        product: spec_fn(int, int) -> Poly,
        last: spec_fn(int) -> Poly,
        base: Poly,
    ) -> Poly {
        let t = pack_trace(self.ops@.take(self.at as int));
        poly_add(
            poly_add(base, body_value(self.n as int, self.infos, t.body, product)),
            poly_sum(0, t.last.len() as int, |i: int| last(t.last[i])),
        )
    }

    /// Slots, group and body hold what the program has computed so far, modulo `q`, for the
    /// given products of `(step, baby)` and final products of a step.
    pub open spec fn follows(
        self,
        product: spec_fn(int, int) -> Poly,
        last: spec_fn(int) -> Poly,
        base: Poly,
    ) -> bool {
        let n = self.n as int;
        let q = self.q as int;
        let t = pack_trace(self.ops@.take(self.at as int));
        &&& forall|slot: int| #[trigger]
            t.slots.dom().contains(slot) ==> {
                &&& 0 <= slot < self.slots@.len()
                &&& are_residues(
                    self.slots@[slot]@,
                    n,
                    q,
                    product(t.slots[slot].0, t.slots[slot].1),
                )
            }
        &&& are_residues(self.group@, n, q, group_value(t.group, product))
        &&& are_residues(self.body@, n, q, self.body_so_far(product, last, base))
    }
}

impl PackRun {
    /// The pass is done: its program packs every step once, and the run has followed it to
    /// the end.
    pub open spec fn finishes(
        self,
        product: spec_fn(int, int) -> Poly,
        last: spec_fn(int) -> Poly,
        base: Poly,
    ) -> bool {
        &&& self.wf()
        &&& self.at == self.ops@.len()
        &&& pack_trace(self.ops@).body == body_terms(self.infos, self.infos.group_count())
        &&& pack_trace(self.ops@).last == (if self.infos.partial {
            Seq::<int>::empty()
        } else {
            seq![self.infos.kg_steps()]
        })
        &&& self.follows(product, last, base)
    }
}

proof fn lemma_group_negacyclic(n: int, terms: Seq<(int, int)>, product: spec_fn(int, int) -> Poly)
    requires
        forall|s: int, b: int| negacyclic(n, #[trigger] product(s, b)),
    ensures
        negacyclic(n, group_value(terms, product)),
{
    lemma_sum_negacyclic(
        n,
        0,
        terms.len() as int,
        |i: int| product(terms[i].0, terms[i].1),
    );
}

/// A pass follows its program: if the products that it is handed are those that the
/// instructions ask for, it holds what the program computes.
pub proof fn law_pass_follows_program(
    before: PackRun,
    after: PackRun,
    given: Seq<i64>,
    product: spec_fn(int, int) -> Poly,
    last: spec_fn(int) -> Poly,
    base: Poly,
)
    requires
        before.wf(),
        before.at < before.ops@.len(),
        before.follows(product, last, base),
        before.takes(given, after),
        forall|s: int, b: int| negacyclic(before.n as int, #[trigger] product(s, b)),
        match before.ops@[before.at as int] {
            PackOp::Product { step, baby, .. } => are_residues(
                given,
                before.n as int,
                before.q as int,
                product(step as int, baby as int),
            ),
            PackOp::FinalProduct { step } => are_residues(
                given,
                before.n as int,
                before.q as int,
                last(step as int),
            ),
            _ => true,
        },
    ensures
        after.follows(product, last, base),
{
    let n = before.n as int;
    let q = before.q as int;
    let i = before.at as int;
    let op = before.ops@[i];
    let t = pack_trace(before.ops@.take(i));
    let u = pack_trace(before.ops@.take(i + 1));
    assert(before.ops@.take(i + 1) =~= before.ops@.take(i).push(op));
    lemma_trace_push(before.ops@.take(i), op);
    assert(u == trace_op(t, op));
    let now = before.body_so_far(product, last, base);
    let next = after.body_so_far(product, last, base);
    match op {
        PackOp::Product { slot, step, baby } => {
            assert forall|s: int| #[trigger] u.slots.dom().contains(s) implies {
                &&& 0 <= s < after.slots@.len()
                &&& are_residues(after.slots@[s]@, n, q, product(u.slots[s].0, u.slots[s].1))
            } by {
                if s != slot {
                    assert(t.slots.dom().contains(s));
                }
            }
        },
        PackOp::ClearGroup => {
            lemma_small_mod(0, q as nat);
            assert(group_value(u.group, product) == poly_zero());
        },
        PackOp::AddProduct { slot } => {
            assert(t.slots.dom().contains(slot as int));
            let f = group_value(t.group, product);
            let g = product(t.slots[slot as int].0, t.slots[slot as int].1);
            lemma_group_push(t.group, t.slots[slot as int], product);
            lemma_residues_add(
                before.group@,
                before.slots@[slot as int]@,
                after.group@,
                n,
                q,
                f,
                g,
            );
        },
        PackOp::CloseGroup { group_idx } => {
            let f = group_value(t.group, product);
            let p = before.infos.giant_automorphism(n, group_idx as int);
            lemma_group_negacyclic(n, t.group, product);
            lemma_viewed_residues(before.group@, n, q, p, f);
            lemma_body_push(n, before.infos, t.body, (group_idx as int, t.group), product);
            let view = automorphism(n, p, torus_poly(n, before.group@));
            assert forall|x: int| 0 <= x < n implies (#[trigger] after.body@[x] - next(x)) % q
                == 0 by {
                assert((before.body@[x] - now(x)) % q == 0);
                assert(next(x) == now(x) + automorphism(n, p, f)(x));
                lemma_centred_sum_residue(
                    before.body@[x] as int,
                    view(x),
                    after.body@[x] as int,
                    now(x),
                    automorphism(n, p, f)(x),
                    q,
                );
            }
        },
        PackOp::FinalProduct { step } => {
            let f = last(step as int);
            lemma_last_push(t.last, step as int, last);
            assert forall|x: int| 0 <= x < n implies (#[trigger] after.body@[x] - next(x)) % q
                == 0 by {
                assert((before.body@[x] - now(x)) % q == 0);
                assert((given[x] - f(x)) % q == 0);
                assert(next(x) == now(x) + f(x));
                lemma_centred_sum_residue(
                    before.body@[x] as int,
                    given[x] as int,
                    after.body@[x] as int,
                    now(x),
                    f(x),
                    q,
                );
            }
        },
    }
}

proof fn lemma_centred_sum_residue(a: int, b: int, r: int, f: int, g: int, q: int)
    requires
        q >= 2,
        (a - f) % q == 0,
        (b - g) % q == 0,
        r == centred_residue(a + b, q),
    ensures
        (r - (f + g)) % q == 0,
{
    lemma_centred_residue(a + b, q);
    lemma_multiple_scales(a + b - r, -1, q);
    lemma_multiples_add(a - f, b - g, q);
    lemma_multiples_add(r - (a + b), a + b - (f + g), q);
}

proof fn lemma_group_push(
    terms: Seq<(int, int)>,
    term: (int, int),
    product: spec_fn(int, int) -> Poly,
)
    ensures
        group_value(terms.push(term), product) == poly_add(
            group_value(terms, product),
            product(term.0, term.1),
        ),
{
    let all = terms.push(term);
    let f = |i: int| product(all[i].0, all[i].1);
    let g = |i: int| product(terms[i].0, terms[i].1);
    lemma_poly_sum_congruent(0, terms.len() as int, f, g);
}

proof fn lemma_body_push(
    n: int,
    infos: PackingPrecomputeInfos,
    body: Seq<(int, Seq<(int, int)>)>,
    entry: (int, Seq<(int, int)>),
    product: spec_fn(int, int) -> Poly,
)
    ensures
        body_value(n, infos, body.push(entry), product) == poly_add(
            body_value(n, infos, body, product),
            automorphism(n, infos.giant_automorphism(n, entry.0), group_value(entry.1, product)),
        ),
{
    let all = body.push(entry);
    let f = |g: int|
        automorphism(n, infos.giant_automorphism(n, all[g].0), group_value(all[g].1, product));
    let h = |g: int|
        automorphism(n, infos.giant_automorphism(n, body[g].0), group_value(body[g].1, product));
    lemma_poly_sum_congruent(0, body.len() as int, f, h);
}

proof fn lemma_last_push(steps: Seq<int>, step: int, last: spec_fn(int) -> Poly)
    ensures
        poly_sum(
            0,
            steps.push(step).len() as int,
            |i: int| last(steps.push(step)[i]),
        ) == poly_add(poly_sum(0, steps.len() as int, |i: int| last(steps[i])), last(step)),
{
    let all = steps.push(step);
    let f = |i: int| last(all[i]);
    let g = |i: int| last(steps[i]);
    lemma_poly_sum_congruent(0, steps.len() as int, f, g);
}

/// A finished pass holds the packed body: the first body, every group viewed back, and the
/// final product of a full pack.
pub proof fn law_finished_pass_is_packed(
    run: PackRun,
    product: spec_fn(int, int) -> Poly,
    last: spec_fn(int) -> Poly,
    base: Poly,
)
    requires
        run.finishes(product, last, base),
    ensures
        are_residues(
            run.body@,
            run.n as int,
            run.q as int,
            poly_add(
                poly_add(
                    base,
                    body_value(
                        run.n as int,
                        run.infos,
                        body_terms(run.infos, run.infos.group_count()),
                        product,
                    ),
                ),
                if run.infos.partial {
                    poly_zero()
                } else {
                    last(run.infos.kg_steps())
                },
            ),
        ),
{
    let n = run.n as int;
    let t = pack_trace(run.ops@);
    assert(run.ops@.take(run.at as int) =~= run.ops@);
    let so_far = run.body_so_far(product, last, base);
    let f = |i: int| last(t.last[i]);
    let tail = poly_sum(0, t.last.len() as int, f);
    assert forall|x: int| 0 <= x < n implies #[trigger] tail(x) == (if run.infos.partial {
        poly_zero()
    } else {
        last(run.infos.kg_steps())
    })(x) by {
        if !run.infos.partial {
            assert(t.last.len() == 1);
            assert(poly_sum(0, 0, f) == poly_zero());
            assert(f(0) == last(run.infos.kg_steps()));
        }
    }
    assert forall|x: int| 0 <= x < n implies (#[trigger] run.body@[x] - poly_add(
        poly_add(
            base,
            body_value(n, run.infos, body_terms(run.infos, run.infos.group_count()), product),
        ),
        if run.infos.partial {
            poly_zero()
        } else {
            last(run.infos.kg_steps())
        },
    )(x)) % run.q as int == 0 by {
        assert((run.body@[x] - so_far(x)) % run.q as int == 0);
        assert(tail(x) == tail(x));
    }
}

/// How many groups a pass handles together does not matter: two finished passes over one
/// body, with the same products, hold the same packed body.
pub proof fn law_chunk_size_leaves_packing(
    a: PackRun,
    b: PackRun,
    product: spec_fn(int, int) -> Poly,
    last: spec_fn(int) -> Poly,
    base: Poly,
    x: int,
)
    requires
        a.finishes(product, last, base),
        b.finishes(product, last, base),
        a.n == b.n,
        a.q == b.q,
        a.infos == b.infos,
        0 <= x < a.n,
    ensures
        centred_residue(a.body@[x] as int, a.q as int) == centred_residue(
            b.body@[x] as int,
            b.q as int,
        ),
{
    let q = a.q as int;
    law_finished_pass_is_packed(a, product, last, base);
    law_finished_pass_is_packed(b, product, last, base);
    let packed = poly_add(
        poly_add(
            base,
            body_value(a.n as int, a.infos, body_terms(a.infos, a.infos.group_count()), product),
        ),
        if a.infos.partial {
            poly_zero()
        } else {
            last(a.infos.kg_steps())
        },
    )(x);
    assert((a.body@[x] - packed) % q == 0);
    assert((b.body@[x] - packed) % q == 0);
    lemma_multiple_scales(b.body@[x] - packed, -1, q);
    lemma_multiples_add(a.body@[x] - packed, -1 * (b.body@[x] - packed), q);
    let d = (a.body@[x] - b.body@[x]) / q;
    lemma_fundamental_div_mod(a.body@[x] - b.body@[x], q);
    assert(a.body@[x] == b.body@[x] + d * q) by (nonlinear_arith)
        requires
            a.body@[x] - b.body@[x] == q * d + 0,
    ;
    lemma_centred_congruent(b.body@[x] as int, d, q);
}

} // verus!
