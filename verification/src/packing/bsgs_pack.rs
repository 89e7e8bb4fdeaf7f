//! The online baby-step/giant-step pass of packing.
//!
//! The pass computes, for each group, the sum of its baby-step products, views the
//! sum back through the giant automorphism of the group, and adds it to the body.
//! Groups are taken in chunks, so that one loaded baby key serves every group of
//! the chunk.

use vstd::prelude::*;
use vstd::arithmetic::div_mod::*;
use crate::arith::{lemma_div_ceil, lemma_quotient, min, spec_div_ceil, spec_min};
use crate::packing::collapse::{
    equivariant_product, is_collapse_half, lemma_poly_sum_congruent, lemma_share_range,
    machine_exponent, ring_degree, secret_view, share_element, CollapseStep,
};
use crate::packing::precompute_infos::PackingPrecomputeInfos;
use crate::ring::{
    automorphism, galois_element_inv, law_automorphism_adds, law_automorphism_composes,
    law_automorphism_congruent, law_galois_inverse, lemma_double_binary, lemma_galois_adds,
    negacyclic, odd, poly_add, poly_sum, poly_zero, spec_galois_element, spec_galois_element_inv,
    Poly,
};

verus! {

impl PackingPrecomputeInfos {
    /// Every `key_g` step belongs to a half.
    pub open spec fn complete(self) -> bool {
        self.kg_steps() == self.halves() * self.half_steps()
    }

    /// Target component of the first step of a group.
    pub open spec fn giant_target(self, group: int) -> int {
        self.half_steps() - 1 - self.giant_index(group) * self.baby_size
    }

    /// Automorphism that views the sum of a group back.
    pub open spec fn giant_automorphism(self, n: int, group: int) -> int {
        share_element(n, self.stride as int, self.group_half(group) == 1, self.giant_target(group))
    }
}

/// Automorphism under which baby step `baby` sees its mask and its key.
pub open spec fn spec_baby_automorphism(n: int, stride: int, baby: int) -> int {
    spec_galois_element_inv(spec_galois_element(stride * baby, 2 * n), 2 * n)
}

/// The baby-step view of mask columns and `key_g` bodies.
pub fn baby_automorphism(n: usize, stride: usize, baby: usize) -> (r: i64)
    requires
        ring_degree(n as int),
        machine_exponent(stride * baby),
    ensures
        r == spec_baby_automorphism(n as int, stride as int, baby as int),
        -2 * n < r < 2 * n,
        odd(r as int),
{
    proof {
        lemma_share_range(n as int, stride as int, false, baby as int);
        lemma_double_binary(n as int);
    }
    let element: i64 = secret_view(n, stride, false, baby);
    let r: i64 = galois_element_inv(element, (2 * n) as i64);
    proof {
        let x = vstd::arithmetic::power::pow(
            crate::ring::abs(element as int),
            (2 * n - 1) as nat,
        );
        lemma_mod_bound(x, 2 * n as int);
        assert(1 * (x % (2 * n as int)) == x % (2 * n as int));
    }
    r
}

/// Giant automorphism of one group.
pub fn giant_automorphism(n: usize, infos: PackingPrecomputeInfos, group_idx: usize) -> (r: i64)
    requires
        ring_degree(n as int),
        infos.wf(),
        group_idx < infos.group_count(),
        machine_exponent(infos.stride * infos.steps),
    ensures
        r == infos.giant_automorphism(n as int, group_idx as int),
{
    proof {
        infos.lemma_group(group_idx as int);
    }
    let per_half: usize = infos.bsgs_groups_per_half();
    let half: usize = infos.bsgs_half_steps();
    let use_tau_h: bool = group_idx >= per_half;
    let giant_idx: usize = group_idx % per_half;
    let target_col: usize = half - 1 - giant_idx * infos.baby_size;
    proof {
        let q = infos.group_half(group_idx as int);
        assert(use_tau_h == (q == 1)) by (nonlinear_arith)
            requires
                group_idx == q * per_half + giant_idx,
                0 <= giant_idx < per_half,
                0 <= q < 2,
                use_tau_h == (group_idx >= per_half),
        ;
        assert(infos.stride * target_col <= infos.stride * infos.steps) by (nonlinear_arith)
            requires
                target_col <= infos.steps,
                infos.stride >= 0,
        ;
    }
    secret_view(n, infos.stride, use_tau_h, target_col)
}

/// Giant automorphisms of all groups, in group order.
pub fn giant_automorphisms(n: usize, infos: PackingPrecomputeInfos) -> (r: Vec<i64>)
    requires
        ring_degree(n as int),
        infos.wf(),
        machine_exponent(infos.stride * infos.steps),
    ensures
        r.len() == infos.group_count(),
        forall|g: int|
            0 <= g < infos.group_count() ==> #[trigger] r@[g] == infos.giant_automorphism(n as int, g),
{
    let count: usize = infos.bsgs_group_count();
    let mut r: Vec<i64> = Vec::new();
    let mut g: usize = 0;
    while g < count
        invariant
            ring_degree(n as int),
            infos.wf(),
            machine_exponent(infos.stride * infos.steps),
            count == infos.group_count(),
            g <= count,
            r.len() == g,
            forall|j: int| 0 <= j < g ==> #[trigger] r@[j] == infos.giant_automorphism(n as int, j),
        decreases count - g,
    {
        r.push(giant_automorphism(n, infos, g));
        g = g + 1;
    }
    r
}

impl PackingPrecomputeInfos {
    /// Groups follow one another without a gap.
    pub proof fn lemma_groups_contiguous(self, group: int)
        requires
            self.wf(),
            0 <= group < self.group_count(),
        ensures
            self.group_start(0) == 0,
            self.group_start(group + 1) == self.group_start(group) + self.group_len(group),
            self.group_start(self.group_count()) == self.halves() * self.half_steps(),
    {
        self.lemma_group(group);
        let per = self.groups_per_half();
        let h = self.half_steps();
        let bs = self.baby_size as int;
        lemma_div_ceil(h, bs);
        lemma_small_mod(0, per as nat);
        lemma_div_of0(per);
        let q = self.group_half(group);
        let r = self.giant_index(group);
        if r + 1 < per {
            lemma_quotient(group + 1, per, q, r + 1);
            assert((r + 1) * bs == r * bs + bs) by (nonlinear_arith);
            assert((r + 1) * bs <= (per - 1) * bs) by (nonlinear_arith)
                requires
                    r + 1 <= per - 1,
                    bs >= 1,
            ;
            assert((per - 1) * bs < h);
        } else {
            assert(q * per + r + 1 == (q + 1) * per) by (nonlinear_arith)
                requires
                    r + 1 == per,
            ;
            lemma_quotient(group + 1, per, q + 1, 0);
            assert((q + 1) * h == q * h + h) by (nonlinear_arith);
            assert(r * bs + bs >= h) by (nonlinear_arith)
                requires
                    r + 1 == per,
                    per * bs >= h,
            ;
        }
        lemma_quotient(self.group_count(), per, self.halves(), 0);
        assert(0 * h == 0 && 0 * bs == 0) by (nonlinear_arith);
    }
}

/// Automorphism applied to each stored mask column before it is transformed.
///
/// Column `step` of a `key_g` step gets its baby-step view; the final `key_h`
/// column of a full pack is used as it stands.
pub fn mask_column_automorphisms(n: usize, infos: PackingPrecomputeInfos) -> (r: Vec<i64>)
    requires
        ring_degree(n as int),
        infos.wf(),
        infos.complete(),
        machine_exponent(infos.stride * infos.baby_size),
    ensures
        r.len() == infos.steps,
        forall|step: int|
            0 <= step < infos.kg_steps() ==> #[trigger] r@[step] == spec_baby_automorphism(
                n as int,
                infos.stride as int,
                infos.baby_of(step),
            ),
        !infos.partial ==> r@[infos.steps - 1] == 1,
{
    let count: usize = infos.bsgs_group_count();
    let mut r: Vec<i64> = Vec::new();
    let mut g: usize = 0;
    proof {
        if infos.group_count() > 0 {
            infos.lemma_groups_contiguous(0);
        } else {
            lemma_no_groups(infos);
        }
    }
    while g < count
        invariant
            ring_degree(n as int),
            infos.wf(),
            infos.complete(),
            machine_exponent(infos.stride * infos.baby_size),
            count == infos.group_count(),
            g <= count,
            count > 0 ==> r.len() == infos.group_start(g as int),
            count == 0 ==> r.len() == 0,
            forall|step: int|
                0 <= step < r.len() ==> #[trigger] r@[step] == spec_baby_automorphism(
                    n as int,
                    infos.stride as int,
                    infos.baby_of(step),
                ),
        decreases count - g,
    {
        let len: usize = infos.bsgs_group_len(g);
        let mut baby: usize = 0;
        proof {
            infos.lemma_group(g as int);
        }
        while baby < len
            invariant
                ring_degree(n as int),
                infos.wf(),
                infos.complete(),
                machine_exponent(infos.stride * infos.baby_size),
                count == infos.group_count(),
                g < count,
                len == infos.group_len(g as int),
                len <= infos.baby_size,
                baby <= len,
                infos.group_start(g as int) + len <= infos.halves() * infos.half_steps(),
                0 <= infos.group_start(g as int),
                r.len() == infos.group_start(g as int) + baby,
                forall|step: int|
                    0 <= step < r.len() ==> #[trigger] r@[step] == spec_baby_automorphism(
                        n as int,
                        infos.stride as int,
                        infos.baby_of(step),
                    ),
            decreases len - baby,
        {
            assert(infos.stride * baby <= infos.stride * infos.baby_size) by (nonlinear_arith)
                requires
                    baby <= infos.baby_size,
                    infos.stride >= 0,
            ;
            proof {
                let step = infos.step_at(g as int, baby as int);
                infos.law_groups_tile_steps(step);
                assert(infos.baby_of(step) == baby);
            }
            r.push(baby_automorphism(n, infos.stride, baby));
            baby = baby + 1;
        }
        proof {
            infos.lemma_groups_contiguous(g as int);
        }
        g = g + 1;
    }
    proof {
        if infos.group_count() > 0 {
            infos.lemma_groups_contiguous(0);
        } else {
            lemma_no_groups(infos);
        }
    }
    if !infos.partial {
        r.push(1);
    }
    r
}

/// Without groups there are no steps.
proof fn lemma_no_groups(infos: PackingPrecomputeInfos)
    requires
        infos.wf(),
        infos.group_count() <= 0,
    ensures
        infos.half_steps() == 0,
        infos.group_count() == 0,
        infos.halves() * infos.half_steps() == 0,
{
    let h = infos.half_steps();
    lemma_div_pos_is_pos(infos.kg_steps(), infos.halves());
    lemma_div_ceil(h, infos.baby_size as int);
    let per = infos.groups_per_half();
    assert(per == 0) by (nonlinear_arith)
        requires
            infos.halves() * per <= 0,
            infos.halves() >= 1,
            per >= 0,
    ;
    assert(h == 0);
}

// ---------------------------------------------------------------------------
// The online program
// ---------------------------------------------------------------------------

/// One instruction of the online pass.
#[derive(Clone, Copy, Debug, PartialEq, Eq, Structural)]
pub enum PackOp {
    /// `product[slot] = mask[step] * baby_key[baby]`.
    Product { slot: usize, step: usize, baby: usize },
    /// `group = 0`.
    ClearGroup,
    /// `group += product[slot]`.
    AddProduct { slot: usize },
    /// `body += giant[group_idx](group)`.
    CloseGroup { group_idx: usize },
    /// `body += mask[step] * key_h`.
    FinalProduct { step: usize },
}

/// What a program has computed so far, as formal terms.
pub struct PackTrace {
    /// `(step, baby)` of the product that each slot holds.
    pub slots: Map<int, (int, int)>,
    /// Products summed into the open group.
    pub group: Seq<(int, int)>,
    /// Closed groups, each with its products.
    pub body: Seq<(int, Seq<(int, int)>)>,
    /// Final products.
    pub last: Seq<int>,
}

pub open spec fn trace_op(t: PackTrace, op: PackOp) -> PackTrace {
    match op {
        PackOp::Product { slot, step, baby } => PackTrace {
            slots: t.slots.insert(slot as int, (step as int, baby as int)),
            ..t
        },
        PackOp::ClearGroup => PackTrace { group: Seq::empty(), ..t },
        PackOp::AddProduct { slot } => PackTrace { group: t.group.push(t.slots[slot as int]), ..t },
        PackOp::CloseGroup { group_idx } => PackTrace {
            body: t.body.push((group_idx as int, t.group)),
            ..t
        },
        PackOp::FinalProduct { step } => PackTrace { last: t.last.push(step as int), ..t },
    }
}

/// The terms a program computes.
pub open spec fn pack_trace(ops: Seq<PackOp>) -> PackTrace
    decreases ops.len(),
{
    if ops.len() == 0 {
        PackTrace {
            slots: Map::empty(),
            group: Seq::empty(),
            body: Seq::empty(),
            last: Seq::empty(),
        }
    } else {
        trace_op(pack_trace(ops.drop_last()), ops.last())
    }
}

pub proof fn lemma_trace_push(ops: Seq<PackOp>, op: PackOp)
    ensures
        pack_trace(ops.push(op)) == trace_op(pack_trace(ops), op),
{
    assert(ops.push(op).drop_last() =~= ops);
}

/// The products of a group, in baby-step order.
pub open spec fn group_terms(infos: PackingPrecomputeInfos, group: int) -> Seq<(int, int)> {
    Seq::new(infos.group_len(group) as nat, |b: int| (infos.step_at(group, b), b))
}

/// The first `count` groups, each with its products.
pub open spec fn body_terms(infos: PackingPrecomputeInfos, count: int) -> Seq<
    (int, Seq<(int, int)>),
> {
    Seq::new(count as nat, |g: int| (g, group_terms(infos, g)))
}

/// Slots that a program uses.
pub open spec fn slots_below(ops: Seq<PackOp>, bound: int) -> bool {
    forall|i: int|
        0 <= i < ops.len() ==> match #[trigger] ops[i] {
            PackOp::Product { slot, .. } => slot < bound,
            PackOp::AddProduct { slot } => slot < bound,
            _ => true,
        }
}

proof fn lemma_slot(c: int, baby: int, c2: int, baby2: int, baby_size: int)
    requires
        0 <= baby < baby_size,
        0 <= baby2 < baby_size,
        c * baby_size + baby == c2 * baby_size + baby2,
    ensures
        c == c2,
        baby == baby2,
{
    lemma_quotient(c * baby_size + baby, baby_size, c, baby);
    lemma_quotient(c * baby_size + baby, baby_size, c2, baby2);
}

proof fn lemma_slot_bound(c: int, baby: int, chunk: int, baby_size: int)
    requires
        0 <= baby < baby_size,
        0 <= c < chunk,
    ensures
        0 <= c * baby_size + baby < chunk * baby_size,
        0 <= c * baby_size,
{
    assert(0 <= c * baby_size + baby < chunk * baby_size && 0 <= c * baby_size) by (nonlinear_arith)
        requires
            0 <= baby < baby_size,
            0 <= c < chunk,
    ;
}

/// Products of the groups `start .. end` are in their slots, for every baby step
/// below `babies`.
pub open spec fn chunk_filled(
    infos: PackingPrecomputeInfos,
    slots: Map<int, (int, int)>,
    start: int,
    end: int,
    babies: int,
) -> bool {
    forall|group: int, baby: int|
        start <= group < end && 0 <= baby < babies && baby < infos.group_len(group) ==> {
            let slot = (group - start) * infos.baby_size + baby;
            slots.dom().contains(slot) && slots[slot] == (#[trigger] infos.step_at(
                group,
                baby,
            ), baby)
        }
}

/// Sums use products that were computed before, and only groups of the shape are closed.
pub open spec fn is_sound(infos: PackingPrecomputeInfos, ops: Seq<PackOp>) -> bool {
    forall|i: int|
        0 <= i < ops.len() ==> match #[trigger] ops[i] {
            PackOp::AddProduct { slot } => pack_trace(ops.take(i)).slots.dom().contains(
                slot as int,
            ),
            PackOp::CloseGroup { group_idx } => group_idx < infos.group_count(),
            _ => true,
        }
}

proof fn lemma_sound_push(infos: PackingPrecomputeInfos, ops: Seq<PackOp>, op: PackOp)
    requires
        is_sound(infos, ops),
        match op {
            PackOp::AddProduct { slot } => pack_trace(ops).slots.dom().contains(slot as int),
            PackOp::CloseGroup { group_idx } => group_idx < infos.group_count(),
            _ => true,
        },
    ensures
        is_sound(infos, ops.push(op)),
{
    let all = ops.push(op);
    assert forall|i: int| 0 <= i < all.len() implies match #[trigger] all[i] {
        PackOp::AddProduct { slot } => pack_trace(all.take(i)).slots.dom().contains(slot as int),
        PackOp::CloseGroup { group_idx } => group_idx < infos.group_count(),
        _ => true,
    } by {
        assert(all.take(i) =~= ops.take(i));
        if i < ops.len() {
            assert(all[i] == ops[i]);
        } else {
            assert(ops.take(i) =~= ops);
        }
    }
}

// ---------------------------------------------------------------------------
// The program, instruction by instruction
// ---------------------------------------------------------------------------

/// Slot of the product at baby step `baby` of `group`, in the chunk that begins with group
/// `start`.
pub open spec fn product_slot(
    infos: PackingPrecomputeInfos,
    start: int,
    group: int,
    baby: int,
) -> usize {
    ((group - start) * infos.baby_size + baby) as usize
}

/// Products at baby step `baby` of the groups `start .. end` that reach it.
pub open spec fn baby_products_ops(
    infos: PackingPrecomputeInfos,
    start: int,
    end: int,
    baby: int,
) -> Seq<PackOp>
    decreases end - start,
{
    if end <= start {
        Seq::empty()
    } else {
        let before = baby_products_ops(infos, start, end - 1, baby);
        if baby < infos.group_len(end - 1) {
            before.push(
                PackOp::Product {
                    slot: product_slot(infos, start, end - 1, baby),
                    step: infos.step_at(end - 1, baby) as usize,
                    baby: baby as usize,
                },
            )
        } else {
            before
        }
    }
}

/// Products of the groups `start .. end` at the first `babies` baby steps: every key is
/// taken up once.
pub open spec fn chunk_products_ops(
    infos: PackingPrecomputeInfos,
    start: int,
    end: int,
    babies: int,
) -> Seq<PackOp>
    decreases babies,
{
    if babies <= 0 {
        Seq::empty()
    } else {
        chunk_products_ops(infos, start, end, babies - 1) + baby_products_ops(
            infos,
            start,
            end,
            babies - 1,
        )
    }
}

/// One group is summed, viewed back and added.
pub open spec fn group_sum_ops(infos: PackingPrecomputeInfos, start: int, group: int) -> Seq<
    PackOp,
> {
    seq![PackOp::ClearGroup] + Seq::new(
        infos.group_len(group) as nat,
        |baby: int| PackOp::AddProduct { slot: product_slot(infos, start, group, baby) },
    ) + seq![PackOp::CloseGroup { group_idx: group as usize }]
}

/// The groups `start .. end`, one after the other.
pub open spec fn chunk_sums_ops(infos: PackingPrecomputeInfos, start: int, end: int) -> Seq<PackOp>
    decreases end - start,
{
    if end <= start {
        Seq::empty()
    } else {
        chunk_sums_ops(infos, start, end - 1) + group_sum_ops(infos, start, end - 1)
    }
}

/// One chunk: all products of its groups, then their sums.
pub open spec fn chunk_ops(infos: PackingPrecomputeInfos, start: int, end: int) -> Seq<PackOp> {
    chunk_products_ops(infos, start, end, infos.baby_size as int) + chunk_sums_ops(
        infos,
        start,
        end,
    )
}

/// The first `chunks` chunks of `chunk_size` groups; the last one may hold fewer.
pub open spec fn chunks_ops(infos: PackingPrecomputeInfos, chunk_size: int, chunks: int) -> Seq<
    PackOp,
>
    decreases chunks,
{
    if chunks <= 0 {
        Seq::empty()
    } else {
        chunks_ops(infos, chunk_size, chunks - 1) + chunk_ops(
            infos,
            (chunks - 1) * chunk_size,
            spec_min(chunks * chunk_size, infos.group_count()),
        )
    }
}

/// The whole program: chunk after chunk, and the `key_h` product of a full pack.
pub open spec fn program_ops(infos: PackingPrecomputeInfos, chunk_size: int) -> Seq<PackOp> {
    chunks_ops(infos, chunk_size, spec_div_ceil(infos.group_count(), chunk_size)) + if infos.partial {
        Seq::<PackOp>::empty()
    } else {
        seq![PackOp::FinalProduct { step: infos.kg_steps() as usize }]
    }
}

/// How often a program computes the product of step `step`.
pub open spec fn product_count(ops: Seq<PackOp>, step: int) -> int
    decreases ops.len(),
{
    if ops.len() == 0 {
        0
    } else {
        product_count(ops.drop_last(), step) + match ops.last() {
            PackOp::Product { step: s, .. } => if s == step {
                1int
            } else {
                0
            },
            _ => 0,
        }
    }
}

proof fn lemma_count_concat(a: Seq<PackOp>, b: Seq<PackOp>, step: int)
    ensures
        product_count(a + b, step) == product_count(a, step) + product_count(b, step),
    decreases b.len(),
{
    if b.len() == 0 {
        assert(a + b =~= a);
    } else {
        assert((a + b).drop_last() =~= a + b.drop_last());
        lemma_count_concat(a, b.drop_last(), step);
    }
}

/// Programs without products.
proof fn lemma_count_none(ops: Seq<PackOp>, step: int)
    requires
        forall|i: int| 0 <= i < ops.len() ==> !(#[trigger] ops[i] is Product),
    ensures
        product_count(ops, step) == 0,
    decreases ops.len(),
{
    if ops.len() > 0 {
        assert forall|i: int| 0 <= i < ops.len() - 1 implies !(#[trigger] ops.drop_last()[i] is Product)
            by {
            assert(ops.drop_last()[i] == ops[i]);
        }
        lemma_count_none(ops.drop_last(), step);
        assert(!(ops[ops.len() - 1] is Product));
    }
}

proof fn lemma_count_baby(
    infos: PackingPrecomputeInfos,
    start: int,
    end: int,
    baby: int,
    step: int,
)
    requires
        infos.wf(),
        infos.kg_steps() <= usize::MAX,
        0 <= start,
        end <= infos.group_count(),
        0 <= baby,
        0 <= step < infos.halves() * infos.half_steps(),
    ensures
        product_count(baby_products_ops(infos, start, end, baby), step) == (if start
            <= infos.group_of(step) < end && baby == infos.baby_of(step) {
            1int
        } else {
            0
        }),
    decreases end - start,
{
    infos.law_groups_tile_steps(step);
    if start < end {
        lemma_count_baby(infos, start, end - 1, baby, step);
        let before = baby_products_ops(infos, start, end - 1, baby);
        let all = baby_products_ops(infos, start, end, baby);
        if baby < infos.group_len(end - 1) {
            infos.lemma_group(end - 1);
            assert(all.drop_last() =~= before);
            let s = infos.step_at(end - 1, baby);
            assert(0 <= s <= usize::MAX);
            if s == step {
                assert(infos.group_of(step) == end - 1 && infos.baby_of(step) == baby);
            }
        }
    }
}

proof fn lemma_count_chunk_products(
    infos: PackingPrecomputeInfos,
    start: int,
    end: int,
    babies: int,
    step: int,
)
    requires
        infos.wf(),
        infos.kg_steps() <= usize::MAX,
        0 <= start,
        end <= infos.group_count(),
        0 <= babies,
        0 <= step < infos.halves() * infos.half_steps(),
    ensures
        product_count(chunk_products_ops(infos, start, end, babies), step) == (if start
            <= infos.group_of(step) < end && infos.baby_of(step) < babies {
            1int
        } else {
            0
        }),
    decreases babies,
{
    infos.law_groups_tile_steps(step);
    if babies > 0 {
        lemma_count_chunk_products(infos, start, end, babies - 1, step);
        lemma_count_baby(infos, start, end, babies - 1, step);
        lemma_count_concat(
            chunk_products_ops(infos, start, end, babies - 1),
            baby_products_ops(infos, start, end, babies - 1),
            step,
        );
    }
}

proof fn lemma_count_chunk_sums(infos: PackingPrecomputeInfos, start: int, end: int, step: int)
    ensures
        product_count(chunk_sums_ops(infos, start, end), step) == 0,
    decreases end - start,
{
    if start < end {
        lemma_count_chunk_sums(infos, start, end - 1, step);
        lemma_count_none(group_sum_ops(infos, start, end - 1), step);
        lemma_count_concat(
            chunk_sums_ops(infos, start, end - 1),
            group_sum_ops(infos, start, end - 1),
            step,
        );
    }
}

proof fn lemma_count_chunks(
    infos: PackingPrecomputeInfos,
    chunk_size: int,
    chunks: int,
    step: int,
)
    requires
        infos.wf(),
        infos.kg_steps() <= usize::MAX,
        chunk_size >= 1,
        0 <= chunks,
        (chunks - 1) * chunk_size < infos.group_count() || chunks == 0,
        0 <= step < infos.halves() * infos.half_steps(),
    ensures
        product_count(chunks_ops(infos, chunk_size, chunks), step) == (if infos.group_of(step)
            < chunks * chunk_size {
            1int
        } else {
            0
        }),
    decreases chunks,
{
    infos.law_groups_tile_steps(step);
    let g = infos.group_of(step);
    if chunks > 0 {
        let start = (chunks - 1) * chunk_size;
        let end = spec_min(chunks * chunk_size, infos.group_count());
        assert(start >= 0 && chunks * chunk_size == start + chunk_size && (chunks - 2) * chunk_size
            == start - chunk_size) by (nonlinear_arith)
            requires
                start == (chunks - 1) * chunk_size,
                chunks >= 1,
                chunk_size >= 1,
        ;
        lemma_count_chunks(infos, chunk_size, chunks - 1, step);
        infos.lemma_group(g);
        lemma_count_chunk_products(infos, start, end, infos.baby_size as int, step);
        lemma_count_chunk_sums(infos, start, end, step);
        lemma_count_concat(
            chunk_products_ops(infos, start, end, infos.baby_size as int),
            chunk_sums_ops(infos, start, end),
            step,
        );
        lemma_count_concat(
            chunks_ops(infos, chunk_size, chunks - 1),
            chunk_ops(infos, start, end),
            step,
        );
    } else {
        assert(0 * chunk_size == 0) by (nonlinear_arith);
    }
}

/// The program computes the product of every collapse step exactly once, whatever the chunk
/// size.
pub proof fn law_products_computed_once(
    infos: PackingPrecomputeInfos,
    chunk_size: int,
    step: int,
)
    requires
        infos.wf(),
        chunk_size >= 1,
        0 <= step < infos.halves() * infos.half_steps(),
    ensures
        product_count(program_ops(infos, chunk_size), step) == 1,
{
    let chunks = spec_div_ceil(infos.group_count(), chunk_size);
    infos.law_groups_tile_steps(step);
    lemma_div_ceil(infos.group_count(), chunk_size);
    lemma_count_chunks(infos, chunk_size, chunks, step);
    let last = if infos.partial {
        Seq::<PackOp>::empty()
    } else {
        seq![PackOp::FinalProduct { step: infos.kg_steps() as usize }]
    };
    lemma_count_none(last, step);
    lemma_count_concat(chunks_ops(infos, chunk_size, chunks), last, step);
}

/// First half of a chunk: all products of the groups `start .. end`.
fn push_chunk_products(
    infos: PackingPrecomputeInfos,
    ops: &mut Vec<PackOp>,
    start: usize,
    end: usize,
    chunk_size: usize,
)
    requires
        infos.wf(),
        start < end <= infos.group_count(),
        end - start <= chunk_size,
        chunk_size * infos.baby_size <= usize::MAX,
        slots_below(old(ops)@, chunk_size * infos.baby_size),
        is_sound(infos, old(ops)@),
    ensures
        slots_below(final(ops)@, chunk_size * infos.baby_size),
        is_sound(infos, final(ops)@),
        pack_trace(final(ops)@).body == pack_trace(old(ops)@).body,
        pack_trace(final(ops)@).group == pack_trace(old(ops)@).group,
        pack_trace(final(ops)@).last == pack_trace(old(ops)@).last,
        chunk_filled(
            infos,
            pack_trace(final(ops)@).slots,
            start as int,
            end as int,
            infos.baby_size as int,
        ),
        final(ops)@ == old(ops)@ + chunk_products_ops(
            infos,
            start as int,
            end as int,
            infos.baby_size as int,
        ),
{
    let ghost first = ops@;
    let ghost begin = pack_trace(ops@);
    let baby_size: usize = infos.baby_size;
    let mut baby: usize = 0;
    assert(first + chunk_products_ops(infos, start as int, end as int, 0) =~= first);
    while baby < baby_size
        invariant
            infos.wf(),
            baby_size == infos.baby_size,
            start < end <= infos.group_count(),
            end - start <= chunk_size,
            chunk_size * infos.baby_size <= usize::MAX,
            baby <= baby_size,
            slots_below(ops@, chunk_size * infos.baby_size),
            is_sound(infos, ops@),
            pack_trace(ops@).body == begin.body,
            pack_trace(ops@).group == begin.group,
            pack_trace(ops@).last == begin.last,
            chunk_filled(infos, pack_trace(ops@).slots, start as int, end as int, baby as int),
            ops@ == first + chunk_products_ops(infos, start as int, end as int, baby as int),
        decreases baby_size - baby,
    {
        let mut group: usize = start;
        let ghost row = ops@;
        assert(row + baby_products_ops(infos, start as int, start as int, baby as int) =~= row);
        while group < end
            invariant
                infos.wf(),
                baby_size == infos.baby_size,
                start < end <= infos.group_count(),
                end - start <= chunk_size,
                chunk_size * infos.baby_size <= usize::MAX,
                baby < baby_size,
                start <= group <= end,
                slots_below(ops@, chunk_size * infos.baby_size),
                is_sound(infos, ops@),
                pack_trace(ops@).body == begin.body,
                pack_trace(ops@).group == begin.group,
                pack_trace(ops@).last == begin.last,
                chunk_filled(infos, pack_trace(ops@).slots, start as int, end as int, baby as int),
                chunk_filled(
                    infos,
                    pack_trace(ops@).slots,
                    start as int,
                    group as int,
                    baby + 1,
                ),
                ops@ == row + baby_products_ops(infos, start as int, group as int, baby as int),
            decreases end - group,
        {
            let len: usize = infos.bsgs_group_len(group);
            if baby < len {
                let c: usize = group - start;
                proof {
                    lemma_slot_bound(
                        c as int,
                        baby as int,
                        chunk_size as int,
                        baby_size as int,
                    );
                }
                let step: usize = infos.bsgs_group_start_step(group) + baby;
                let slot: usize = c * baby_size + baby;
                let ghost before = ops@;
                ops.push(PackOp::Product { slot, step, baby });
                proof {
                    assert(slot == product_slot(infos, start as int, group as int, baby as int));
                    assert(ops@ =~= row + baby_products_ops(
                        infos,
                        start as int,
                        group + 1,
                        baby as int,
                    ));
                    lemma_trace_push(before, PackOp::Product { slot, step, baby });
                    lemma_sound_push(infos, before, PackOp::Product { slot, step, baby });
                    let slots = pack_trace(before).slots;
                    let after = pack_trace(ops@).slots;
                    assert forall|g: int, b: int|
                        start <= g < end && 0 <= b < baby && b < infos.group_len(
                            g,
                        ) implies after.dom().contains((g - start) * infos.baby_size + b) && after[(g - start)
                        * infos.baby_size + b] == (#[trigger] infos.step_at(g, b), b) by {
                        if (g - start) * infos.baby_size + b == slot {
                            lemma_slot(
                                g - start,
                                b,
                                c as int,
                                baby as int,
                                infos.baby_size as int,
                            );
                        }
                    }
                    assert forall|g: int, b: int|
                        start <= g < group + 1 && 0 <= b < baby + 1 && b < infos.group_len(
                            g,
                        ) implies after.dom().contains((g - start) * infos.baby_size + b) && after[(g - start)
                        * infos.baby_size + b] == (#[trigger] infos.step_at(g, b), b) by {
                        if (g - start) * infos.baby_size + b == slot {
                            lemma_slot(
                                g - start,
                                b,
                                c as int,
                                baby as int,
                                infos.baby_size as int,
                            );
                        }
                    }
                }
            } else {
                proof {
                    assert forall|g: int, b: int|
                        start <= g < group + 1 && 0 <= b < baby + 1 && b < infos.group_len(
                            g,
                        ) implies pack_trace(ops@).slots.dom().contains(
                        (g - start) * infos.baby_size + b,
                    ) && pack_trace(ops@).slots[(g - start) * infos.baby_size + b] == (
                        #[trigger] infos.step_at(g, b),
                        b,
                    ) by {
                        if g == group {
                            assert(b < baby);
                        }
                    }
                }
            }
            group = group + 1;
        }
        assert(ops@ =~= first + chunk_products_ops(infos, start as int, end as int, baby + 1));
        baby = baby + 1;
    }
}

/// Second half of a chunk: sum, view back and add each of the groups `start .. end`.
fn push_chunk_sums(
    infos: PackingPrecomputeInfos,
    ops: &mut Vec<PackOp>,
    start: usize,
    end: usize,
    chunk_size: usize,
)
    requires
        infos.wf(),
        start < end <= infos.group_count(),
        end - start <= chunk_size,
        chunk_size * infos.baby_size <= usize::MAX,
        slots_below(old(ops)@, chunk_size * infos.baby_size),
        is_sound(infos, old(ops)@),
        pack_trace(old(ops)@).body == body_terms(infos, start as int),
        chunk_filled(
            infos,
            pack_trace(old(ops)@).slots,
            start as int,
            end as int,
            infos.baby_size as int,
        ),
    ensures
        slots_below(final(ops)@, chunk_size * infos.baby_size),
        is_sound(infos, final(ops)@),
        pack_trace(final(ops)@).body == body_terms(infos, end as int),
        pack_trace(final(ops)@).last == pack_trace(old(ops)@).last,
        final(ops)@ == old(ops)@ + chunk_sums_ops(infos, start as int, end as int),
{
    let ghost first = ops@;
    let ghost begin = pack_trace(ops@);
    let baby_size: usize = infos.baby_size;
    let mut group: usize = start;
    assert(first + chunk_sums_ops(infos, start as int, start as int) =~= first);
    while group < end
        invariant
            infos.wf(),
            baby_size == infos.baby_size,
            start < end <= infos.group_count(),
            end - start <= chunk_size,
            chunk_size * infos.baby_size <= usize::MAX,
            start <= group <= end,
            slots_below(ops@, chunk_size * infos.baby_size),
            is_sound(infos, ops@),
            pack_trace(ops@).slots == begin.slots,
            pack_trace(ops@).last == begin.last,
            pack_trace(ops@).body == body_terms(infos, group as int),
            chunk_filled(infos, begin.slots, start as int, end as int, infos.baby_size as int),
            ops@ == first + chunk_sums_ops(infos, start as int, group as int),
        decreases end - group,
    {
        let c: usize = group - start;
        let ghost opened = ops@;
        let ghost sums = |babies: int|
            Seq::new(
                babies as nat,
                |b: int| PackOp::AddProduct {
                    slot: product_slot(infos, start as int, group as int, b),
                },
            );
        ops.push(PackOp::ClearGroup);
        proof {
            lemma_trace_push(opened, PackOp::ClearGroup);
            lemma_sound_push(infos, opened, PackOp::ClearGroup);
        }
        let len: usize = infos.bsgs_group_len(group);
        let mut baby: usize = 0;
        while baby < len
            invariant
                infos.wf(),
                baby_size == infos.baby_size,
                start <= group < end <= infos.group_count(),
                end - start <= chunk_size,
                chunk_size * infos.baby_size <= usize::MAX,
                c == group - start,
                len == infos.group_len(group as int),
                len <= baby_size,
                baby <= len,
                slots_below(ops@, chunk_size * infos.baby_size),
                is_sound(infos, ops@),
                pack_trace(ops@).slots == begin.slots,
                pack_trace(ops@).last == begin.last,
                pack_trace(ops@).body == body_terms(infos, group as int),
                pack_trace(ops@).group == group_terms(infos, group as int).subrange(0, baby as int),
                chunk_filled(infos, begin.slots, start as int, end as int, infos.baby_size as int),
                forall|babies: int| #[trigger]
                    sums(babies) == Seq::new(
                        babies as nat,
                        |b: int| PackOp::AddProduct {
                            slot: product_slot(infos, start as int, group as int, b),
                        },
                    ),
                ops@ =~= opened + (seq![PackOp::ClearGroup] + sums(baby as int)),
            decreases len - baby,
        {
            proof {
                lemma_slot_bound(c as int, baby as int, chunk_size as int, baby_size as int);
                assert(begin.slots[(group - start) * infos.baby_size + baby] == (
                    infos.step_at(group as int, baby as int),
                    baby as int,
                ));
            }
            let slot: usize = c * baby_size + baby;
            let ghost before = ops@;
            ops.push(PackOp::AddProduct { slot });
            proof {
                lemma_trace_push(before, PackOp::AddProduct { slot });
                lemma_sound_push(infos, before, PackOp::AddProduct { slot });
                assert(pack_trace(ops@).group =~= group_terms(infos, group as int).subrange(
                    0,
                    baby + 1,
                ));
                assert(sums(baby + 1) =~= sums(baby as int).push(PackOp::AddProduct { slot }));
            }
            baby = baby + 1;
        }
        let ghost before = ops@;
        ops.push(PackOp::CloseGroup { group_idx: group });
        proof {
            lemma_trace_push(before, PackOp::CloseGroup { group_idx: group });
            lemma_sound_push(infos, before, PackOp::CloseGroup { group_idx: group });
            assert(group_terms(infos, group as int).subrange(0, len as int) =~= group_terms(
                infos,
                group as int,
            ));
            assert(pack_trace(ops@).body =~= body_terms(infos, group + 1));
            assert(ops@ =~= opened + group_sum_ops(infos, start as int, group as int));
            assert(ops@ =~= first + chunk_sums_ops(infos, start as int, group + 1));
        }
        group = group + 1;
    }
}

/// Chunks that reach the last group are all the chunks.
proof fn lemma_chunks_done(chunks: int, all: int, chunk_size: int, groups: int)
    requires
        chunk_size >= 1,
        (chunks - 1) * chunk_size < groups,
        (all - 1) * chunk_size < groups <= all * chunk_size,
    ensures
        chunks <= all,
        groups <= chunks * chunk_size ==> chunks == all,
{
    assert(chunks <= all) by (nonlinear_arith)
        requires
            (chunks - 1) * chunk_size < groups,
            groups <= all * chunk_size,
            chunk_size >= 1,
    ;
    if groups <= chunks * chunk_size {
        assert(all <= chunks) by (nonlinear_arith)
            requires
                (all - 1) * chunk_size < groups,
                groups <= chunks * chunk_size,
                chunk_size >= 1,
        ;
    }
}

/// The online program of a packing shape, in chunks of `chunk_size` groups.
///
/// It computes every group's products exactly once ([`law_products_computed_once`]) and
/// closes the groups in order, whatever the chunk size, and ends with the `key_h` product of
/// a full pack. The products live in `chunk_size * baby_size` slots.
pub fn pack_program(infos: PackingPrecomputeInfos, chunk_size: usize) -> (ops: Vec<PackOp>)
    requires
        infos.wf(),
        chunk_size >= 1,
        chunk_size * infos.baby_size <= usize::MAX,
        infos.group_count() + chunk_size <= usize::MAX,
    ensures
        ops@ == program_ops(infos, chunk_size as int),
        slots_below(ops@, chunk_size * infos.baby_size),
        is_sound(infos, ops@),
        pack_trace(ops@).body == body_terms(infos, infos.group_count()),
        pack_trace(ops@).last == (if infos.partial {
            Seq::<int>::empty()
        } else {
            seq![infos.kg_steps()]
        }),
{
    let group_count: usize = infos.bsgs_group_count();
    let mut ops: Vec<PackOp> = Vec::new();
    let mut start: usize = 0;
    let ghost mut chunks: int = 0;
    let ghost all = spec_div_ceil(infos.group_count(), chunk_size as int);
    proof {
        assert(pack_trace(ops@).body =~= body_terms(infos, 0));
        lemma_div_ceil(infos.group_count(), chunk_size as int);
        assert(0 * chunk_size == 0) by (nonlinear_arith);
    }
    while start < group_count
        invariant
            infos.wf(),
            chunk_size >= 1,
            chunk_size * infos.baby_size <= usize::MAX,
            group_count == infos.group_count(),
            infos.group_count() + chunk_size <= usize::MAX,
            start <= group_count,
            slots_below(ops@, chunk_size * infos.baby_size),
            is_sound(infos, ops@),
            pack_trace(ops@).body == body_terms(infos, start as int),
            pack_trace(ops@).last == Seq::<int>::empty(),
            0 <= chunks <= all,
            start < group_count ==> start == chunks * chunk_size,
            start == group_count ==> chunks == all,
            all == spec_div_ceil(infos.group_count(), chunk_size as int),
            all * chunk_size >= group_count,
            group_count > 0 ==> (all - 1) * chunk_size < group_count,
            ops@ == chunks_ops(infos, chunk_size as int, chunks),
        decreases group_count - start,
    {
        let end: usize = min(start + chunk_size, group_count);
        let ghost before = ops@;
        push_chunk_products(infos, &mut ops, start, end, chunk_size);
        push_chunk_sums(infos, &mut ops, start, end, chunk_size);
        proof {
            assert((chunks + 1) * chunk_size == chunks * chunk_size + chunk_size)
                by (nonlinear_arith);
            assert(ops@ =~= before + chunk_ops(infos, start as int, end as int));
            chunks = chunks + 1;
            lemma_chunks_done(chunks, all, chunk_size as int, group_count as int);
        }
        start = end;
    }
    if !infos.partial {
        let step: usize = infos.bsgs_kg_steps();
        let ghost before = ops@;
        ops.push(PackOp::FinalProduct { step });
        proof {
            lemma_trace_push(before, PackOp::FinalProduct { step });
            lemma_sound_push(infos, before, PackOp::FinalProduct { step });
            assert(pack_trace(ops@).last =~= seq![infos.kg_steps()]);
        }
    }
    ops
}

// ---------------------------------------------------------------------------
// What the program computes
// ---------------------------------------------------------------------------

/// Value of a group: its products, summed.
pub open spec fn group_value(
    terms: Seq<(int, int)>,
    product: spec_fn(int, int) -> Poly,
) -> Poly {
    poly_sum(0, terms.len() as int, |i: int| product(terms[i].0, terms[i].1))
}

/// Value of the body contributions: each group viewed back, and summed.
pub open spec fn body_value(
    n: int,
    infos: PackingPrecomputeInfos,
    body: Seq<(int, Seq<(int, int)>)>,
    product: spec_fn(int, int) -> Poly,
) -> Poly {
    poly_sum(
        0,
        body.len() as int,
        |g: int|
            automorphism(
                n,
                infos.giant_automorphism(n, body[g].0),
                group_value(body[g].1, product),
            ),
    )
}

/// Automorphism of collapse step `step`, over both halves.
pub open spec fn step_view(n: int, infos: PackingPrecomputeInfos, step: int) -> int {
    let h = infos.half_steps();
    share_element(n, infos.stride as int, step / h == 1, h - 1 - step % h)
}

proof fn lemma_sum_automorphism(n: int, p: int, lo: int, hi: int, f: spec_fn(int) -> Poly)
    requires
        lo <= hi,
    ensures
        automorphism(n, p, poly_sum(lo, hi, f)) == poly_sum(
            lo,
            hi,
            |i: int| automorphism(n, p, f(i)),
        ),
    decreases hi - lo,
{
    let g = |i: int| automorphism(n, p, f(i));
    if lo < hi {
        lemma_sum_automorphism(n, p, lo, hi - 1, f);
        law_automorphism_adds(n, p, poly_sum(lo, hi - 1, f), f(hi - 1));
        assert(g(hi - 1) == automorphism(n, p, f(hi - 1)));
    } else {
        assert(automorphism(n, p, poly_zero()) =~= poly_zero());
    }
}

pub proof fn lemma_sum_shift(lo: int, len: int, f: spec_fn(int) -> Poly)
    requires
        len >= 0,
    ensures
        poly_sum(0, len, |i: int| f(lo + i)) == poly_sum(lo, lo + len, f),
    decreases len,
{
    let g = |i: int| f(lo + i);
    if len > 0 {
        lemma_sum_shift(lo, len - 1, f);
        assert(g(len - 1) == f(lo + len - 1));
    }
}

pub proof fn lemma_sum_split(lo: int, mid: int, hi: int, f: spec_fn(int) -> Poly)
    requires
        lo <= mid <= hi,
    ensures
        poly_sum(lo, hi, f) == poly_add(poly_sum(lo, mid, f), poly_sum(mid, hi, f)),
    decreases hi - mid,
{
    if mid < hi {
        lemma_sum_split(lo, mid, hi - 1, f);
        assert(poly_sum(lo, hi, f) =~= poly_add(poly_sum(lo, mid, f), poly_sum(mid, hi, f)));
    } else {
        assert(poly_sum(lo, hi, f) =~= poly_add(poly_sum(lo, mid, f), poly_sum(mid, hi, f)));
    }
}

/// The giant view of a group composed with the view of a baby step is the view of
/// the collapse step that they stand for.
pub proof fn law_giant_baby_views_compose(
    n: int,
    infos: PackingPrecomputeInfos,
    group: int,
    baby: int,
)
    requires
        ring_degree(n),
        infos.wf(),
        0 <= group < infos.group_count(),
        0 <= baby < infos.group_len(group),
    ensures
        (infos.giant_automorphism(n, group) * spec_baby_automorphism(n, infos.stride as int, baby))
            % (2 * n) == step_view(n, infos, infos.step_at(group, baby)) % (2 * n),
{
    let m = 2 * n;
    let stride = infos.stride as int;
    let h = infos.half_steps();
    lemma_double_binary(n);
    infos.lemma_group(group);
    let step = infos.step_at(group, baby);
    let off = infos.giant_index(group) * infos.baby_size + baby;
    lemma_quotient(step, h, infos.group_half(group), off);
    let big = infos.giant_target(group);
    let t = h - 1 - off;
    assert(big == t + baby);
    let gb = spec_galois_element(stride * baby, m);
    let gt = spec_galois_element(stride * t, m);
    let gg = spec_galois_element(stride * big, m);
    let w = spec_baby_automorphism(n, stride, baby);
    lemma_share_range(n, stride, false, baby);
    assert(stride * t >= 0 && stride * baby >= 0 && stride * big == stride * t + stride * baby)
        by (nonlinear_arith)
        requires
            stride >= 0,
            t >= 0,
            baby >= 0,
            big == t + baby,
    ;
    lemma_galois_adds(stride * t, stride * baby, m);
    law_galois_inverse(gb, m);
    // gg * w = gt * gb * w = gt (mod m)
    vstd::arithmetic::div_mod::lemma_mul_mod_noop_left(gg, w, m);
    vstd::arithmetic::div_mod::lemma_mul_mod_noop_left(gt * gb, w, m);
    vstd::arithmetic::mul::lemma_mul_is_associative(gt, gb, w);
    vstd::arithmetic::div_mod::lemma_mul_mod_noop_right(gt, gb * w, m);
    assert((gg * w) % m == gt % m);
    if infos.group_half(group) == 1 {
        assert((-gg) * w == -(gg * w)) by (nonlinear_arith);
        crate::ring::lemma_negate_congruent(gg * w, gt, m);
    }
}

/// The steps of a collapse half apply the views that the online program restores.
pub proof fn law_collapse_steps_follow_views(
    n: int,
    infos: PackingPrecomputeInfos,
    steps: Seq<CollapseStep>,
    use_tau_h: bool,
    i: int,
)
    requires
        infos.wf(),
        infos.partial ==> !use_tau_h,
        is_collapse_half(
            steps,
            n,
            infos.half_steps() + 1,
            infos.stride as int,
            use_tau_h,
            if use_tau_h { infos.half_steps() } else { 0 },
        ),
        0 <= i < steps.len(),
    ensures
        steps[i].addend_automorphism == step_view(n, infos, steps[i].step as int),
{
    let h = infos.half_steps();
    let step = steps[i].step as int;
    lemma_quotient(step, h, if use_tau_h { 1 } else { 0 }, i);
}

/// The online program adds to the body what the sequential collapse adds: whatever the
/// products of the mask columns with the `key_g` bodies are, summing their baby-step views
/// under the giant views is summing them under the views of the collapse steps.
pub proof fn law_pack_matches_collapse(
    n: int,
    infos: PackingPrecomputeInfos,
    products: spec_fn(int) -> Poly,
)
    requires
        ring_degree(n),
        infos.wf(),
        infos.complete(),
        forall|step: int| negacyclic(n, #[trigger] products(step)),
    ensures
        body_value(
            n,
            infos,
            body_terms(infos, infos.group_count()),
            |step: int, baby: int|
                automorphism(
                    n,
                    spec_baby_automorphism(n, infos.stride as int, baby),
                    products(step),
                ),
        ) == poly_sum(
            0,
            infos.kg_steps(),
            |step: int| automorphism(n, step_view(n, infos, step), products(step)),
        ),
{
    if infos.group_count() > 0 {
        infos.lemma_groups_contiguous(0);
        lemma_pack_prefix(n, infos, products, infos.group_count());
    } else {
        lemma_no_groups(infos);
    }
}

proof fn lemma_pack_prefix(
    n: int,
    infos: PackingPrecomputeInfos,
    products: spec_fn(int) -> Poly,
    count: int,
)
    requires
        ring_degree(n),
        infos.wf(),
        0 <= count <= infos.group_count(),
        infos.group_count() > 0,
        forall|step: int| negacyclic(n, #[trigger] products(step)),
    ensures
        body_value(
            n,
            infos,
            body_terms(infos, count),
            |step: int, baby: int|
                automorphism(
                    n,
                    spec_baby_automorphism(n, infos.stride as int, baby),
                    products(step),
                ),
        ) == poly_sum(
            0,
            infos.group_start(count),
            |step: int| automorphism(n, step_view(n, infos, step), products(step)),
        ),
    decreases count,
{
    let stride = infos.stride as int;
    let product = |step: int, baby: int|
        automorphism(n, spec_baby_automorphism(n, stride, baby), products(step));
    let target = |step: int| automorphism(n, step_view(n, infos, step), products(step));
    infos.lemma_groups_contiguous(0);
    if count > 0 {
        let g = count - 1;
        lemma_pack_prefix(n, infos, products, g);
        infos.lemma_groups_contiguous(g);
        infos.lemma_group(g);
        let all = body_terms(infos, count);
        let fewer = body_terms(infos, g);
        let f_all = |i: int|
            automorphism(n, infos.giant_automorphism(n, all[i].0), group_value(all[i].1, product));
        let f_few = |i: int|
            automorphism(
                n,
                infos.giant_automorphism(n, fewer[i].0),
                group_value(fewer[i].1, product),
            );
        assert forall|i: int| 0 <= i < g implies #[trigger] f_all(i) == f_few(i) by {
            assert(all[i] == fewer[i]);
        }
        lemma_poly_sum_congruent(0, g, f_all, f_few);
        // the last group
        let giant = infos.giant_automorphism(n, g);
        let terms = group_terms(infos, g);
        let len = infos.group_len(g);
        let start = infos.group_start(g);
        let in_group = |i: int| product(terms[i].0, terms[i].1);
        lemma_sum_automorphism(n, giant, 0, len, in_group);
        let viewed = |i: int| automorphism(n, giant, in_group(i));
        let shifted = |i: int| target(start + i);
        assert forall|b: int| 0 <= b < len implies #[trigger] viewed(b) == shifted(b) by {
            lemma_product_view(n, infos, products, g, b);
            assert(terms[b] == (infos.step_at(g, b), b));
        }
        lemma_poly_sum_congruent(0, len, viewed, shifted);
        lemma_sum_shift(start, len, target);
        lemma_sum_split(0, start, start + len, target);
        assert(all[g] == (g, terms));
        assert(f_all(g) == poly_sum(start, start + len, target));
        assert(0 <= start);
    } else {
        assert(body_terms(infos, 0).len() == 0);
    }
}

/// One product under the giant view is the product of the collapse step under its
/// own view.
proof fn lemma_product_view(
    n: int,
    infos: PackingPrecomputeInfos,
    products: spec_fn(int) -> Poly,
    group: int,
    baby: int,
)
    requires
        ring_degree(n),
        infos.wf(),
        0 <= group < infos.group_count(),
        0 <= baby < infos.group_len(group),
        forall|step: int| negacyclic(n, #[trigger] products(step)),
    ensures
        ({
            let w = spec_baby_automorphism(n, infos.stride as int, baby);
            let step = infos.step_at(group, baby);
            automorphism(
                n,
                infos.giant_automorphism(n, group),
                automorphism(n, w, products(step)),
            ) == automorphism(n, step_view(n, infos, step), products(step))
        }),
{
    let w = spec_baby_automorphism(n, infos.stride as int, baby);
    let step = infos.step_at(group, baby);
    let giant = infos.giant_automorphism(n, group);
    lemma_double_binary(n);
    lemma_share_range(n, infos.stride as int, false, baby);
    assert(odd(w));
    let p = products(step);
    assert(negacyclic(n, p));
    law_automorphism_composes(n, giant, w, p);
    law_giant_baby_views_compose(n, infos, group, baby);
    law_automorphism_congruent(n, giant * w, step_view(n, infos, step), p);
}

/// The baby-step view of a product is the product of the factors seen in that way: in a
/// product that automorphisms pass through, the mask column and the key body may both be
/// viewed beforehand.
pub proof fn law_viewed_factors_give_viewed_product(
    n: int,
    stride: int,
    baby: int,
    times: spec_fn(Poly, Poly) -> Poly,
    mask: Poly,
    key: Poly,
)
    requires
        ring_degree(n),
        stride >= 0,
        baby >= 0,
        equivariant_product(n, times),
        negacyclic(n, mask),
        negacyclic(n, key),
    ensures
        times(
            automorphism(n, spec_baby_automorphism(n, stride, baby), mask),
            automorphism(n, spec_baby_automorphism(n, stride, baby), key),
        ) == automorphism(n, spec_baby_automorphism(n, stride, baby), times(mask, key)),
{
    let w = spec_baby_automorphism(n, stride, baby);
    lemma_double_binary(n);
    lemma_share_range(n, stride, false, baby);
    assert(odd(w));
}

/// However the groups are chunked, an online program computes the product of every collapse
/// step exactly once, closes the groups in order with the products of all of their steps, and
/// ends with the final product of a full pack.
pub proof fn law_programs_compute_every_step_once(
    infos: PackingPrecomputeInfos,
    chunk_size: usize,
    ops: Vec<PackOp>,
    step: int,
    group: int,
    baby: int,
)
    requires
        infos.wf(),
        chunk_size >= 1,
        call_ensures(pack_program, (infos, chunk_size), ops),
        0 <= step < infos.halves() * infos.half_steps(),
        0 <= group < infos.group_count(),
        0 <= baby < infos.group_len(group),
    ensures
        product_count(ops@, step) == 1,
        pack_trace(ops@).body.len() == infos.group_count(),
        pack_trace(ops@).body[group].0 == group,
        pack_trace(ops@).body[group].1.len() == infos.group_len(group),
        pack_trace(ops@).body[group].1[baby] == (infos.group_start(group) + baby, baby),
        infos.partial ==> pack_trace(ops@).last.len() == 0,
        !infos.partial ==> pack_trace(ops@).last == seq![infos.steps - 1],
{
    law_products_computed_once(infos, chunk_size as int, step);
}

} // verus!
