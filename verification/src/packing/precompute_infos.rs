//! Shape of the fixed mask-side precomputation and its baby-step/giant-step
//! grouping.
//!
//! The collapse runs over `kg_steps` key-switch steps, split into one half (partial
//! packing) or two (full packing). The online pass regroups each half into giant
//! steps of `baby_size` baby steps; only the last group of a half can be shorter.

use vstd::prelude::*;
use vstd::arithmetic::div_mod::*;
use crate::arith::{
    div_ceil, just_enough, lemma_div_ceil, lemma_just_enough, lemma_quotient, max, min,
    spec_div_ceil, spec_max, spec_min,
};

verus! {

/// Limb width at which the coefficient-domain precompute runs.
pub const PACK_PRECOMPUTE_ARITHMETIC_BASE2K: usize = 50;

/// Shape metadata for fixed mask-side packing precomputations.
#[derive(Clone, Copy, Debug, PartialEq, Eq, Structural)]
pub struct PackingPrecomputeInfos {
    /// Total stored mask steps, including the final `key_h` step of a full pack.
    pub steps: usize,
    /// Number of limbs in each stored mask column.
    pub size: usize,
    /// Base used when normalizing big products back into coefficient buffers.
    pub base2k: usize,
    /// Number of baby steps per giant-step group.
    pub baby_size: usize,
    /// Exponent of the generator `5^stride` that the collapse walks.
    pub stride: usize,
    /// Whether this is a partial pack: one half, and no `key_h` step.
    pub partial: bool,
}

impl PackingPrecomputeInfos {
    /// Shape of a full pack.
    pub fn new(steps: usize, size: usize, base2k: usize, baby_size: usize) -> (r: Self)
        ensures
            r == (PackingPrecomputeInfos { steps, size, base2k, baby_size, stride: 1, partial: false }),
    {
        PackingPrecomputeInfos { steps, size, base2k, baby_size, stride: 1, partial: false }
    }

    /// Shape of a partial pack over the generator `5^stride`.
    pub fn new_partial(
        steps: usize,
        size: usize,
        base2k: usize,
        baby_size: usize,
        stride: usize,
    ) -> (r: Self)
        ensures
            r == (PackingPrecomputeInfos { steps, size, base2k, baby_size, stride, partial: true }),
    {
        PackingPrecomputeInfos { steps, size, base2k, baby_size, stride, partial: true }
    }

    /// Total stored mask steps.
    pub fn steps(self) -> (r: usize)
        ensures
            r == self.steps,
    {
        self.steps
    }

    /// Number of limbs in each stored mask column.
    pub fn size(self) -> (r: usize)
        ensures
            r == self.size,
    {
        self.size
    }

    /// Normalization base shared by fixed-mask precompute and online output.
    pub fn base2k(self) -> (r: usize)
        ensures
            r == self.base2k,
    {
        self.base2k
    }

    /// Number of baby steps per giant-step group.
    pub fn baby_size(self) -> (r: usize)
        ensures
            r == self.baby_size,
    {
        self.baby_size
    }

    /// Exponent of the generator that the collapse walks.
    pub fn stride(self) -> (r: usize)
        ensures
            r == self.stride,
    {
        self.stride
    }

    /// Whether this shape is a partial pack.
    pub fn partial(self) -> (r: bool)
        ensures
            r == self.partial,
    {
        self.partial
    }

    /// A shape the grouping is defined on: at least one step and one baby step.
    pub open spec fn wf(self) -> bool {
        self.steps >= 1 && self.baby_size >= 1
    }

    /// Number of halves of the collapse.
    pub open spec fn halves(self) -> int {
        if self.partial { 1 } else { 2 }
    }

    pub open spec fn kg_steps(self) -> int {
        if self.partial { self.steps as int } else { self.steps - 1 }
    }

    pub open spec fn half_steps(self) -> int {
        self.kg_steps() / self.halves()
    }

    pub open spec fn groups_per_half(self) -> int {
        spec_div_ceil(self.half_steps(), self.baby_size as int)
    }

    pub open spec fn group_count(self) -> int {
        self.halves() * self.groups_per_half()
    }

    /// Position of a group within its half.
    pub open spec fn giant_index(self, group: int) -> int {
        group % self.groups_per_half()
    }

    pub open spec fn group_half(self, group: int) -> int {
        group / self.groups_per_half()
    }

    pub open spec fn group_start(self, group: int) -> int {
        self.group_half(group) * self.half_steps() + self.giant_index(group) * self.baby_size
    }

    pub open spec fn group_len(self, group: int) -> int {
        spec_min(
            self.half_steps() - self.giant_index(group) * self.baby_size,
            self.baby_size as int,
        )
    }

    /// Collapse step at baby step `baby` of a group.
    pub open spec fn step_at(self, group: int, baby: int) -> int {
        self.group_start(group) + baby
    }

    /// Group that holds collapse step `step`.
    pub open spec fn group_of(self, step: int) -> int {
        (step / self.half_steps()) * self.groups_per_half() + (step % self.half_steps()) / (
        self.baby_size as int)
    }

    /// Baby step at which the group of `step` holds it.
    pub open spec fn baby_of(self, step: int) -> int {
        (step % self.half_steps()) % (self.baby_size as int)
    }

    /// Number of `key_g` collapse steps.
    pub fn bsgs_kg_steps(self) -> (r: usize)
        requires
            self.wf(),
        ensures
            r == self.kg_steps(),
    {
        if self.partial {
            self.steps
        } else {
            self.steps - 1
        }
    }

    /// Number of `key_g` steps in each half.
    pub fn bsgs_half_steps(self) -> (r: usize)
        requires
            self.wf(),
        ensures
            r == self.half_steps(),
    {
        let kg: usize = self.bsgs_kg_steps();
        if self.partial {
            proof {
                lemma_div_by_self(1);
                assert(self.kg_steps() / 1 == self.kg_steps());
            }
            kg
        } else {
            kg / 2
        }
    }

    /// Number of giant-step groups in one half.
    pub fn bsgs_groups_per_half(self) -> (r: usize)
        requires
            self.wf(),
        ensures
            r == self.groups_per_half(),
            r <= self.half_steps(),
    {
        div_ceil(self.bsgs_half_steps(), self.baby_size)
    }

    /// Total number of giant-step groups.
    pub fn bsgs_group_count(self) -> (r: usize)
        requires
            self.wf(),
        ensures
            r == self.group_count(),
    {
        let per_half: usize = self.bsgs_groups_per_half();
        if self.partial {
            per_half
        } else {
            2 * per_half
        }
    }

    /// First collapse step covered by `group_idx`.
    pub fn bsgs_group_start_step(self, group_idx: usize) -> (r: usize)
        requires
            self.wf(),
            group_idx < self.group_count(),
        ensures
            r == self.group_start(group_idx as int),
            r < self.kg_steps(),
    {
        proof {
            self.lemma_group(group_idx as int);
        }
        let per_half: usize = self.bsgs_groups_per_half();
        let half: usize = self.bsgs_half_steps();
        let half_idx: usize = group_idx / per_half;
        let giant_idx: usize = group_idx % per_half;
        half_idx * half + giant_idx * self.baby_size
    }

    /// Number of live baby steps in `group_idx`.
    pub fn bsgs_group_len(self, group_idx: usize) -> (r: usize)
        requires
            self.wf(),
            group_idx < self.group_count(),
        ensures
            r == self.group_len(group_idx as int),
            1 <= r <= self.baby_size,
            self.group_start(group_idx as int) + r <= self.kg_steps(),
    {
        proof {
            self.lemma_group(group_idx as int);
        }
        let half: usize = self.bsgs_half_steps();
        let start_in_half: usize = self.bsgs_group_start_step(group_idx) % half;
        min(half - start_in_half, self.baby_size)
    }

    /// Facts about one group: it lies within its half.
    pub proof fn lemma_group(self, group: int)
        requires
            self.wf(),
            0 <= group < self.group_count(),
        ensures
            self.half_steps() >= 1,
            self.groups_per_half() >= 1,
            0 <= self.group_half(group) < self.halves(),
            0 <= self.giant_index(group) < self.groups_per_half(),
            group == self.group_half(group) * self.groups_per_half() + self.giant_index(group),
            0 <= self.giant_index(group) * self.baby_size < self.half_steps(),
            1 <= self.group_len(group) <= self.baby_size,
            0 <= self.group_half(group) * self.half_steps(),
            self.group_start(group) + self.group_len(group) <= self.halves() * self.half_steps(),
            self.halves() * self.half_steps() <= self.kg_steps(),
            self.group_start(group) % self.half_steps() == self.giant_index(group) * self.baby_size,
            self.group_start(group) / self.half_steps() == self.group_half(group),
    {
        let h = self.half_steps();
        let bs = self.baby_size as int;
        let per = self.groups_per_half();
        let halves = self.halves();
        assert(h >= 0) by {
            lemma_div_pos_is_pos(self.kg_steps(), halves);
        }
        lemma_div_ceil(h, bs);
        assert(per >= 1) by (nonlinear_arith)
            requires
                0 <= group < halves * per,
                halves >= 1,
                per >= 0,
        ;
        lemma_fundamental_div_mod(group, per);
        lemma_mod_pos_bound(group, per);
        lemma_div_pos_is_pos(group, per);
        let q = group / per;
        let r = group % per;
        assert(q < halves) by (nonlinear_arith)
            requires
                group == per * q + r,
                group < halves * per,
                r >= 0,
                per >= 1,
        ;
        assert(per * q == q * per) by (nonlinear_arith);
        assert(r * bs <= (per - 1) * bs) by (nonlinear_arith)
            requires
                r <= per - 1,
                bs >= 1,
        ;
        assert(r * bs >= 0) by (nonlinear_arith)
            requires
                r >= 0,
                bs >= 1,
        ;
        assert(q * h >= 0 && q * h + h <= halves * h) by (nonlinear_arith)
            requires
                0 <= q,
                q + 1 <= halves,
                h >= 0,
        ;
        lemma_fundamental_div_mod(self.kg_steps(), halves);
        lemma_mod_pos_bound(self.kg_steps(), halves);
        lemma_quotient(q * h + r * bs, h, q, r * bs);
    }

    /// The groups tile the collapse: every step lies in exactly one group, at
    /// exactly one baby step.
    pub proof fn law_groups_tile_steps(self, step: int)
        requires
            self.wf(),
            0 <= step < self.halves() * self.half_steps(),
        ensures
            0 <= self.group_of(step) < self.group_count(),
            0 <= self.baby_of(step) < self.group_len(self.group_of(step)),
            self.step_at(self.group_of(step), self.baby_of(step)) == step,
            forall|group: int, baby: int|
                0 <= group < self.group_count() && 0 <= baby < self.group_len(group)
                    && #[trigger] self.step_at(group, baby) == step ==> group == self.group_of(step)
                    && baby == self.baby_of(step),
    {
        let h = self.half_steps();
        let bs = self.baby_size as int;
        let per = self.groups_per_half();
        let halves = self.halves();
        lemma_div_pos_is_pos(self.kg_steps(), halves);
        assert(h >= 1) by (nonlinear_arith)
            requires
                0 <= step < halves * h,
                halves >= 1,
                h >= 0,
        ;
        lemma_div_ceil(h, bs);
        let half = step / h;
        let i = step % h;
        lemma_fundamental_div_mod(step, h);
        lemma_mod_pos_bound(step, h);
        lemma_div_pos_is_pos(step, h);
        assert(half < halves) by (nonlinear_arith)
            requires
                step == h * half + i,
                step < halves * h,
                i >= 0,
                h >= 1,
        ;
        let giant = i / bs;
        let baby = i % bs;
        lemma_fundamental_div_mod(i, bs);
        lemma_mod_pos_bound(i, bs);
        lemma_div_pos_is_pos(i, bs);
        assert(giant < per) by (nonlinear_arith)
            requires
                i == bs * giant + baby,
                i < h,
                h <= per * bs,
                baby >= 0,
                bs >= 1,
        ;
        let group = half * per + giant;
        assert(0 <= group < halves * per) by (nonlinear_arith)
            requires
                group == half * per + giant,
                0 <= giant < per,
                0 <= half < halves,
        ;
        lemma_quotient(group, per, half, giant);
        assert(self.giant_index(group) == giant && self.group_half(group) == half);
        assert(h * half == half * h && bs * giant == giant * bs) by (nonlinear_arith);
        assert forall|g2: int, b2: int|
            0 <= g2 < self.group_count() && 0 <= b2 < self.group_len(g2)
                && #[trigger] self.step_at(g2, b2) == step implies g2 == group && b2 == baby by {
            self.lemma_group(g2);
            let q2 = self.group_half(g2);
            let r2 = self.giant_index(g2);
            let off = r2 * bs + b2;
            assert(0 <= off < h);
            lemma_quotient(step, h, q2, off);
            lemma_quotient(i, bs, r2, b2);
        }
    }
}

/// Limb count of the widened arithmetic: enough for all bits, and at least one.
pub open spec fn spec_arithmetic_size(metadata: PackingPrecomputeInfos) -> int {
    spec_max(
        1,
        spec_div_ceil(
            metadata.size * metadata.base2k,
            spec_max(PACK_PRECOMPUTE_ARITHMETIC_BASE2K as int, metadata.base2k as int),
        ),
    )
}

/// Metadata used by the coefficient-domain fixed-mask precompute arithmetic.
pub fn arithmetic_precompute_metadata(metadata: PackingPrecomputeInfos) -> (r: PackingPrecomputeInfos)
    requires
        metadata.size * metadata.base2k <= usize::MAX,
    ensures
        r.base2k == spec_max(PACK_PRECOMPUTE_ARITHMETIC_BASE2K as int, metadata.base2k as int),
        r.size == spec_arithmetic_size(metadata),
        r.steps == metadata.steps,
        r.baby_size == metadata.baby_size,
        r.stride == metadata.stride,
        r.partial == metadata.partial,
        r.size * r.base2k >= metadata.size * metadata.base2k,
{
    let base2k: usize = max(PACK_PRECOMPUTE_ARITHMETIC_BASE2K, metadata.base2k);
    assert(metadata.size * metadata.base2k >= 0) by (nonlinear_arith)
        requires
            metadata.size >= 0,
            metadata.base2k >= 0,
    ;
    let torus_bits: usize = metadata.size * metadata.base2k;
    let limbs: usize = div_ceil(torus_bits, base2k);
    let size: usize = max(limbs, 1);
    proof {
        lemma_div_ceil(torus_bits as int, base2k as int);
        assert(size * base2k >= limbs * base2k) by (nonlinear_arith)
            requires
                size >= limbs,
                base2k >= 0,
        ;
    }
    PackingPrecomputeInfos {
        steps: metadata.steps,
        size,
        base2k,
        baby_size: metadata.baby_size,
        stride: metadata.stride,
        partial: metadata.partial,
    }
}

/// The steps of the collapse fall into halves and groups: all but the last step of a full
/// pack, in two halves, and all of a partial one, in one; just enough groups of baby steps per
/// half, each full but for the last of its half, one behind the other.
pub proof fn law_groups_divide_steps(
    infos: PackingPrecomputeInfos,
    steps: usize,
    half: usize,
    per_half: usize,
    groups: usize,
    g: usize,
    start: usize,
    len: usize,
)
    requires
        infos.wf(),
        call_ensures(PackingPrecomputeInfos::bsgs_kg_steps, (infos,), steps),
        call_ensures(PackingPrecomputeInfos::bsgs_half_steps, (infos,), half),
        call_ensures(PackingPrecomputeInfos::bsgs_groups_per_half, (infos,), per_half),
        call_ensures(PackingPrecomputeInfos::bsgs_group_count, (infos,), groups),
        g < groups,
        call_ensures(PackingPrecomputeInfos::bsgs_group_start_step, (infos, g), start),
        call_ensures(PackingPrecomputeInfos::bsgs_group_len, (infos, g), len),
    ensures
        steps == (if infos.partial { infos.steps as int } else { infos.steps - 1 }),
        half == (if infos.partial { steps as int } else { steps as int / 2 }),
        just_enough(per_half as int, infos.baby_size as int, half as int),
        groups == (if infos.partial { per_half as int } else { 2 * per_half }),
        g < per_half ==> start == g * infos.baby_size,
        g >= per_half ==> start == half + (g - per_half) * infos.baby_size,
        (g + 1 == per_half || g + 1 == groups) ==> start + len == (if g < per_half {
            half as int
        } else {
            2 * half
        }),
        !(g + 1 == per_half || g + 1 == groups) ==> len == infos.baby_size,
        1 <= len <= infos.baby_size,
{
    let bs = infos.baby_size as int;
    let per = infos.groups_per_half();
    let h = infos.half_steps();
    let halves = infos.halves();
    assert(infos.kg_steps() / 1 == infos.kg_steps());
    lemma_div_pos_is_pos(infos.kg_steps(), halves);
    lemma_just_enough(per_half as int, bs, half as int);
    lemma_div_ceil(h, bs);
    assert(per >= 1) by (nonlinear_arith)
        requires
            0 <= g < halves * per,
            halves >= 1,
            per >= 0,
    ;
    if g < per {
        lemma_quotient(g as int, per, 0, g as int);
        assert(0 * h == 0);
    } else {
        lemma_quotient(g as int, per, 1, g - per);
        assert(1 * h == h);
    }
    let i = infos.giant_index(g as int);
    assert((per - 1) * bs == per * bs - bs && (i + 1) * bs == i * bs + bs) by (nonlinear_arith);
    if i + 1 < per {
        assert((i + 1) * bs <= (per - 1) * bs) by (nonlinear_arith)
            requires
                i + 1 <= per - 1,
                bs >= 1,
        ;
    } else {
        assert(i * bs == (per - 1) * bs);
    }
}

/// Wide arithmetic changes the limbs alone: just enough of the wider ones for all bits.
pub proof fn law_wide_limbs_hold_all_bits(
    infos: PackingPrecomputeInfos,
    wide: PackingPrecomputeInfos,
)
    requires
        infos.size * infos.base2k <= usize::MAX,
        call_ensures(arithmetic_precompute_metadata, (infos,), wide),
    ensures
        wide.base2k == (if infos.base2k >= 50 {
            infos.base2k
        } else {
            50
        }),
        infos.size * infos.base2k >= 1 ==> just_enough(
            wide.size as int,
            wide.base2k as int,
            infos.size * infos.base2k,
        ),
        infos.size * infos.base2k == 0 ==> wide.size == 1,
        wide.steps == infos.steps && wide.baby_size == infos.baby_size && wide.stride
            == infos.stride && wide.partial == infos.partial,
{
    assert(infos.size * infos.base2k >= 0) by (nonlinear_arith)
        requires
            infos.size >= 0,
            infos.base2k >= 0,
    ;
    lemma_div_ceil(infos.size * infos.base2k, wide.base2k as int);
    lemma_just_enough(wide.size as int, wide.base2k as int, infos.size * infos.base2k);
}

} // verus!
