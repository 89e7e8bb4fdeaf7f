//! Aggregation of the masks of `n` LWE ciphertexts into the components that the
//! collapse folds.
//!
//! Component `j` of the first half is the sum over the rows `k` of
//! `X^k * tau(a_k)`, where `a_k` is row `k` read backwards (`X -> X^-1`) and `tau`
//! is the automorphism of the share that masks the component. The sum is formed
//! by a binary-counter tree, so that `log2(n)` partial sums are live at a time.

use vstd::prelude::*;
use vstd::arithmetic::div_mod::*;
use vstd::arithmetic::mul::*;
use vstd::arithmetic::power2::*;
use crate::arith::{
    div_ceil, just_enough, lemma_div_ceil, lemma_just_enough, lemma_quotient, max, next_multiple_of,
    spec_div_ceil, spec_max, spec_next_multiple,
};
use crate::packing::collapse::{lemma_poly_sum_congruent, ring_degree, secret_view, share_element};
use crate::packing::trace::{aggregate_component, reversed};
use crate::ring::{
    automorphism, law_automorphism_composes, lemma_pow2_double, poly_add, poly_sum, poly_zero, rotate,
    Poly,
};

verus! {

/// Limb width at which masks are aggregated.
pub const MASK_PREPROCESSING_ARITHMETIC_BASE2K: usize = 60;

/// Scratch buffers are aligned to this many bytes.
pub const SCRATCH_ALIGN: usize = 64;

/// Limb width of the aggregation for masks stored at `base2k`.
pub fn mask_preprocessing_arithmetic_base2k(base2k: usize) -> (r: usize)
    ensures
        r == spec_max(MASK_PREPROCESSING_ARITHMETIC_BASE2K as int, base2k as int),
{
    max(MASK_PREPROCESSING_ARITHMETIC_BASE2K, base2k)
}

/// Limb count of the aggregation: enough for `size * base2k` bits, and at least one.
pub fn mask_preprocessing_arithmetic_size(size: usize, base2k: usize) -> (r: usize)
    requires
        size * base2k <= usize::MAX,
    ensures
        r == spec_max(
            1,
            spec_div_ceil(
                size * base2k,
                spec_max(MASK_PREPROCESSING_ARITHMETIC_BASE2K as int, base2k as int),
            ),
        ),
{
    assert(size * base2k >= 0) by (nonlinear_arith)
        requires
            size >= 0,
            base2k >= 0,
    ;
    let width: usize = mask_preprocessing_arithmetic_base2k(base2k);
    max(div_ceil(size * base2k, width), 1)
}

// ---------------------------------------------------------------------------
// The binary-counter tree
// ---------------------------------------------------------------------------

/// Number of occupied levels from `level` upwards before the first free one.
pub open spec fn first_free(occupied: Seq<bool>, level: int) -> int
    decreases occupied.len() - level,
{
    if level < 0 || level >= occupied.len() || !occupied[level] {
        level
    } else {
        first_free(occupied, level + 1)
    }
}

/// Occupancy after one more leaf.
pub open spec fn occupancy_after(occupied: Seq<bool>) -> Seq<bool> {
    let free = first_free(occupied, 0);
    Seq::new(
        occupied.len(),
        |j: int|
            if j < free {
                false
            } else if j == free {
                true
            } else {
                occupied[j]
            },
    )
}

/// Streams one leaf into the tree: the occupied levels below the returned one are
/// merged into the leaf and freed. The result is stored at the returned level, or
/// leaves the tree when that is the number of levels.
pub fn binary_tree_step(occupied: &mut Vec<bool>) -> (level: usize)
    ensures
        final(occupied)@ == occupancy_after(old(occupied)@),
        level == first_free(old(occupied)@, 0),
        level <= old(occupied)@.len(),
{
    let levels: usize = occupied.len();
    let mut level: usize = 0;
    while level < levels && occupied[level]
        invariant
            levels == occupied.len(),
            occupied.len() == old(occupied).len(),
            0 <= level <= levels,
            first_free(old(occupied)@, 0) == first_free(old(occupied)@, level as int),
            forall|j: int| 0 <= j < level ==> old(occupied)@[j],
            forall|j: int| 0 <= j < level ==> !#[trigger] occupied@[j],
            forall|j: int| level <= j < levels ==> #[trigger] occupied@[j] == old(occupied)@[j],
        decreases levels - level,
    {
        occupied.set(level, false);
        level = level + 1;
    }
    if level < levels {
        occupied.set(level, true);
    }
    proof {
        assert(occupied@ =~= occupancy_after(old(occupied)@));
    }
    level
}

/// `2^level` divides `count`, and `level` is the largest such level up to `levels`.
pub open spec fn is_merge_level(count: int, level: int, levels: int) -> bool {
    &&& 0 <= level <= levels
    &&& count % (pow2(level as nat) as int) == 0
    &&& level < levels ==> count % (pow2((level + 1) as nat) as int) != 0
}

/// Occupancy of the tree after `count` leaves: the binary digits of `count`.
pub open spec fn occupancy(count: int, levels: int) -> Seq<bool> {
    Seq::new(levels as nat, |j: int| (count / (pow2(j as nat) as int)) % 2 == 1)
}

/// One more leaf advances the binary counter.
proof fn lemma_occupancy_step(count: int, levels: int)
    requires
        0 <= levels,
        0 <= count,
    ensures
        first_free(occupancy(count, levels), 0) <= levels,
        is_merge_level(count + 1, first_free(occupancy(count, levels), 0), levels),
        occupancy_after(occupancy(count, levels)) == occupancy(count + 1, levels),
{
    let occ = occupancy(count, levels);
    lemma_pow0_is_one();
    lemma_first_free(count, levels, 0);
    let free = first_free(occ, 0);
    assert forall|j: int| 0 <= j < levels implies #[trigger] occupancy_after(occ)[j] == occupancy(
        count + 1,
        levels,
    )[j] by {
        lemma_digit_step(count, free, j, levels);
    }
    assert(occupancy_after(occ) =~= occupancy(count + 1, levels));
}

proof fn lemma_pow0_is_one()
    ensures
        pow2(0) == 1,
{
    vstd::arithmetic::power::lemma_pow0(2);
}

/// The digits below the first free level are ones.
proof fn lemma_first_free(count: int, levels: int, level: int)
    requires
        0 <= count,
        0 <= level <= levels,
        count % (pow2(level as nat) as int) == pow2(level as nat) - 1,
    ensures
        level <= first_free(occupancy(count, levels), level) <= levels,
        is_merge_level(count + 1, first_free(occupancy(count, levels), level), levels),
        count % (pow2(first_free(occupancy(count, levels), level) as nat) as int) == pow2(
            first_free(occupancy(count, levels), level) as nat,
        ) - 1,
        ({
            let free = first_free(occupancy(count, levels), level);
            free < levels ==> (count / (pow2(free as nat) as int)) % 2 == 0
        }),
    decreases levels - level,
{
    let p = pow2(level as nat) as int;
    lemma_pow2_double(level as nat);
    let q = count / p;
    lemma_fundamental_div_mod(count, p);
    lemma_mod_pos_bound(count, p);
    // count = p q + p - 1
    assert(count + 1 == p * (q + 1)) by (nonlinear_arith)
        requires
            count == p * q + p - 1,
    ;
    lemma_mod_multiples_basic(q + 1, p);
    assert(p * (q + 1) == (q + 1) * p) by (nonlinear_arith);
    if level < levels {
        let h = q / 2;
        if q % 2 == 1 {
            assert(count == (2 * p) * h + (2 * p - 1)) by (nonlinear_arith)
                requires
                    count == p * q + p - 1,
                    q == 2 * h + 1,
            ;
            lemma_quotient(count, 2 * p, h, 2 * p - 1);
            assert(occupancy(count, levels)[level]);
            lemma_first_free(count, levels, level + 1);
        } else {
            assert(count + 1 == (2 * p) * h + p) by (nonlinear_arith)
                requires
                    count == p * q + p - 1,
                    q == 2 * h,
            ;
            lemma_quotient(count + 1, 2 * p, h, p);
            assert(!occupancy(count, levels)[level]);
        }
    }
}

/// How one binary digit changes when the counter advances.
proof fn lemma_digit_step(count: int, free: int, j: int, levels: int)
    requires
        0 <= count,
        0 <= j < levels,
        0 <= free <= levels,
        count % (pow2(free as nat) as int) == pow2(free as nat) - 1,
        free < levels ==> (count / (pow2(free as nat) as int)) % 2 == 0,
    ensures
        ((count + 1) / (pow2(j as nat) as int)) % 2 == 1 <==> (if j < free {
            false
        } else if j == free {
            true
        } else {
            (count / (pow2(j as nat) as int)) % 2 == 1
        }),
{
    let p = pow2(free as nat) as int;
    let pj = pow2(j as nat) as int;
    lemma_pow2_pos(free as nat);
    lemma_pow2_pos(j as nat);
    lemma_fundamental_div_mod(count, p);
    let q = count / p;
    assert(count + 1 == p * (q + 1)) by (nonlinear_arith)
        requires
            count == p * q + p - 1,
    ;
    lemma_div_pos_is_pos(count, p);
    if j < free {
        // p is a multiple of 2 pj
        lemma_pow2_adds((j + 1) as nat, (free - j - 1) as nat);
        lemma_pow2_double(j as nat);
        let c = pow2((free - j - 1) as nat) as int;
        assert(p == 2 * pj * c);
        let z = c * (q + 1);
        assert(count + 1 == pj * (2 * z)) by (nonlinear_arith)
            requires
                count + 1 == p * (q + 1),
                p == 2 * pj * c,
                z == c * (q + 1),
        ;
        lemma_quotient(count + 1, pj, 2 * z, 0);
    } else if j == free {
        lemma_quotient(count + 1, p, q + 1, 0);
    } else {
        // pj = p * d with d even; (count + 1) / pj = (q + 1) / d = q / d
        lemma_pow2_adds(free as nat, (j - free) as nat);
        lemma_pow2_double((j - free - 1) as nat);
        let d = pow2((j - free) as nat) as int;
        let e = pow2((j - free - 1) as nat) as int;
        assert(pj == p * d && d == 2 * e && e >= 1);
        lemma_div_denominator(count, p, d);
        lemma_div_denominator(count + 1, p, d);
        lemma_quotient(count + 1, p, q + 1, 0);
        // q even, d even, so q + 1 does not reach the next multiple of d
        let f = q / d;
        let r = q % d;
        lemma_fundamental_div_mod(q, d);
        lemma_mod_pos_bound(q, d);
        assert(r % 2 == 0) by {
            lemma_mod_mod(q, 2, e);
        }
        assert(r + 1 < d);
        lemma_quotient(q + 1, d, f, r + 1);
    }
}

/// Merge levels of `2^levels` leaves streamed into an empty tree, in order.
///
/// Leaf `k` merges the levels below the largest power of two that divides `k + 1`;
/// only the last leaf leaves the tree, which is then empty again.
pub fn mask_tree_schedule(levels: usize) -> (schedule: Vec<usize>)
    requires
        pow2(levels as nat) <= usize::MAX,
    ensures
        schedule.len() == pow2(levels as nat),
        forall|k: int|
            0 <= k < schedule.len() ==> is_merge_level(
                k + 1,
                #[trigger] schedule@[k] as int,
                levels as int,
            ),
{
    let mut count: usize = 1;
    let mut i: usize = 0;
    let mut occupied: Vec<bool> = Vec::new();
    proof {
        lemma_pow0_is_one();
    }
    while i < levels
        invariant
            i <= levels,
            pow2(levels as nat) <= usize::MAX,
            count == pow2(i as nat),
            occupied@ == Seq::new(i as nat, |j: int| false),
        decreases levels - i,
    {
        proof {
            lemma_pow2_double(i as nat);
            if i + 1 < levels {
                lemma_pow2_strictly_increases((i + 1) as nat, levels as nat);
            }
        }
        count = count * 2;
        occupied.push(false);
        i = i + 1;
        assert(occupied@ =~= Seq::new(i as nat, |j: int| false));
    }
    let mut schedule: Vec<usize> = Vec::new();
    let mut k: usize = 0;
    proof {
        assert forall|j: int| 0 <= j < levels implies !#[trigger] occupancy(0, levels as int)[j] by {
            lemma_pow2_pos(j as nat);
            lemma_div_of0(pow2(j as nat) as int);
        }
        assert(occupied@ =~= occupancy(0, levels as int));
    }
    while k < count
        invariant
            count == pow2(levels as nat),
            k <= count,
            schedule.len() == k,
            occupied@ == occupancy(k as int, levels as int),
            forall|j: int|
                0 <= j < k ==> is_merge_level(j + 1, #[trigger] schedule@[j] as int, levels as int),
        decreases count - k,
    {
        proof {
            lemma_occupancy_step(k as int, levels as int);
        }
        let level: usize = binary_tree_step(&mut occupied);
        schedule.push(level);
        k = k + 1;
    }
    schedule
}

// ---------------------------------------------------------------------------
// What the tree computes
// ---------------------------------------------------------------------------

/// Partial sums held by the tree, and the sum that has left it.
pub struct TreeState {
    pub tree: Seq<Poly>,
    pub out: Option<Poly>,
}

/// A leaf with the levels below `level` merged into it.
pub open spec fn merged_leaf(tree: Seq<Poly>, leaf: Poly, level: int) -> Poly
    decreases level,
{
    if level <= 0 {
        leaf
    } else {
        poly_add(merged_leaf(tree, leaf, level - 1), tree[level - 1])
    }
}

/// The tree after a leaf that merges up to `level`.
pub open spec fn tree_step(state: TreeState, leaf: Poly, level: int) -> TreeState {
    let stage = merged_leaf(state.tree, leaf, level);
    if level < state.tree.len() {
        TreeState { tree: state.tree.update(level, stage), ..state }
    } else {
        TreeState { out: Some(stage), ..state }
    }
}

/// The tree after the first `count` leaves of a schedule.
pub open spec fn tree_run(
    state: TreeState,
    schedule: Seq<usize>,
    leaves: spec_fn(int) -> Poly,
    count: int,
) -> TreeState
    decreases count,
{
    if count <= 0 {
        state
    } else {
        tree_step(
            tree_run(state, schedule, leaves, count - 1),
            leaves(count - 1),
            schedule[count - 1] as int,
        )
    }
}

/// Level `j` holds the leaves `start .. start + 2^j` of the block that digit `j`
/// of `count` stands for.
pub open spec fn level_holds(tree: Seq<Poly>, leaves: spec_fn(int) -> Poly, count: int, j: int) -> bool {
    let p = pow2(j as nat) as int;
    let start = count - count % (2 * p);
    (count / p) % 2 == 1 ==> tree[j] == poly_sum(start, start + p, leaves)
}

proof fn lemma_sum_join(lo: int, mid: int, hi: int, f: spec_fn(int) -> Poly)
    requires
        lo <= mid <= hi,
    ensures
        poly_add(poly_sum(mid, hi, f), poly_sum(lo, mid, f)) == poly_sum(lo, hi, f),
    decreases hi - mid,
{
    if mid < hi {
        lemma_sum_join(lo, mid, hi - 1, f);
    }
    assert(poly_add(poly_sum(mid, hi, f), poly_sum(lo, mid, f)) =~= poly_sum(lo, hi, f));
}

/// Below the merge level of leaf `count`, the tree holds exactly the leaves before it.
proof fn lemma_merged_leaf(
    tree: Seq<Poly>,
    leaves: spec_fn(int) -> Poly,
    count: int,
    level: int,
    levels: int,
)
    requires
        0 <= count,
        0 <= level <= levels,
        tree.len() == levels,
        (count + 1) % (pow2(level as nat) as int) == 0,
        forall|j: int| 0 <= j < levels ==> #[trigger] level_holds(tree, leaves, count, j),
    ensures
        count + 1 - pow2(level as nat) >= 0,
        merged_leaf(tree, leaves(count), level) == poly_sum(
            count + 1 - pow2(level as nat),
            count + 1,
            leaves,
        ),
    decreases level,
{
    let p = pow2(level as nat) as int;
    lemma_pow2_pos(level as nat);
    lemma_fundamental_div_mod(count + 1, p);
    let q = (count + 1) / p;
    assert(q >= 1 && count + 1 >= p) by (nonlinear_arith)
        requires
            count + 1 == p * q,
            count >= 0,
            p >= 1,
    ;
    if level == 0 {
        lemma_pow0_is_one();
        let s = poly_sum(count, count + 1, leaves);
        assert(s =~= leaves(count)) by {
            assert(poly_sum(count, count, leaves) == poly_zero());
        }
    } else {
        let j = level - 1;
        let h = pow2(j as nat) as int;
        lemma_pow2_double(j as nat);
        assert(p == 2 * h);
        assert(count + 1 == h * (2 * q)) by (nonlinear_arith)
            requires
                count + 1 == p * q,
                p == 2 * h,
        ;
        lemma_quotient(count + 1, h, 2 * q, 0);
        lemma_merged_leaf(tree, leaves, count, j, levels);
        // digit j of count is one, and its block ends where the merged leaf starts
        assert(count == h * (2 * q - 1) + (h - 1)) by (nonlinear_arith)
            requires
                count + 1 == h * (2 * q),
        ;
        lemma_quotient(count, h, 2 * q - 1, h - 1);
        assert(count == (2 * h) * (q - 1) + (2 * h - 1)) by (nonlinear_arith)
            requires
                count + 1 == h * (2 * q),
        ;
        lemma_quotient(count, 2 * h, q - 1, 2 * h - 1);
        assert(level_holds(tree, leaves, count, j));
        let start = count + 1 - p;
        assert(tree[j] == poly_sum(start, start + h, leaves));
        lemma_sum_join(start, start + h, count + 1, leaves);
    }
}

proof fn lemma_tree_prefix(
    state: TreeState,
    schedule: Seq<usize>,
    leaves: spec_fn(int) -> Poly,
    levels: int,
    count: int,
)
    requires
        0 <= levels,
        state.tree.len() == levels,
        state.out is None,
        schedule.len() == pow2(levels as nat),
        0 <= count < pow2(levels as nat),
        forall|k: int|
            0 <= k < schedule.len() ==> is_merge_level(k + 1, #[trigger] schedule[k] as int, levels),
    ensures
        ({
            let end = tree_run(state, schedule, leaves, count);
            &&& end.tree.len() == levels
            &&& end.out is None
            &&& forall|j: int| 0 <= j < levels ==> #[trigger] level_holds(end.tree, leaves, count, j)
        }),
    decreases count,
{
    if count == 0 {
        assert forall|j: int| 0 <= j < levels implies #[trigger] level_holds(
            state.tree,
            leaves,
            0,
            j,
        ) by {
            lemma_pow2_pos(j as nat);
            lemma_div_of0(pow2(j as nat) as int);
        }
    } else {
        lemma_tree_prefix(state, schedule, leaves, levels, count - 1);
        let prev = tree_run(state, schedule, leaves, count - 1);
        let level = schedule[count - 1] as int;
        assert(is_merge_level(count, level, levels));
        lemma_merged_leaf(prev.tree, leaves, count - 1, level, levels);
        if level == levels {
            let p = pow2(levels as nat) as int;
            lemma_small_mod(count as nat, p as nat);
            assert(false);
        }
        let end = tree_run(state, schedule, leaves, count);
        let p = pow2(level as nat) as int;
        lemma_pow2_double(level as nat);
        assert forall|j: int| 0 <= j < levels implies #[trigger] level_holds(
            end.tree,
            leaves,
            count,
            j,
        ) by {
            lemma_block_step(count - 1, level, j, levels);
            assert(level_holds(prev.tree, leaves, count - 1, j));
            if j == level {
                lemma_fundamental_div_mod(count, 2 * p);
                lemma_mod_pos_bound(count, 2 * p);
            }
        }
    }
}

/// How the block of level `j` changes when leaf `count` merges up to `level`.
proof fn lemma_block_step(count: int, level: int, j: int, levels: int)
    requires
        0 <= count,
        0 <= j < levels,
        level < levels,
        is_merge_level(count + 1, level, levels),
    ensures
        ({
            let pj = pow2(j as nat) as int;
            &&& j < level ==> ((count + 1) / pj) % 2 == 0
            &&& j == level ==> (count + 1) % (2 * pj) == pj
            &&& j > level ==> {
                &&& ((count + 1) / pj) % 2 == (count / pj) % 2
                &&& (count + 1) - (count + 1) % (2 * pj) == count - count % (2 * pj)
            }
        }),
{
    let p = pow2(level as nat) as int;
    let pj = pow2(j as nat) as int;
    lemma_pow2_pos(j as nat);
    lemma_pow2_double(level as nat);
    lemma_pow2_double(j as nat);
    lemma_fundamental_div_mod(count + 1, p);
    let q = (count + 1) / p;
    assert(count + 1 == p * q);
    let h = q / 2;
    if q % 2 == 0 {
        assert(count + 1 == (2 * p) * h) by (nonlinear_arith)
            requires
                count + 1 == p * q,
                q == 2 * h,
        ;
        lemma_quotient(count + 1, 2 * p, h, 0);
        assert(false);
    }
    assert(count + 1 == (2 * p) * h + p) by (nonlinear_arith)
        requires
            count + 1 == p * q,
            q == 2 * h + 1,
    ;
    if j < level {
        lemma_pow2_adds((j + 1) as nat, (level - j - 1) as nat);
        let c = pow2((level - j - 1) as nat) as int;
        assert(p == 2 * pj * c);
        assert(count + 1 == pj * (2 * (c * q))) by (nonlinear_arith)
            requires
                count + 1 == p * q,
                p == 2 * pj * c,
        ;
        lemma_quotient(count + 1, pj, 2 * (c * q), 0);
    } else if j == level {
        lemma_quotient(count + 1, 2 * p, h, p);
    } else {
        // count + 1 is not a multiple of pj, so no multiple of pj lies between
        lemma_pow2_adds((level + 1) as nat, (j - level - 1) as nat);
        let d = pow2((j - level - 1) as nat) as int;
        assert(pj == 2 * p * d);
        lemma_no_multiple(count, pj, 2 * p, d);
        lemma_fundamental_div_mod(count, pj);
        lemma_fundamental_div_mod(count + 1, pj);
        assert(2 * pj == (2 * p) * (2 * d)) by (nonlinear_arith)
            requires
                pj == 2 * p * d,
        ;
        lemma_no_multiple(count, 2 * pj, 2 * p, 2 * d);
    }
}

/// A number that is no multiple of `step` starts no new block of `width = step * d`.
proof fn lemma_no_multiple(count: int, width: int, step: int, d: int)
    requires
        0 <= count,
        step >= 1,
        d >= 1,
        width == step * d,
        (count + 1) % step != 0,
    ensures
        (count + 1) / width == count / width,
        (count + 1) % width == count % width + 1,
{
    assert(width >= 1) by (nonlinear_arith)
        requires
            width == step * d,
            step >= 1,
            d >= 1,
    ;
    let f = count / width;
    let r = count % width;
    lemma_fundamental_div_mod(count, width);
    lemma_mod_pos_bound(count, width);
    if r + 1 == width {
        assert(count + 1 == (d * (f + 1)) * step) by (nonlinear_arith)
            requires
                count == width * f + r,
                r + 1 == width,
                width == step * d,
        ;
        lemma_quotient(count + 1, step, d * (f + 1), 0);
        assert(false);
    }
    lemma_quotient(count + 1, width, f, r + 1);
}

/// After all `2^levels` leaves, exactly the sum of the leaves has left the tree.
pub proof fn law_tree_sums_leaves(
    state: TreeState,
    schedule: Seq<usize>,
    leaves: spec_fn(int) -> Poly,
    levels: int,
)
    requires
        0 <= levels,
        state.tree.len() == levels,
        state.out is None,
        schedule.len() == pow2(levels as nat),
        forall|k: int|
            0 <= k < schedule.len() ==> is_merge_level(k + 1, #[trigger] schedule[k] as int, levels),
    ensures
        tree_run(state, schedule, leaves, pow2(levels as nat) as int).out == Some(
            poly_sum(0, pow2(levels as nat) as int, leaves),
        ),
{
    let total = pow2(levels as nat) as int;
    lemma_pow2_pos(levels as nat);
    lemma_tree_prefix(state, schedule, leaves, levels, total - 1);
    let prev = tree_run(state, schedule, leaves, total - 1);
    let level = schedule[total - 1] as int;
    assert(is_merge_level(total, level, levels));
    if level < levels {
        lemma_pow2_adds((level + 1) as nat, (levels - level - 1) as nat);
        lemma_pow2_pos((level + 1) as nat);
        let a = pow2((level + 1) as nat) as int;
        let b = pow2((levels - level - 1) as nat) as int;
        assert(a * b == b * a) by (nonlinear_arith);
        lemma_quotient(total, a, b, 0);
        assert(false);
    }
    lemma_merged_leaf(prev.tree, leaves, total - 1, level, levels);
}

// ---------------------------------------------------------------------------
// The columns
// ---------------------------------------------------------------------------

/// The pair of aggregate columns that share one row automorphism.
///
/// Every row is sent through `automorphism`; the image goes into `second_col`, and
/// its image under `X -> X^-1` into `first_col`. Row `k` is rotated by `X^k` first.
#[derive(Clone, Copy, Debug, PartialEq, Eq, Structural)]
pub struct MaskColumnPlan {
    pub automorphism: i64,
    pub first_col: usize,
    pub second_col: usize,
}

/// The column pairs of an aggregation over a ring of degree `n`.
pub fn mask_column_plans(n: usize) -> (plans: Vec<MaskColumnPlan>)
    requires
        ring_degree(n as int),
    ensures
        plans.len() == n / 2,
        forall|j: int|
            0 <= j < plans.len() ==> {
                &&& (#[trigger] plans@[j]).automorphism == share_element(n as int, 1, false, j)
                &&& plans@[j].first_col == j
                &&& plans@[j].second_col == j + n / 2
            },
{
    let half: usize = n / 2;
    let mut plans: Vec<MaskColumnPlan> = Vec::new();
    let mut j: usize = 0;
    while j < half
        invariant
            ring_degree(n as int),
            half == n / 2,
            j <= half,
            plans.len() == j,
            forall|i: int|
                0 <= i < j ==> {
                    &&& (#[trigger] plans@[i]).automorphism == share_element(n as int, 1, false, i)
                    &&& plans@[i].first_col == i
                    &&& plans@[i].second_col == i + n / 2
                },
        decreases half - j,
    {
        assert(1 * j == j);
        let automorphism: i64 = secret_view(n, 1, false, j);
        plans.push(MaskColumnPlan { automorphism, first_col: j, second_col: j + half });
        j = j + 1;
    }
    plans
}

/// Row `k` as it enters the tree of the first column of a pair.
pub open spec fn first_leaf(
    n: int,
    plan: MaskColumnPlan,
    rows: spec_fn(int) -> Poly,
    k: int,
) -> Poly {
    rotate(k, automorphism(n, -1, automorphism(n, plan.automorphism as int, rows(k))))
}

/// Row `k` as it enters the tree of the second column of a pair.
pub open spec fn second_leaf(
    n: int,
    plan: MaskColumnPlan,
    rows: spec_fn(int) -> Poly,
    k: int,
) -> Poly {
    rotate(k, automorphism(n, plan.automorphism as int, rows(k)))
}

/// Streaming the rows of a column pair through two trees forms the two components
/// of the aggregate that the pair stands for.
pub proof fn law_columns_aggregate(
    n: int,
    levels: int,
    plan: MaskColumnPlan,
    schedule: Seq<usize>,
    state: TreeState,
    rows: spec_fn(int) -> Poly,
    j: int,
)
    requires
        ring_degree(n),
        0 <= levels,
        n == pow2(levels as nat),
        0 <= j < n / 2,
        plan.automorphism == share_element(n, 1, false, j),
        state.tree.len() == levels,
        state.out is None,
        schedule.len() == n,
        forall|k: int|
            0 <= k < schedule.len() ==> is_merge_level(k + 1, #[trigger] schedule[k] as int, levels),
    ensures
        tree_run(state, schedule, |k: int| first_leaf(n, plan, rows, k), n).out == Some(
            aggregate_component(n, false, j, rows),
        ),
        tree_run(state, schedule, |k: int| second_leaf(n, plan, rows, k), n).out == Some(
            aggregate_component(n, true, j, rows),
        ),
{
    let h = plan.automorphism as int;
    let first = |k: int| first_leaf(n, plan, rows, k);
    let second = |k: int| second_leaf(n, plan, rows, k);
    law_tree_sums_leaves(state, schedule, first, levels);
    law_tree_sums_leaves(state, schedule, second, levels);
    let first_part = |k: int|
        rotate(k, automorphism(n, share_element(n, 1, false, j), reversed(n, rows(k))));
    let second_part = |k: int|
        rotate(k, automorphism(n, share_element(n, 1, true, j), reversed(n, rows(k))));
    assert forall|k: int| 0 <= k < n implies #[trigger] first(k) == first_part(k) by {
        law_automorphism_composes(n, -1, h, rows(k));
        law_automorphism_composes(n, h, -1, rows(k));
        assert(-1 * h == h * -1);
    }
    assert forall|k: int| 0 <= k < n implies #[trigger] second(k) == second_part(k) by {
        law_automorphism_composes(n, -h, -1, rows(k));
        assert((-h) * -1 == h);
    }
    lemma_poly_sum_congruent(0, n, first, first_part);
    lemma_poly_sum_congruent(0, n, second, second_part);
}

// ---------------------------------------------------------------------------
// Scratch
// ---------------------------------------------------------------------------

/// Bytes of `cols` columns of `size` limbs of a degree-`n` polynomial.
pub open spec fn spec_vec_bytes(n: int, cols: int, size: int) -> int {
    n * cols * size * 8
}

/// Bytes of a limb vector, rounded up to the scratch alignment.
pub open spec fn spec_aligned_bytes(n: int, cols: int, size: int) -> int {
    spec_next_multiple(spec_vec_bytes(n, cols, size), SCRATCH_ALIGN as int)
}

/// Scratch of the aggregation itself: the transposed rows, two columns, two trees,
/// and the largest of the two primitive scratches.
pub open spec fn spec_work_tmp_bytes(
    n: int,
    log_n: int,
    size: int,
    rsh_tmp: int,
    rotate_tmp: int,
) -> int {
    spec_aligned_bytes(n, n, size) + 2 * spec_aligned_bytes(n, 1, size) + 2 * spec_aligned_bytes(
        n,
        log_n,
        size,
    ) + spec_next_multiple(spec_max(rsh_tmp, rotate_tmp), SCRATCH_ALIGN as int)
}

/// Scratch of the whole preprocessing: the re-encoded input and output, the
/// aggregation, and the largest of the three primitive scratches.
pub open spec fn spec_tmp_bytes(
    n: int,
    log_n: int,
    size: int,
    normalize_tmp: int,
    rsh_tmp: int,
    rotate_tmp: int,
) -> int {
    2 * spec_aligned_bytes(n, n, size) + spec_work_tmp_bytes(n, log_n, size, rsh_tmp, rotate_tmp)
        + spec_next_multiple(
        spec_max(spec_max(normalize_tmp, rsh_tmp), rotate_tmp),
        SCRATCH_ALIGN as int,
    )
}

pub proof fn lemma_next_multiple(x: int)
    requires
        x >= 0,
    ensures
        spec_next_multiple(x, SCRATCH_ALIGN as int) >= x,
        spec_next_multiple(x, SCRATCH_ALIGN as int) < x + SCRATCH_ALIGN,
{
    lemma_div_ceil(x, SCRATCH_ALIGN as int);
}

pub proof fn lemma_vec_bytes(n: int, cols: int, size: int)
    requires
        n >= 0,
        cols >= 0,
        size >= 0,
    ensures
        0 <= n * cols,
        0 <= n * cols * size,
        0 <= spec_vec_bytes(n, cols, size) <= spec_aligned_bytes(n, cols, size),
        spec_aligned_bytes(n, cols, size) < spec_vec_bytes(n, cols, size) + SCRATCH_ALIGN,
        n * cols * size <= spec_vec_bytes(n, cols, size),
        size >= 1 ==> n * cols <= n * cols * size,
        size == 0 ==> spec_vec_bytes(n, cols, size) == 0,
{
    assert(0 <= n * cols) by (nonlinear_arith)
        requires
            n >= 0,
            cols >= 0,
    ;
    let a = n * cols;
    assert(0 <= a * size && (size >= 1 ==> a <= a * size) && (size == 0 ==> a * size == 0))
        by (nonlinear_arith)
        requires
            a >= 0,
            size >= 0,
    ;
    lemma_next_multiple(spec_vec_bytes(n, cols, size));
}

/// Bytes of a limb vector, rounded up to the scratch alignment.
pub fn aligned_bytes(n: usize, cols: usize, size: usize) -> (r: usize)
    requires
        size >= 1,
        spec_vec_bytes(n as int, cols as int, size as int) + SCRATCH_ALIGN <= usize::MAX,
    ensures
        r == spec_aligned_bytes(n as int, cols as int, size as int),
{
    proof {
        lemma_vec_bytes(n as int, cols as int, size as int);
    }
    let cells: usize = n * cols;
    let words: usize = cells * size;
    next_multiple_of(words * 8, SCRATCH_ALIGN)
}

/// Scratch estimate of the aggregation, given the scratch of its primitives.
pub fn packing_mask_preprocessing_work_tmp_bytes(
    n: usize,
    log_n: usize,
    size: usize,
    rsh_tmp: usize,
    rotate_tmp: usize,
) -> (r: usize)
    requires
        size >= 1,
        log_n <= n,
        n >= 1,
        spec_work_tmp_bytes(n as int, log_n as int, size as int, rsh_tmp as int, rotate_tmp as int)
            + 2 * SCRATCH_ALIGN <= usize::MAX,
    ensures
        r == spec_work_tmp_bytes(
            n as int,
            log_n as int,
            size as int,
            rsh_tmp as int,
            rotate_tmp as int,
        ),
{
    proof {
        lemma_vec_bytes(n as int, n as int, size as int);
        lemma_vec_bytes(n as int, 1, size as int);
        lemma_vec_bytes(n as int, log_n as int, size as int);
        lemma_next_multiple(spec_max(rsh_tmp as int, rotate_tmp as int));
    }
    let transposed: usize = aligned_bytes(n, n, size);
    let one_col: usize = aligned_bytes(n, 1, size);
    let tree: usize = aligned_bytes(n, log_n, size);
    let internal: usize = next_multiple_of(max(rsh_tmp, rotate_tmp), SCRATCH_ALIGN);
    transposed + 2 * one_col + 2 * tree + internal
}

/// Scratch estimate of the mask preprocessing, given the scratch of its primitives.
pub fn packing_mask_preprocessing_tmp_bytes(
    n: usize,
    log_n: usize,
    size: usize,
    normalize_tmp: usize,
    rsh_tmp: usize,
    rotate_tmp: usize,
) -> (r: usize)
    requires
        size >= 1,
        log_n <= n,
        n >= 1,
        spec_tmp_bytes(
            n as int,
            log_n as int,
            size as int,
            normalize_tmp as int,
            rsh_tmp as int,
            rotate_tmp as int,
        ) + 2 * SCRATCH_ALIGN <= usize::MAX,
    ensures
        r == spec_tmp_bytes(
            n as int,
            log_n as int,
            size as int,
            normalize_tmp as int,
            rsh_tmp as int,
            rotate_tmp as int,
        ),
{
    proof {
        lemma_vec_bytes(n as int, n as int, size as int);
        lemma_vec_bytes(n as int, 1, size as int);
        lemma_vec_bytes(n as int, log_n as int, size as int);
        lemma_next_multiple(spec_max(rsh_tmp as int, rotate_tmp as int));
        lemma_next_multiple(
            spec_max(spec_max(normalize_tmp as int, rsh_tmp as int), rotate_tmp as int),
        );
    }
    let matrix: usize = aligned_bytes(n, n, size);
    let internal: usize = next_multiple_of(
        max(max(normalize_tmp, rsh_tmp), rotate_tmp),
        SCRATCH_ALIGN,
    );
    let work: usize = packing_mask_preprocessing_work_tmp_bytes(n, log_n, size, rsh_tmp, rotate_tmp);
    matrix + matrix + work + internal
}

/// Limb vectors take eight bytes per coefficient, rounded up to whole multiples of 64.
pub proof fn law_aligned_bytes_hold_coefficients(n: usize, cols: usize, size: usize, r: usize)
    requires
        call_ensures(aligned_bytes, (n, cols, size), r),
    ensures
        r as int % 64 == 0,
        8 * (n * cols * size) <= r < 8 * (n * cols * size) + 64,
{
    lemma_vec_bytes(n as int, cols as int, size as int);
    lemma_mod_multiples_basic(
        spec_div_ceil(spec_vec_bytes(n as int, cols as int, size as int), 64),
        64,
    );
}

/// The scratch of the aggregation holds the transposed rows, two columns, two trees, and the
/// larger of its operations' scratches. That of the whole preprocessing holds input and
/// output as well, and the largest of three.
pub proof fn law_preprocessing_scratch_holds_matrices(
    n: usize,
    log_n: usize,
    size: usize,
    normalize_tmp: usize,
    rsh_tmp: usize,
    rotate_tmp: usize,
    matrix: usize,
    column: usize,
    tree: usize,
    inner: usize,
    outer: usize,
    work: usize,
    whole: usize,
)
    requires
        call_ensures(aligned_bytes, (n, n, size), matrix),
        call_ensures(aligned_bytes, (n, 1usize, size), column),
        call_ensures(aligned_bytes, (n, log_n, size), tree),
        call_ensures(
            next_multiple_of,
            (if rsh_tmp >= rotate_tmp { rsh_tmp } else { rotate_tmp }, 64usize),
            inner,
        ),
        call_ensures(
            next_multiple_of,
            (
                if normalize_tmp >= rsh_tmp && normalize_tmp >= rotate_tmp {
                    normalize_tmp
                } else if rsh_tmp >= rotate_tmp {
                    rsh_tmp
                } else {
                    rotate_tmp
                },
                64usize,
            ),
            outer,
        ),
        call_ensures(
            packing_mask_preprocessing_work_tmp_bytes,
            (n, log_n, size, rsh_tmp, rotate_tmp),
            work,
        ),
        call_ensures(
            packing_mask_preprocessing_tmp_bytes,
            (n, log_n, size, normalize_tmp, rsh_tmp, rotate_tmp),
            whole,
        ),
    ensures
        work == matrix + 2 * column + 2 * tree + inner,
        whole == 2 * matrix + work + outer,
{
}

/// Aggregation works in limbs of at least 60 bits, just enough of them for the mask's bits,
/// and in one where there are none.
pub proof fn law_aggregation_holds_all_bits(size: usize, base2k: usize, width: usize, limbs: usize)
    requires
        size * base2k <= usize::MAX,
        call_ensures(mask_preprocessing_arithmetic_base2k, (base2k,), width),
        call_ensures(mask_preprocessing_arithmetic_size, (size, base2k), limbs),
    ensures
        width == (if base2k >= 60 { base2k } else { 60 }),
        size * base2k >= 1 ==> just_enough(limbs as int, width as int, size * base2k),
        size * base2k == 0 ==> limbs == 1,
{
    assert(size * base2k >= 0) by (nonlinear_arith)
        requires
            size >= 0,
            base2k >= 0,
    ;
    lemma_div_ceil(size * base2k, width as int);
    lemma_just_enough(limbs as int, width as int, size * base2k);
}

} // verus!
