//! The second level of a recursion: products with the digits of packed answers.
//!
//! The digits of all batches form a database of their own. Its rows are packed `gamma` at
//! a time, and a query for a batch selects its digit from each of them.

use vstd::prelude::*;
use vstd::arithmetic::div_mod::*;
use vstd::arithmetic::power2::*;
use crate::arith::{just_enough, lemma_div_ceil, lemma_just_enough, spec_div_ceil};
use crate::encoding::{centred_residue, lemma_centred_residue, lemma_pow2_small};
use crate::matrix::CoeffMatrix;
use crate::retrieval::{
    block_sum, encrypts, law_second_level_selects, one_hot, phase, product_mask,
};
use crate::server::gemm::{
    law_range_dot_is_inner_product, mask_inner_product, mask_product_acc, range_dot, QueryMask,
};
use crate::server::offline::are_masks;
use crate::server::product::{
    blocks_dot, blocks_product, bodies_of, inner_product, law_blocks_dot_is_inner_product, MaskSplit,
};
use crate::server::recursion::{digit_batches, digit_matrix, digit_or_zero};
use crate::store::lemma_block_bound;
use crate::sums::lemma_multiple_scales;

verus! {

/// A database of digits: one row per digit of a packed answer, one column per batch.
pub open spec fn are_digits(digits: Seq<Vec<i16>>, t: int) -> bool {
    forall|i: int| 0 <= i < digits.len() ==> (#[trigger] digits[i])@.len() == t
}

/// `gamma` rows of digits, ready for queries: their matrices, one per block of batches, and
/// the products of these with the masks.
#[derive(Debug)]
pub struct DigitBatch {
    pub gamma: usize,
    pub n: usize,
    pub matrices: Vec<CoeffMatrix>,
    pub products: Vec<i64>,
}

impl DigitBatch {
    pub open spec fn wf(self) -> bool {
        forall|b: int|
            0 <= b < self.matrices@.len() ==> {
                &&& (#[trigger] self.matrices@[b]).wf()
                &&& self.matrices@[b].rows_out == self.gamma
                &&& self.matrices@[b].rows_in == self.n
            }
    }

    /// The matrices hold rows `batch * gamma ..` of the digits.
    pub open spec fn holds(self, digits: Seq<Vec<i16>>, t: int, batch: int) -> bool {
        forall|b: int, j: int, c: int|
            0 <= b < self.matrices@.len() && self.matrices@[b].contains(j, c)
                ==> #[trigger] self.matrices@[b].entry(j, c) == digit_or_zero(
                digits,
                t,
                batch * self.gamma + j,
                b * self.n + c,
            )
    }

    /// The products are those of the matrices with the masks, modulo `2^torus_bits`.
    pub open spec fn multiplied(self, masks: Seq<QueryMask>, torus_bits: int) -> bool {
        &&& self.products@.len() == self.gamma * self.n
        &&& forall|j: int, c: int|
            0 <= j < self.gamma && 0 <= c < self.n ==> #[trigger] self.products@[j * self.n + c]
                == centred_residue(
                range_dot(self.matrices@, masks, j, c, 0, self.matrices@.len() as int),
                pow2(torus_bits as nat) as int,
            )
    }

    /// Builds the matrices of one group of rows, and multiplies them with the masks.
    pub fn new(
        digits: &[Vec<i16>],
        t: usize,
        batch: usize,
        gamma: usize,
        n: usize,
        masks: &[QueryMask],
        mask_threads: usize,
        split: MaskSplit,
        torus_bits: usize,
    ) -> (r: Self)
        requires
            are_digits(digits@, t as int),
            n >= 1,
            masks@.len() >= 1,
            are_masks(masks@, masks@.len() as int, n as int),
            masks@.len() * n <= usize::MAX,
            gamma * n <= usize::MAX,
            batch * gamma + gamma <= usize::MAX,
            1 <= torus_bits <= 62,
        ensures
            r.wf(),
            r.gamma == gamma,
            r.n == n,
            r.matrices@.len() == masks@.len(),
            r.holds(digits@, t as int, batch as int),
            r.multiplied(masks@, torus_bits as int),
    {
        let blocks: usize = masks.len();
        let mut matrices: Vec<CoeffMatrix> = Vec::new();
        while matrices.len() < blocks
            invariant
                matrices@.len() <= blocks,
                are_digits(digits@, t as int),
                blocks * n <= usize::MAX,
                gamma * n <= usize::MAX,
                batch * gamma + gamma <= usize::MAX,
                forall|b: int|
                    0 <= b < matrices@.len() ==> {
                        &&& (#[trigger] matrices@[b]).wf()
                        &&& matrices@[b].rows_out == gamma
                        &&& matrices@[b].rows_in == n
                    },
                forall|b: int, j: int, c: int|
                    0 <= b < matrices@.len() && matrices@[b].contains(j, c)
                        ==> #[trigger] matrices@[b].entry(j, c) == digit_or_zero(
                        digits@,
                        t as int,
                        batch * gamma + j,
                        b * n + c,
                    ),
            decreases blocks - matrices@.len(),
        {
            let b: usize = matrices.len();
            assert(b * n + n <= blocks * n) by (nonlinear_arith)
                requires
                    b + 1 <= blocks,
                    n >= 0,
            ;
            matrices.push(digit_matrix(digits, batch, gamma, b, n, t));
        }
        let products: Vec<i64> = mask_product_acc(
            matrices.as_slice(),
            masks,
            gamma,
            n,
            mask_threads,
            split,
            torus_bits,
        );
        DigitBatch { gamma, n, matrices, products }
    }

    /// The bodies of the rows for a query, in the first `gamma` coefficients, with zeros
    /// above.
    pub fn body(&self, bodies: &[Vec<i64>], torus_bits: usize) -> (r: Vec<i64>)
        requires
            self.wf(),
            self.gamma <= self.n,
            bodies@.len() == self.matrices@.len(),
            forall|b: int| 0 <= b < bodies@.len() ==> (#[trigger] bodies@[b])@.len() == self.n,
            1 <= torus_bits <= 62,
        ensures
            r@.len() == self.n,
            forall|j: int|
                0 <= j < self.gamma ==> #[trigger] r@[j] == centred_residue(
                    blocks_dot(self.matrices@, j, bodies_of(bodies@), bodies@.len()),
                    pow2(torus_bits as nat) as int,
                ),
            forall|j: int| self.gamma <= j < self.n ==> #[trigger] r@[j] == 0,
    {
        let mut out: Vec<i64> = blocks_product(
            self.matrices.as_slice(),
            bodies,
            self.gamma,
            torus_bits,
        );
        let ghost rows = out@;
        while out.len() < self.n
            invariant
                self.gamma <= out@.len() <= self.n,
                rows.len() == self.gamma,
                forall|j: int| 0 <= j < self.gamma ==> #[trigger] out@[j] == rows[j],
                forall|j: int| self.gamma <= j < out@.len() ==> #[trigger] out@[j] == 0,
            decreases self.n - out@.len(),
        {
            out.push(0);
        }
        out
    }
}

/// Builds and multiplies all groups of rows of the digits.
pub fn digit_mask_side(
    digits: &[Vec<i16>],
    t: usize,
    gamma: usize,
    n: usize,
    masks: &[QueryMask],
    mask_threads: usize,
    split: MaskSplit,
    torus_bits: usize,
) -> (r: Vec<DigitBatch>)
    requires
        are_digits(digits@, t as int),
        n >= 1,
        gamma >= 1,
        masks@.len() >= 1,
        are_masks(masks@, masks@.len() as int, n as int),
        masks@.len() * n <= usize::MAX,
        gamma * n <= usize::MAX,
        digits@.len() + gamma <= usize::MAX,
        1 <= torus_bits <= 62,
    ensures
        r@.len() == spec_div_ceil(digits@.len() as int, gamma as int),
        forall|i: int|
            0 <= i < r@.len() ==> {
                &&& (#[trigger] r@[i]).wf()
                &&& r@[i].gamma == gamma
                &&& r@[i].n == n
                &&& r@[i].matrices@.len() == masks@.len()
                &&& r@[i].holds(digits@, t as int, i)
                &&& r@[i].multiplied(masks@, torus_bits as int)
            },
{
    let count: usize = digit_batches(digits.len(), gamma);
    proof {
        lemma_div_ceil(digits@.len() as int, gamma as int);
        assert(count * gamma == (count - 1) * gamma + gamma) by (nonlinear_arith);
        assert(count == 0 ==> count * gamma == 0) by (nonlinear_arith);
    }
    let mut out: Vec<DigitBatch> = Vec::new();
    while out.len() < count
        invariant
            out@.len() <= count,
            count == spec_div_ceil(digits@.len() as int, gamma as int),
            count * gamma < digits@.len() + gamma,
            are_digits(digits@, t as int),
            n >= 1,
            gamma >= 1,
            masks@.len() >= 1,
            are_masks(masks@, masks@.len() as int, n as int),
            masks@.len() * n <= usize::MAX,
            gamma * n <= usize::MAX,
            digits@.len() + gamma <= usize::MAX,
            1 <= torus_bits <= 62,
            forall|i: int|
                0 <= i < out@.len() ==> {
                    &&& (#[trigger] out@[i]).wf()
                    &&& out@[i].gamma == gamma
                    &&& out@[i].n == n
                    &&& out@[i].matrices@.len() == masks@.len()
                    &&& out@[i].holds(digits@, t as int, i)
                    &&& out@[i].multiplied(masks@, torus_bits as int)
                },
        decreases count - out@.len(),
    {
        let batch: usize = out.len();
        assert(batch * gamma + gamma <= count * gamma) by (nonlinear_arith)
            requires
                batch + 1 <= count,
                gamma >= 0,
        ;
        out.push(
            DigitBatch::new(digits, t, batch, gamma, n, masks, mask_threads, split, torus_bits),
        );
    }
    out
}

/// A query for batch `k` makes every row of a group decrypt to the unit times its digit of
/// that batch, and the product of that row with the noise of the query.
pub proof fn law_group_selects_digits(
    group: DigitBatch,
    digits: Seq<Vec<i16>>,
    t: int,
    batch: int,
    masks: Seq<QueryMask>,
    bodies: Seq<Vec<i64>>,
    answer: Seq<i64>,
    torus_bits: int,
    s: spec_fn(int) -> int,
    row: int,
    k: int,
    unit: int,
    noise: spec_fn(int, int) -> int,
)
    requires
        group.wf(),
        group.n >= 1,
        group.holds(digits, t, batch),
        group.multiplied(masks, torus_bits),
        1 <= torus_bits <= 62,
        bodies.len() == group.matrices@.len(),
        0 <= row < group.gamma,
        batch * group.gamma + row < digits.len(),
        0 <= k < t,
        t <= group.matrices@.len() * group.n,
        answer[row] == centred_residue(
            blocks_dot(group.matrices@, row, bodies_of(bodies), bodies.len()),
            pow2(torus_bits as nat) as int,
        ),
        encrypts(
            bodies_of(bodies),
            masks,
            s,
            group.n as int,
            pow2(torus_bits as nat) as int,
            group.n as int,
            one_hot(group.n as int, k, unit),
            noise,
        ),
    ensures
        (phase(
            answer[row] as int,
            |c: int| group.products@[row * group.n + c] as int,
            s,
            group.n as int,
        ) - (digits[batch * group.gamma + row]@[k] * unit + block_sum(
            group.matrices@,
            row,
            noise,
        ))) % pow2(torus_bits as nat) as int == 0,
{
    let q = pow2(torus_bits as nat) as int;
    let n = group.n as int;
    let us = group.matrices@;
    lemma_pow2_small(torus_bits as nat);
    lemma_pow2_unfold(torus_bits as nat);
    lemma_pow2_pos((torus_bits - 1) as nat);
    let dot = blocks_dot(us, row, bodies_of(bodies), bodies.len());
    lemma_centred_residue(dot, q);
    lemma_multiple_scales(dot - centred_residue(dot, q), -1, q);
    let mask = |c: int| group.products@[row * n + c] as int;
    assert forall|c: int| 0 <= c < n implies (#[trigger] mask(c) - product_mask(us, masks, row)(c))
        % q == 0 by {
        let x = range_dot(us, masks, row, c, 0, us.len() as int);
        assert(group.products@[row * n + c] == centred_residue(x, q));
        lemma_centred_residue(x, q);
        lemma_multiple_scales(x - centred_residue(x, q), -1, q);
    }
    law_second_level_selects(
        digits,
        us,
        batch,
        group.gamma as int,
        t,
        n,
        masks,
        bodies_of(bodies),
        s,
        n,
        q,
        row,
        k,
        unit,
        noise,
        answer[row] as int,
        mask,
    );
}

/// Every row of digits is packed, in just enough groups of `gamma` rows: row `idx` is row
/// `idx % gamma` of group `idx / gamma`, and its digit of batch `k` stands in slot `k % n` of
/// block `k / n`.
pub proof fn law_every_digit_has_its_place(
    digits: &[Vec<i16>],
    t: usize,
    gamma: usize,
    n: usize,
    masks: &[QueryMask],
    mask_threads: usize,
    split: MaskSplit,
    torus_bits: usize,
    r: Vec<DigitBatch>,
    idx: int,
    k: int,
)
    requires
        n >= 1,
        gamma >= 1,
        t <= masks@.len() * n,
        call_ensures(
            digit_mask_side,
            (digits, t, gamma, n, masks, mask_threads, split, torus_bits),
            r,
        ),
        0 <= idx < digits@.len(),
        0 <= k < t,
    ensures
        just_enough(r@.len() as int, gamma as int, digits@.len() as int),
        0 <= idx / (gamma as int) < r@.len(),
        r@[idx / gamma as int].matrices@.len() == masks@.len(),
        0 <= k / (n as int) < masks@.len(),
        r@[idx / gamma as int].matrices@[k / n as int].entry(idx % gamma as int, k % n as int)
            == digits@[idx]@[k],
{
    let g = gamma as int;
    let w = n as int;
    lemma_just_enough(r@.len() as int, g, digits@.len() as int);
    lemma_fundamental_div_mod(idx, g);
    lemma_mod_pos_bound(idx, g);
    lemma_div_pos_is_pos(idx, g);
    lemma_block_bound(idx, digits@.len() as int, g);
    lemma_fundamental_div_mod(k, w);
    lemma_mod_pos_bound(k, w);
    lemma_div_pos_is_pos(k, w);
    let i = idx / g;
    let b = k / w;
    assert(b < masks@.len()) by (nonlinear_arith)
        requires
            k == w * b + k % w,
            k % w >= 0,
            k < masks@.len() * w,
            w >= 1,
    ;
    assert(g * i == i * g && w * b == b * w) by (nonlinear_arith);
    let group = r@[i];
    assert(group.holds(digits@, t as int, i));
    assert(group.matrices@[b].contains(idx % g, k % w));
    assert(group.matrices@[b].entry(idx % g, k % w) == digit_or_zero(
        digits@,
        t as int,
        i * group.gamma + idx % g,
        b * group.n + k % w,
    ));
}

/// The rows of a group for a query are the inner products of its matrices with the query,
/// modulo the torus and centred, with zeros behind them.
pub proof fn law_group_rows_are_inner_products(
    group: &DigitBatch,
    bodies: &[Vec<i64>],
    torus_bits: usize,
    r: Vec<i64>,
    j: int,
)
    requires
        1 <= torus_bits <= 62,
        bodies@.len() == group.matrices@.len(),
        call_ensures(DigitBatch::body, (group, bodies, torus_bits), r),
        0 <= j < group.n,
    ensures
        r@.len() == group.n,
        j < group.gamma ==> (inner_product(group.matrices@, j, bodies_of(bodies@)) - r@[j]) % pow2(
            torus_bits as nat,
        ) as int == 0 && -(pow2(torus_bits as nat) as int) <= 2 * r@[j] < pow2(torus_bits as nat),
        j >= group.gamma ==> r@[j] == 0,
{
    law_blocks_dot_is_inner_product(group.matrices@, j, bodies_of(bodies@));
    lemma_pow2_small(torus_bits as nat);
    lemma_pow2_unfold(torus_bits as nat);
    lemma_pow2_pos((torus_bits - 1) as nat);
    lemma_centred_residue(
        blocks_dot(group.matrices@, j, bodies_of(bodies@), bodies@.len()),
        pow2(torus_bits as nat) as int,
    );
}

/// The mask side of a group holds the inner products of its matrices with the masks, modulo
/// the torus and centred.
pub proof fn law_group_masks_are_inner_products(
    digits: &[Vec<i16>],
    t: usize,
    batch: usize,
    gamma: usize,
    n: usize,
    masks: &[QueryMask],
    mask_threads: usize,
    split: MaskSplit,
    torus_bits: usize,
    r: DigitBatch,
    j: int,
    c: int,
)
    requires
        1 <= torus_bits <= 62,
        call_ensures(
            DigitBatch::new,
            (digits, t, batch, gamma, n, masks, mask_threads, split, torus_bits),
            r,
        ),
        0 <= j < gamma,
        0 <= c < n,
    ensures
        r.gamma == gamma && r.n == n,
        r.matrices@.len() == masks@.len(),
        r.products@.len() == gamma * n,
        (mask_inner_product(r.matrices@, masks@, j, c) - r.products@[j * n + c]) % pow2(
            torus_bits as nat,
        ) as int == 0,
        -(pow2(torus_bits as nat) as int) <= 2 * r.products@[j * n + c] < pow2(torus_bits as nat),
{
    law_range_dot_is_inner_product(r.matrices@, masks@, j, c);
    lemma_pow2_small(torus_bits as nat);
    lemma_pow2_unfold(torus_bits as nat);
    lemma_pow2_pos((torus_bits - 1) as nat);
    let x = range_dot(r.matrices@, masks@, j, c, 0, r.matrices@.len() as int);
    lemma_centred_residue(x, pow2(torus_bits as nat) as int);
    assert(r.products@[j * r.n + c] == centred_residue(x, pow2(torus_bits as nat) as int));
}

} // verus!
