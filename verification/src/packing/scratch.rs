//! Scratch of the mask side of packing, given the scratch of a backend's primitives.

use vstd::prelude::*;
use crate::arith::{max, next_multiple_of, spec_max, spec_next_multiple};
use crate::packing::mask_preprocessing::{
    aligned_bytes, lemma_next_multiple, lemma_vec_bytes, spec_aligned_bytes, spec_vec_bytes,
    SCRATCH_ALIGN,
};
use crate::packing::precompute_infos::{
    arithmetic_precompute_metadata, spec_arithmetic_size, PackingPrecomputeInfos,
};

verus! {

/// What a backend needs for one product of a mask with a key.
#[derive(Clone, Copy, Debug)]
pub struct ProductScratch {
    /// Bytes of the mask in the Fourier domain.
    pub mask_dft: usize,
    /// Bytes of a product in the Fourier domain.
    pub key_dft: usize,
    /// Bytes of a product before it is normalized.
    pub key_big: usize,
    pub vmp_tmp: usize,
    pub idft_tmp: usize,
    pub normalize_tmp: usize,
}

pub open spec fn aligned(bytes: int) -> int {
    spec_next_multiple(bytes, SCRATCH_ALIGN as int)
}

impl ProductScratch {
    /// The three buffers, and the largest scratch of the operations on them.
    pub open spec fn total(self) -> int {
        aligned(self.mask_dft as int) + aligned(self.key_dft as int) + aligned(
            self.key_big as int,
        ) + spec_max(
            spec_max(self.vmp_tmp as int, self.idft_tmp as int),
            self.normalize_tmp as int,
        )
    }
}

/// Scratch of one product of a mask with a key.
pub fn fixed_mask_1x1_vmp_body_addend_tmp_bytes(s: ProductScratch) -> (r: usize)
    requires
        s.total() + SCRATCH_ALIGN <= usize::MAX,
    ensures
        r == s.total(),
{
    proof {
        lemma_next_multiple(s.mask_dft as int);
        lemma_next_multiple(s.key_dft as int);
        lemma_next_multiple(s.key_big as int);
    }
    let mask: usize = next_multiple_of(s.mask_dft, SCRATCH_ALIGN);
    let product: usize = next_multiple_of(s.key_dft, SCRATCH_ALIGN);
    let big: usize = next_multiple_of(s.key_big, SCRATCH_ALIGN);
    mask + product + big + max(max(s.vmp_tmp, s.idft_tmp), s.normalize_tmp)
}

/// Half of the components, four columns to work with, one column in the size of the
/// product's input, and the larger of the two product scratches.
pub open spec fn spec_collapse_tmp_bytes(
    n: int,
    aggregate_size: int,
    vmp_input_size: int,
    key_g: int,
    key_h: int,
) -> int {
    spec_aligned_bytes(n, n / 2, aggregate_size) + 4 * spec_aligned_bytes(n, 1, aggregate_size)
        + spec_aligned_bytes(n, 1, vmp_input_size) + spec_max(key_g, key_h)
}

/// Scratch of the collapse, given that of the products with the two keys.
pub fn precompute_sequential_keyswitch_collapse_aggregate_mask_tmp_bytes(
    n: usize,
    aggregate_size: usize,
    vmp_input_size: usize,
    key_g: usize,
    key_h: usize,
) -> (r: usize)
    requires
        aggregate_size >= 1,
        vmp_input_size >= 1,
        spec_collapse_tmp_bytes(
            n as int,
            aggregate_size as int,
            vmp_input_size as int,
            key_g as int,
            key_h as int,
        ) + SCRATCH_ALIGN <= usize::MAX,
    ensures
        r == spec_collapse_tmp_bytes(
            n as int,
            aggregate_size as int,
            vmp_input_size as int,
            key_g as int,
            key_h as int,
        ),
{
    proof {
        lemma_vec_bytes(n as int, n as int / 2, aggregate_size as int);
        lemma_vec_bytes(n as int, 1, aggregate_size as int);
        lemma_vec_bytes(n as int, 1, vmp_input_size as int);
    }
    let half: usize = aligned_bytes(n, n / 2, aggregate_size);
    let column: usize = aligned_bytes(n, 1, aggregate_size);
    let input: usize = aligned_bytes(n, 1, vmp_input_size);
    half + 4 * column + input + max(key_g, key_h)
}

/// Scratch of the projection to baby steps: one column of a mask.
pub fn sequential_collapse_bsgs_dft_build_tmp_bytes(
    n: usize,
    metadata: PackingPrecomputeInfos,
) -> (r: usize)
    requires
        metadata.size >= 1,
        spec_vec_bytes(n as int, 1, metadata.size as int) + SCRATCH_ALIGN <= usize::MAX,
    ensures
        r == spec_aligned_bytes(n as int, 1, metadata.size as int),
{
    aligned_bytes(n, 1, metadata.size)
}

/// Scratch of both mask keys: their projections, and the preparation of one of them.
pub fn packing_mask_keys_precompute_tmp_bytes(key_bytes: usize, prepare_tmp: usize) -> (r: usize)
    requires
        2 * aligned(key_bytes as int) + prepare_tmp + SCRATCH_ALIGN <= usize::MAX,
    ensures
        r == 2 * aligned(key_bytes as int) + prepare_tmp,
{
    proof {
        lemma_next_multiple(key_bytes as int);
    }
    2 * next_multiple_of(key_bytes, SCRATCH_ALIGN) + prepare_tmp
}

/// The largest of the scratches of the mask side.
pub open spec fn spec_pack_precompute_tmp_bytes(
    n: int,
    metadata: PackingPrecomputeInfos,
    mask_keys: int,
    product: int,
    normalize_tmp: int,
) -> int {
    spec_max(
        spec_max(
            spec_max(
                mask_keys,
                spec_collapse_tmp_bytes(
                    n,
                    spec_arithmetic_size(metadata),
                    metadata.size as int,
                    product,
                    product,
                ),
            ),
            spec_aligned_bytes(n, 1, metadata.size as int),
        ),
        normalize_tmp,
    )
}

/// Scratch of the mask side, given that of its keys, of one product and of normalization.
pub fn pack_precompute_tmp_bytes(
    n: usize,
    metadata: PackingPrecomputeInfos,
    mask_keys: usize,
    product: usize,
    normalize_tmp: usize,
) -> (r: usize)
    requires
        metadata.size >= 1,
        metadata.size * metadata.base2k <= usize::MAX,
        spec_pack_precompute_tmp_bytes(
            n as int,
            metadata,
            mask_keys as int,
            product as int,
            normalize_tmp as int,
        ) + SCRATCH_ALIGN <= usize::MAX,
    ensures
        r == spec_pack_precompute_tmp_bytes(
            n as int,
            metadata,
            mask_keys as int,
            product as int,
            normalize_tmp as int,
        ),
{
    proof {
        lemma_vec_bytes(n as int, 1, metadata.size as int);
    }
    let wide: PackingPrecomputeInfos = arithmetic_precompute_metadata(metadata);
    let collapse: usize = precompute_sequential_keyswitch_collapse_aggregate_mask_tmp_bytes(
        n,
        wide.size,
        metadata.size,
        product,
        product,
    );
    let babies: usize = sequential_collapse_bsgs_dft_build_tmp_bytes(n, metadata);
    max(max(max(mask_keys, collapse), babies), normalize_tmp)
}

// ---------------------------------------------------------------------------
// What the scratch holds
// ---------------------------------------------------------------------------

/// The scratch of a product holds its three buffers, each aligned, and next to them the
/// largest that one of its operations needs, and no more.
pub proof fn law_product_scratch_holds_buffers(
    s: ProductScratch,
    mask: usize,
    product: usize,
    big: usize,
    r: usize,
)
    requires
        call_ensures(next_multiple_of, (s.mask_dft, 64usize), mask),
        call_ensures(next_multiple_of, (s.key_dft, 64usize), product),
        call_ensures(next_multiple_of, (s.key_big, 64usize), big),
        call_ensures(fixed_mask_1x1_vmp_body_addend_tmp_bytes, (s,), r),
    ensures
        r >= mask + product + big + s.vmp_tmp,
        r >= mask + product + big + s.idft_tmp,
        r >= mask + product + big + s.normalize_tmp,
        r == mask + product + big + s.vmp_tmp || r == mask + product + big + s.idft_tmp || r == mask
            + product + big + s.normalize_tmp,
{
}

/// The scratch of the collapse holds half of the components, four columns to work with, a
/// column of the product's input, and the larger of the scratches of its two products.
pub proof fn law_collapse_scratch_holds_columns(
    n: usize,
    aggregate_size: usize,
    vmp_input_size: usize,
    key_g: usize,
    key_h: usize,
    half: usize,
    column: usize,
    input: usize,
    r: usize,
)
    requires
        call_ensures(aligned_bytes, (n, (n / 2) as usize, aggregate_size), half),
        call_ensures(aligned_bytes, (n, 1usize, aggregate_size), column),
        call_ensures(aligned_bytes, (n, 1usize, vmp_input_size), input),
        call_ensures(
            precompute_sequential_keyswitch_collapse_aggregate_mask_tmp_bytes,
            (n, aggregate_size, vmp_input_size, key_g, key_h),
            r,
        ),
    ensures
        key_g >= key_h ==> r == half + 4 * column + input + key_g,
        key_h >= key_g ==> r == half + 4 * column + input + key_h,
{
}

/// The scratch of the mask side serves each of its steps: the keys, the collapse in wide
/// limbs, the projection to baby steps and normalization; and it is that of one of them.
pub proof fn law_mask_side_scratch_serves_every_step(
    n: usize,
    metadata: PackingPrecomputeInfos,
    mask_keys: usize,
    product: usize,
    normalize_tmp: usize,
    wide: PackingPrecomputeInfos,
    collapse: usize,
    babies: usize,
    r: usize,
)
    requires
        call_ensures(arithmetic_precompute_metadata, (metadata,), wide),
        call_ensures(
            precompute_sequential_keyswitch_collapse_aggregate_mask_tmp_bytes,
            (n, wide.size, metadata.size, product, product),
            collapse,
        ),
        call_ensures(sequential_collapse_bsgs_dft_build_tmp_bytes, (n, metadata), babies),
        call_ensures(
            pack_precompute_tmp_bytes,
            (n, metadata, mask_keys, product, normalize_tmp),
            r,
        ),
    ensures
        r >= mask_keys,
        r >= collapse,
        r >= babies,
        r >= normalize_tmp,
        r == mask_keys || r == collapse || r == babies || r == normalize_tmp,
{
}

/// The projection to baby steps needs one aligned column of a mask, and both mask keys need
/// their aligned bytes and the preparation of one of them.
pub proof fn law_small_scratches(
    n: usize,
    metadata: PackingPrecomputeInfos,
    column: usize,
    babies: usize,
    key_bytes: usize,
    prepare_tmp: usize,
    key: usize,
    keys: usize,
)
    requires
        call_ensures(aligned_bytes, (n, 1usize, metadata.size), column),
        call_ensures(sequential_collapse_bsgs_dft_build_tmp_bytes, (n, metadata), babies),
        call_ensures(next_multiple_of, (key_bytes, 64usize), key),
        call_ensures(packing_mask_keys_precompute_tmp_bytes, (key_bytes, prepare_tmp), keys),
    ensures
        babies == column,
        keys == key + key + prepare_tmp,
{
}

} // verus!
