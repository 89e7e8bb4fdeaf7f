//! Packing keys: the rotations that line client keys up with the collapse, and the
//! checks that a received pair of keys belongs together.

use vstd::prelude::*;
use vstd::arithmetic::div_mod::*;
use vstd::arithmetic::power::{lemma_pow0, pow};
use crate::arith::lemma_quotient;
use crate::matrix::lemma_flat_index;
use crate::messages::seeds_view;
use crate::packing::bsgs_pack::{baby_automorphism, spec_baby_automorphism};
use crate::packing::collapse::{machine_exponent, ring_degree, secret_view};
use crate::ring::{
    automorphism, law_automorphism_composes, law_automorphism_identity, negacyclic, odd,
    spec_galois_element, Poly,
};

verus! {

/// Rotation of the final key: `X -> X^-1`.
pub const KEY_H_ROTATION: i64 = -1;

/// Shape of a gadget key.
#[derive(Clone, Copy, Debug, PartialEq, Eq, Structural)]
pub struct KeyLayout {
    pub n: usize,
    pub base2k: usize,
    pub k: usize,
    pub rank_in: usize,
    pub rank_out: usize,
    pub dnum: usize,
    pub dsize: usize,
}

/// The public part of a compressed automorphism key.
#[derive(Debug)]
pub struct KeyHeader {
    pub layout: KeyLayout,
    /// Galois element that the key was generated with.
    pub p: i64,
    /// Mask seeds, one per gadget entry.
    pub seeds: Vec<[u8; 32]>,
}

/// Why two keys do not form a packing pair, in the order in which it is checked.
#[derive(Clone, Copy, Debug, PartialEq, Eq, Structural)]
pub enum KeyMismatch {
    Degree,
    Base2k,
    Precision,
    InputRank,
    Dnum,
    Dsize,
    MaskSeed,
    KeyGRotation,
    KeyHRotation,
}

/// The first way in which two keys differ, if any.
pub open spec fn spec_mask_mismatch(g: KeyHeader, h: KeyHeader) -> Option<KeyMismatch> {
    if g.layout.n != h.layout.n {
        Some(KeyMismatch::Degree)
    } else if g.layout.base2k != h.layout.base2k {
        Some(KeyMismatch::Base2k)
    } else if g.layout.k != h.layout.k {
        Some(KeyMismatch::Precision)
    } else if g.layout.rank_in != h.layout.rank_in {
        Some(KeyMismatch::InputRank)
    } else if g.layout.dnum != h.layout.dnum {
        Some(KeyMismatch::Dnum)
    } else if g.layout.dsize != h.layout.dsize {
        Some(KeyMismatch::Dsize)
    } else if seeds_view(g.seeds@) != seeds_view(h.seeds@) {
        Some(KeyMismatch::MaskSeed)
    } else {
        None
    }
}

/// The first way in which a pair of keys is unfit for a full pack, if any.
pub open spec fn spec_full_pack_mismatch(g: KeyHeader, h: KeyHeader, n: int) -> Option<KeyMismatch> {
    match spec_mask_mismatch(g, h) {
        Some(e) => Some(e),
        None => if g.p != spec_galois_element(1, 2 * n) {
            Some(KeyMismatch::KeyGRotation)
        } else if h.p != KEY_H_ROTATION {
            Some(KeyMismatch::KeyHRotation)
        } else {
            None
        },
    }
}

fn same_seed(a: &[u8; 32], b: &[u8; 32]) -> (r: bool)
    ensures
        r == (a@ == b@),
{
    let mut i: usize = 0;
    while i < 32
        invariant
            i <= 32,
            forall|j: int| 0 <= j < i ==> a@[j] == b@[j],
        decreases 32 - i,
    {
        if a[i] != b[i] {
            return false;
        }
        i = i + 1;
    }
    assert(a@ =~= b@);
    true
}

fn same_seeds(a: &Vec<[u8; 32]>, b: &Vec<[u8; 32]>) -> (r: bool)
    ensures
        r == (seeds_view(a@) == seeds_view(b@)),
{
    if a.len() != b.len() {
        proof {
            assert(seeds_view(a@).len() != seeds_view(b@).len());
        }
        return false;
    }
    let mut i: usize = 0;
    while i < a.len()
        invariant
            i <= a.len(),
            a.len() == b.len(),
            forall|j: int| 0 <= j < i ==> #[trigger] a@[j]@ == b@[j]@,
        decreases a.len() - i,
    {
        if !same_seed(&a[i], &b[i]) {
            proof {
                assert(seeds_view(a@)[i as int] != seeds_view(b@)[i as int]);
            }
            return false;
        }
        i = i + 1;
    }
    assert(seeds_view(a@) =~= seeds_view(b@));
    true
}

/// Checks that two keys have one shape and one mask seed.
pub fn check_same_mask_seed(key_g: &KeyHeader, key_h: &KeyHeader) -> (r: Result<(), KeyMismatch>)
    ensures
        match spec_mask_mismatch(*key_g, *key_h) {
            Some(e) => r == Err::<(), KeyMismatch>(e),
            None => r is Ok,
        },
{
    if key_g.layout.n != key_h.layout.n {
        Err(KeyMismatch::Degree)
    } else if key_g.layout.base2k != key_h.layout.base2k {
        Err(KeyMismatch::Base2k)
    } else if key_g.layout.k != key_h.layout.k {
        Err(KeyMismatch::Precision)
    } else if key_g.layout.rank_in != key_h.layout.rank_in {
        Err(KeyMismatch::InputRank)
    } else if key_g.layout.dnum != key_h.layout.dnum {
        Err(KeyMismatch::Dnum)
    } else if key_g.layout.dsize != key_h.layout.dsize {
        Err(KeyMismatch::Dsize)
    } else if !same_seeds(&key_g.seeds, &key_h.seeds) {
        Err(KeyMismatch::MaskSeed)
    } else {
        Ok(())
    }
}

/// Checks that two keys are fit for a full pack over a ring of degree `n`.
pub fn check_full_pack_keys(key_g: &KeyHeader, key_h: &KeyHeader, n: usize) -> (r: Result<
    (),
    KeyMismatch,
>)
    requires
        ring_degree(n as int),
    ensures
        match spec_full_pack_mismatch(*key_g, *key_h, n as int) {
            Some(e) => r == Err::<(), KeyMismatch>(e),
            None => r is Ok,
        },
{
    match check_same_mask_seed(key_g, key_h) {
        Err(e) => Err(e),
        Ok(()) => {
            if key_g.p != key_g_rotation(n, 1) {
                Err(KeyMismatch::KeyGRotation)
            } else if key_h.p != KEY_H_ROTATION {
                Err(KeyMismatch::KeyHRotation)
            } else {
                Ok(())
            }
        },
    }
}

/// Checks that a key is fit for a partial pack over the generator `5^stride`.
pub fn check_partial_pack_key(key_g: &KeyHeader, n: usize, stride: usize) -> (r: Result<
    (),
    KeyMismatch,
>)
    requires
        ring_degree(n as int),
        machine_exponent(stride as int),
    ensures
        r is Ok <==> key_g.p == spec_galois_element(stride as int, 2 * n as int),
        r is Err ==> r == Err::<(), KeyMismatch>(KeyMismatch::KeyGRotation),
{
    if key_g.p != key_g_rotation(n, stride) {
        Err(KeyMismatch::KeyGRotation)
    } else {
        Ok(())
    }
}

/// Rotation of the key that walks the generator `5^stride`.
pub fn key_g_rotation(n: usize, stride: usize) -> (r: i64)
    requires
        ring_degree(n as int),
        machine_exponent(stride as int),
    ensures
        r == spec_galois_element(stride as int, 2 * n as int),
        -2 * n < r < 2 * n,
        odd(r as int),
{
    assert(stride * 1 == stride);
    secret_view(n, stride, false, 1)
}

/// How a key column is projected: copied, or sent through an automorphism.
#[derive(Clone, Copy, Debug, PartialEq, Eq, Structural)]
pub enum KeyView {
    Copy,
    Automorphism(i64),
}

/// The projection for a rotation.
pub fn key_view(rotation: i64) -> (r: KeyView)
    ensures
        r == (if rotation == 1 {
            KeyView::Copy
        } else {
            KeyView::Automorphism(rotation)
        }),
{
    if rotation == 1 {
        KeyView::Copy
    } else {
        KeyView::Automorphism(rotation)
    }
}

/// What a projection does to a polynomial.
pub open spec fn apply_view(n: int, view: KeyView, f: Poly) -> Poly {
    match view {
        KeyView::Copy => f,
        KeyView::Automorphism(p) => automorphism(n, p as int, f),
    }
}

/// Copying for the rotation one is applying its automorphism.
pub proof fn law_copy_is_identity_view(n: int, rotation: i64, f: Poly)
    requires
        n >= 1,
        negacyclic(n, f),
    ensures
        apply_view(
            n,
            if rotation == 1 {
                KeyView::Copy
            } else {
                KeyView::Automorphism(rotation)
            },
            f,
        ) == automorphism(n, rotation as int, f),
{
    if rotation == 1 {
        lemma_small_mod(1, (2 * n) as nat);
        law_automorphism_identity(n, 1, f);
    }
}

/// Rotations of the `key_g` body under which the baby steps see it.
pub fn baby_rotations(n: usize, rotation: i64, stride: usize, baby_size: usize) -> (r: Vec<i64>)
    requires
        ring_degree(n as int),
        -2 * n < rotation < 2 * n,
        (2 * n) * (2 * n) <= i64::MAX,
        machine_exponent(stride * baby_size),
    ensures
        r.len() == baby_size,
        forall|b: int|
            0 <= b < baby_size ==> #[trigger] r@[b] == rotation * spec_baby_automorphism(
                n as int,
                stride as int,
                b,
            ),
{
    let mut r: Vec<i64> = Vec::new();
    let mut baby: usize = 0;
    while baby < baby_size
        invariant
            ring_degree(n as int),
            -2 * n < rotation < 2 * n,
            (2 * n) * (2 * n) <= i64::MAX,
            machine_exponent(stride * baby_size),
            baby <= baby_size,
            r.len() == baby,
            forall|b: int|
                0 <= b < baby ==> #[trigger] r@[b] == rotation * spec_baby_automorphism(
                    n as int,
                    stride as int,
                    b,
                ),
        decreases baby_size - baby,
    {
        assert(stride * baby <= stride * baby_size) by (nonlinear_arith)
            requires
                baby <= baby_size,
                stride >= 0,
        ;
        let view: i64 = baby_automorphism(n, stride, baby);
        assert(-((2 * n) * (2 * n)) <= rotation * view <= (2 * n) * (2 * n)) by (nonlinear_arith)
            requires
                -2 * n < rotation < 2 * n,
                -2 * n < view < 2 * n,
        ;
        r.push(rotation * view);
        baby = baby + 1;
    }
    r
}

/// The key at a baby step is the baby view of the key realigned by `rotation`.
pub proof fn law_baby_key_is_viewed_key(n: int, rotation: int, stride: int, baby: int, key: Poly)
    requires
        n >= 1,
    ensures
        automorphism(n, rotation * spec_baby_automorphism(n, stride, baby), key) == automorphism(
            n,
            spec_baby_automorphism(n, stride, baby),
            automorphism(n, rotation, key),
        ),
{
    let w = spec_baby_automorphism(n, stride, baby);
    law_automorphism_composes(n, w, rotation, key);
    assert(w * rotation == rotation * w) by (nonlinear_arith);
}

/// One gadget entry of a key and the seed that expands its mask.
#[derive(Clone, Copy, Debug, PartialEq, Eq, Structural)]
pub struct KeyEntry {
    pub row: usize,
    pub col: usize,
    pub seed: usize,
}

/// Position of entry `(row, col)` in row-major order.
pub open spec fn entry_at(index: int, rank_in: int) -> (int, int) {
    (index / rank_in, index % rank_in)
}

/// The entries of a key, in the order in which they are stored and transmitted.
pub fn key_entries(dnum: usize, rank_in: usize) -> (r: Vec<KeyEntry>)
    requires
        dnum * rank_in <= usize::MAX,
    ensures
        r.len() == dnum * rank_in,
        forall|i: int|
            0 <= i < r.len() ==> {
                &&& (#[trigger] r@[i]).seed == i
                &&& (r@[i].row as int, r@[i].col as int) == entry_at(i, rank_in as int)
                &&& r@[i].row < dnum
                &&& r@[i].col < rank_in
            },
{
    let mut r: Vec<KeyEntry> = Vec::new();
    let mut row: usize = 0;
    proof {
        assert(0 * rank_in == 0) by (nonlinear_arith);
    }
    while row < dnum
        invariant
            dnum * rank_in <= usize::MAX,
            row <= dnum,
            r.len() == row * rank_in,
            forall|i: int|
                0 <= i < r.len() ==> {
                    &&& (#[trigger] r@[i]).seed == i
                    &&& (r@[i].row as int, r@[i].col as int) == entry_at(i, rank_in as int)
                    &&& r@[i].row < dnum
                    &&& r@[i].col < rank_in
                },
        decreases dnum - row,
    {
        let mut col: usize = 0;
        assert((row + 1) * rank_in == row * rank_in + rank_in && (row + 1) * rank_in <= dnum
            * rank_in && row * rank_in >= 0)
            by (nonlinear_arith)
            requires
                row + 1 <= dnum,
                rank_in >= 0,
                row >= 0,
        ;
        while col < rank_in
            invariant
                dnum * rank_in <= usize::MAX,
                row < dnum,
                col <= rank_in,
                row * rank_in >= 0,
                row * rank_in + rank_in <= dnum * rank_in,
                r.len() == row * rank_in + col,
                forall|i: int|
                    0 <= i < r.len() ==> {
                        &&& (#[trigger] r@[i]).seed == i
                        &&& (r@[i].row as int, r@[i].col as int) == entry_at(i, rank_in as int)
                        &&& r@[i].row < dnum
                        &&& r@[i].col < rank_in
                    },
            decreases rank_in - col,
        {
            let seed: usize = row * rank_in + col;
            proof {
                lemma_quotient(
                    row * rank_in + col,
                    rank_in as int,
                    row as int,
                    col as int,
                );
            }
            r.push(KeyEntry { row, col, seed });
            col = col + 1;
        }
        row = row + 1;
    }
    r
}

/// Layout of the mask projection of a key: the same gadget, without output columns
/// beyond the mask.
pub fn mask_key_layout(key: KeyLayout) -> (r: KeyLayout)
    ensures
        r == (KeyLayout { rank_out: 0, ..key }),
{
    KeyLayout {
        n: key.n,
        base2k: key.base2k,
        k: key.k,
        rank_in: key.rank_in,
        rank_out: 0,
        dnum: key.dnum,
        dsize: key.dsize,
    }
}

// ---------------------------------------------------------------------------
// Which keys belong together
// ---------------------------------------------------------------------------

/// Two keys expand one mask: all that their masks depend on is the same.
pub open spec fn share_masks(g: KeyHeader, h: KeyHeader) -> bool {
    &&& g.layout.n == h.layout.n
    &&& g.layout.base2k == h.layout.base2k
    &&& g.layout.k == h.layout.k
    &&& g.layout.rank_in == h.layout.rank_in
    &&& g.layout.dnum == h.layout.dnum
    &&& g.layout.dsize == h.layout.dsize
    &&& g.seeds@.len() == h.seeds@.len()
    &&& forall|i: int| 0 <= i < g.seeds@.len() ==> (#[trigger] g.seeds@[i])@ == h.seeds@[i]@
}

/// A pair of keys is accepted exactly where both expand one mask, the first walks the
/// generator and the second is the conjugation. Whatever else they hold, no other pair is
/// refused.
pub proof fn law_packing_keys_belong_together(
    g: &KeyHeader,
    h: &KeyHeader,
    n: usize,
    rotation: i64,
    masks: Result<(), KeyMismatch>,
    keys: Result<(), KeyMismatch>,
)
    requires
        ring_degree(n as int),
        call_ensures(key_g_rotation, (n, 1usize), rotation),
        call_ensures(check_same_mask_seed, (g, h), masks),
        call_ensures(check_full_pack_keys, (g, h, n), keys),
    ensures
        masks is Ok <==> share_masks(*g, *h),
        keys is Ok <==> share_masks(*g, *h) && g.p == rotation && h.p == -1,
        masks is Err ==> keys == masks,
        masks is Ok && g.p != rotation ==> keys == Err::<(), KeyMismatch>(
            KeyMismatch::KeyGRotation,
        ),
        masks is Ok && g.p == rotation && h.p != -1 ==> keys == Err::<(), KeyMismatch>(
            KeyMismatch::KeyHRotation,
        ),
{
    lemma_seeds_alike(*g, *h);
}

proof fn lemma_seeds_alike(g: KeyHeader, h: KeyHeader)
    ensures
        seeds_view(g.seeds@) == seeds_view(h.seeds@) <==> g.seeds@.len() == h.seeds@.len()
            && forall|i: int| 0 <= i < g.seeds@.len() ==> (#[trigger] g.seeds@[i])@ == h.seeds@[i]@,
{
    let a = seeds_view(g.seeds@);
    let b = seeds_view(h.seeds@);
    if a == b {
        assert(a.len() == b.len());
        assert forall|i: int| 0 <= i < g.seeds@.len() implies (#[trigger] g.seeds@[i])@
            == h.seeds@[i]@ by {
            assert(a[i] == b[i]);
        }
    }
    if g.seeds@.len() == h.seeds@.len() && forall|i: int|
        0 <= i < g.seeds@.len() ==> (#[trigger] g.seeds@[i])@ == h.seeds@[i]@ {
        assert(a =~= b);
    }
}

/// A mismatch of masks names what differs; what is checked before it is the same.
pub proof fn law_mismatch_names_a_difference(g: &KeyHeader, h: &KeyHeader, e: KeyMismatch)
    requires
        call_ensures(check_same_mask_seed, (g, h), Err::<(), KeyMismatch>(e)),
    ensures
        match e {
            KeyMismatch::Degree => g.layout.n != h.layout.n,
            KeyMismatch::Base2k => g.layout.n == h.layout.n && g.layout.base2k != h.layout.base2k,
            KeyMismatch::Precision => g.layout.base2k == h.layout.base2k && g.layout.k
                != h.layout.k,
            KeyMismatch::InputRank => g.layout.k == h.layout.k && g.layout.rank_in
                != h.layout.rank_in,
            KeyMismatch::Dnum => g.layout.rank_in == h.layout.rank_in && g.layout.dnum
                != h.layout.dnum,
            KeyMismatch::Dsize => g.layout.dnum == h.layout.dnum && g.layout.dsize
                != h.layout.dsize,
            KeyMismatch::MaskSeed => g.layout.dsize == h.layout.dsize && !share_masks(*g, *h),
            _ => false,
        },
{
    lemma_seeds_alike(*g, *h);
}

/// The key of a partial pack is accepted exactly where it walks the generator of its stride.
pub proof fn law_partial_key_walks_its_stride(
    g: &KeyHeader,
    n: usize,
    stride: usize,
    rotation: i64,
    r: Result<(), KeyMismatch>,
)
    requires
        ring_degree(n as int),
        machine_exponent(stride as int),
        call_ensures(key_g_rotation, (n, stride), rotation),
        call_ensures(check_partial_pack_key, (g, n, stride), r),
    ensures
        r == (if g.p == rotation {
            Ok::<(), KeyMismatch>(())
        } else {
            Err(KeyMismatch::KeyGRotation)
        }),
{
    match r {
        Ok(x) => {
            assert(x == ());
        },
        Err(_) => {},
    }
}

/// Rotations compose: the rotation of a stride is a power of five, of that exponent, modulo
/// twice the degree, and that of stride zero is one.
pub proof fn law_rotation_is_a_power_of_five(n: usize, stride: usize, rotation: i64)
    requires
        ring_degree(n as int),
        machine_exponent(stride as int),
        call_ensures(key_g_rotation, (n, stride), rotation),
    ensures
        (rotation - pow(5, stride as nat)) % (2 * n as int) == 0,
        0 <= rotation < 2 * n,
{
    let m = 2 * n as int;
    let x = pow(5, stride as nat);
    if stride == 0 {
        lemma_pow0(5);
        lemma_small_mod(0, m as nat);
    } else {
        lemma_fundamental_div_mod(x, m);
        lemma_mod_bound(x, m);
        let q = x / m;
        assert(rotation - x == m * (-q)) by (nonlinear_arith)
            requires
                x == m * q + rotation,
        ;
        lemma_quotient(rotation - x, m, -q, 0);
    }
}

/// The entries of a key come row by row, each with a seed of its own.
pub proof fn law_entries_come_row_by_row(
    dnum: usize,
    rank_in: usize,
    r: Vec<KeyEntry>,
    row: int,
    col: int,
)
    requires
        dnum * rank_in <= usize::MAX,
        call_ensures(key_entries, (dnum, rank_in), r),
        0 <= row < dnum,
        0 <= col < rank_in,
    ensures
        r@.len() == dnum * rank_in,
        0 <= row * rank_in + col < r@.len(),
        r@[row * rank_in + col].row == row,
        r@[row * rank_in + col].col == col,
        r@[row * rank_in + col].seed == row * rank_in + col,
{
    lemma_flat_index(row, col, dnum as int, rank_in as int);
    lemma_quotient(row * rank_in + col, rank_in as int, row, col);
}

} // verus!
