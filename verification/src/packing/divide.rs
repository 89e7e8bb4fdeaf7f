//! Division of mask rows by their number, and rounding of what comes of it.
//!
//! Aggregation multiplies what it packs by the number of rows, so rows are divided by it
//! first. They are kept in limbs of 60 bits for that, and the components are rounded back.

use vstd::prelude::*;
use vstd::arithmetic::div_mod::*;
use vstd::arithmetic::power2::*;
use crate::arith::{lemma_quotient, min, spec_min};
use crate::encoding::{centre_i128, centred_residue, lemma_centred_residue};
use crate::interpolation::{extend, polys_of};
use crate::packing::aggregate::in_range;
use crate::ring::Poly;
use crate::sums::{lemma_multiple_scales, lemma_multiples_add};

verus! {

/// Bits of the limbs in which rows are aggregated.
pub const ARITHMETIC_BITS: usize = 60;

/// Bits at which rows of `torus_bits` bits are aggregated: those of one limb, or of two.
pub open spec fn arithmetic_bits(torus_bits: int) -> int {
    if torus_bits <= ARITHMETIC_BITS {
        60
    } else {
        120
    }
}

/// The integer nearest to `x / d`; halves are rounded up.
pub open spec fn nearest(x: int, d: int) -> int {
    (x + d / 2) / d
}

/// The logarithm of a power of two.
pub open spec fn levels_of(n: int) -> nat {
    choose|k: nat| #[trigger] pow2(k) == n
}

pub proof fn lemma_levels(n: int, k: nat)
    requires
        pow2(k) == n,
    ensures
        levels_of(n) == k,
{
    let l = levels_of(n);
    assert(pow2(l) == n);
    if l < k {
        lemma_pow2_strictly_increases(l, k);
    } else if k < l {
        lemma_pow2_strictly_increases(k, l);
    }
}

/// Bits below the precision that a division by `2^levels` keeps.
pub open spec fn spare_bits(levels: int, torus_bits: int) -> int {
    spec_min(levels, arithmetic_bits(torus_bits) - torus_bits)
}

pub fn spare(levels: usize, torus_bits: usize) -> (r: usize)
    requires
        torus_bits <= 62,
    ensures
        r == spare_bits(levels as int, torus_bits as int),
{
    if torus_bits <= ARITHMETIC_BITS {
        min(levels, ARITHMETIC_BITS - torus_bits)
    } else {
        min(levels, 120 - torus_bits)
    }
}

/// A division rounds to the nearest: `d` times the quotient is at most half of `d` away.
pub proof fn law_nearest_is_near(x: int, d: int)
    requires
        d >= 1,
    ensures
        -d <= 2 * (d * nearest(x, d) - x) <= d,
        d == 1 ==> nearest(x, d) == x,
{
    lemma_fundamental_div_mod(x + d / 2, d);
    lemma_mod_bound(x + d / 2, d);
    if d == 1 {
        lemma_quotient(x, 1, x, 0);
    }
}

/// The rows with every coefficient divided.
pub open spec fn divided_polys(n: int, rows: Seq<Vec<i64>>, d: int) -> spec_fn(int) -> Poly {
    |k: int| extend(n, |x: int| nearest(rows[k]@[x] as int, d))
}

pub proof fn lemma_same_extension(n: int, f: spec_fn(int) -> int, g: spec_fn(int) -> int)
    requires
        n >= 1,
        forall|x: int| 0 <= x < n ==> #[trigger] f(x) == g(x),
    ensures
        extend(n, f) == extend(n, g),
{
    let a = extend(n, f);
    let b = extend(n, g);
    assert forall|x: int| #[trigger] a(x) == b(x) by {
        let e = x % (2 * n);
        lemma_mod_bound(x, 2 * n);
        if e < n {
            assert(f(e) == g(e));
        } else {
            assert(f(e - n) == g(e - n));
        }
    }
    assert(a =~= b);
}

fn nearest_i64(x: i64, d: i64) -> (r: i64)
    requires
        1 <= d <= 0x4000_0000_0000_0000,
        -0x4000_0000_0000_0000 <= x <= 0x4000_0000_0000_0000,
    ensures
        r == nearest(x as int, d as int),
        -0x4000_0000_0000_0000 <= r <= 0x4000_0000_0000_0000,
{
    proof {
        let m: int = 0x4000_0000_0000_0000;
        let r = nearest(x as int, d as int);
        law_nearest_is_near(x as int, d as int);
        assert(-m <= r <= m) by (nonlinear_arith)
            requires
                -d <= 2 * (d * r - x) <= d,
                d >= 1,
                -m <= x <= m,
                d == 1 ==> r == x,
                m == 0x4000_0000_0000_0000,
        ;
    }
    match (x as i128 + (d / 2) as i128).checked_div_euclid(d as i128) {
        Some(y) => y as i64,
        None => 0,
    }
}

fn divided_row(row: &Vec<i64>, d: i64) -> (r: Vec<i64>)
    requires
        in_range(row@),
        1 <= d <= 0x4000_0000_0000_0000,
    ensures
        r@.len() == row@.len(),
        in_range(r@),
        forall|x: int|
            0 <= x < row@.len() ==> #[trigger] r@[x] == nearest(row@[x] as int, d as int),
{
    let mut out: Vec<i64> = Vec::new();
    while out.len() < row.len()
        invariant
            out@.len() <= row@.len(),
            in_range(row@),
            1 <= d <= 0x4000_0000_0000_0000,
            in_range(out@),
            forall|x: int|
                0 <= x < out@.len() ==> #[trigger] out@[x] == nearest(row@[x] as int, d as int),
        decreases row@.len() - out@.len(),
    {
        let x: usize = out.len();
        out.push(nearest_i64(row[x], d));
    }
    out
}

/// The first `count` rows, divided.
pub fn divided_rows(rows: &[Vec<i64>], count: usize, n: usize, d: i64) -> (r: Vec<Vec<i64>>)
    requires
        n >= 1,
        count <= rows@.len(),
        1 <= d <= 0x4000_0000_0000_0000,
        forall|k: int| 0 <= k < count ==> (#[trigger] rows@[k])@.len() == n && in_range(rows@[k]@),
    ensures
        r@.len() == count,
        forall|k: int| 0 <= k < count ==> (#[trigger] r@[k])@.len() == n && in_range(r@[k]@),
        forall|k: int|
            0 <= k < count ==> #[trigger] polys_of(n as int, r@)(k) == divided_polys(
                n as int,
                rows@,
                d as int,
            )(k),
{
    let mut out: Vec<Vec<i64>> = Vec::new();
    while out.len() < count
        invariant
            out@.len() <= count,
            count <= rows@.len(),
            1 <= d <= 0x4000_0000_0000_0000,
            forall|k: int|
                0 <= k < count ==> (#[trigger] rows@[k])@.len() == n && in_range(rows@[k]@),
            forall|k: int|
                0 <= k < out@.len() ==> (#[trigger] out@[k])@.len() == n && in_range(out@[k]@),
            forall|k: int, x: int|
                0 <= k < out@.len() && 0 <= x < n ==> #[trigger] out@[k]@[x] == nearest(
                    rows@[k]@[x] as int,
                    d as int,
                ),
        decreases count - out@.len(),
    {
        let k: usize = out.len();
        assert(in_range(rows@[k as int]@));
        let row: Vec<i64> = divided_row(&rows[k], d);
        out.push(row);
    }
    proof {
        assert forall|k: int| 0 <= k < count implies #[trigger] polys_of(n as int, out@)(k)
            == divided_polys(n as int, rows@, d as int)(k) by {
            let f = |x: int| out@[k]@[x] as int;
            let g = |x: int| nearest(rows@[k]@[x] as int, d as int);
            assert forall|x: int| 0 <= x < n implies #[trigger] f(x) == g(x) by {
                assert(out@[k]@[x] == nearest(rows@[k]@[x] as int, d as int));
            }
            lemma_same_extension(n as int, f, g);
        }
    }
    out
}

/// The coefficients of `f` modulo `2^(bits + spare)`, rounded to `bits` bits.
pub open spec fn is_rounded(v: Seq<i64>, n: int, bits: int, spare: int, f: Poly) -> bool {
    &&& v.len() == n
    &&& forall|x: int|
        0 <= x < n ==> #[trigger] v[x] == centred_residue(
            nearest(
                centred_residue(f(x), pow2((bits + spare) as nat) as int),
                pow2(spare as nat) as int,
            ),
            pow2(bits as nat) as int,
        )
}

/// Rounds coefficients to fewer bits: divides them by `d`, and reduces them modulo `q`.
pub fn rounded_off(v: &Vec<i64>, d: i64, q: i64) -> (r: Vec<i64>)
    requires
        in_range(v@),
        1 <= d <= 0x4000_0000_0000_0000,
        q >= 2,
    ensures
        r@.len() == v@.len(),
        forall|x: int|
            0 <= x < v@.len() ==> #[trigger] r@[x] == centred_residue(
                nearest(v@[x] as int, d as int),
                q as int,
            ),
{
    let mut out: Vec<i64> = Vec::new();
    while out.len() < v.len()
        invariant
            out@.len() <= v@.len(),
            in_range(v@),
            1 <= d <= 0x4000_0000_0000_0000,
            q >= 2,
            forall|x: int|
                0 <= x < out@.len() ==> #[trigger] out@[x] == centred_residue(
                    nearest(v@[x] as int, d as int),
                    q as int,
                ),
        decreases v@.len() - out@.len(),
    {
        let x: usize = out.len();
        out.push(centre_i128(nearest_i64(v[x], d) as i128, q));
    }
    out
}

/// A rounded coefficient is near: scaled back, it differs from the coefficient by at most
/// half a unit, modulo `2^(bits + spare)`.
pub proof fn law_rounded_is_near(v: Seq<i64>, n: int, bits: int, spare: int, f: Poly, x: int) -> (e:
    int)
    requires
        bits >= 1,
        spare >= 0,
        is_rounded(v, n, bits, spare, f),
        0 <= x < n,
    ensures
        -pow2(spare as nat) <= 2 * e <= pow2(spare as nat),
        (pow2(spare as nat) * v[x] - (f(x) + e)) % pow2((bits + spare) as nat) as int == 0,
{
    let d = pow2(spare as nat) as int;
    let q = pow2(bits as nat) as int;
    let big = pow2((bits + spare) as nat) as int;
    lemma_pow2_pos(spare as nat);
    lemma_pow2_pos(bits as nat);
    lemma_pow2_adds(bits as nat, spare as nat);
    lemma_pow2_unfold(bits as nat);
    lemma_pow2_pos((bits - 1) as nat);
    assert(big == q * d);
    assert(big >= 2) by (nonlinear_arith)
        requires
            big == q * d,
            q >= 2,
            d >= 1,
    ;
    let c = centred_residue(f(x), big);
    let z = nearest(c, d);
    law_nearest_is_near(c, d);
    lemma_centred_residue(f(x), big);
    lemma_centred_residue(z, q);
    let e = d * z - c;
    // d * (z - v) is a multiple of d * q.
    lemma_fundamental_div_mod(z - v[x], q);
    let m = (z - v[x]) / q;
    assert(d * (z - v[x]) == m * big) by (nonlinear_arith)
        requires
            z - v[x] == q * m + 0,
            big == q * d,
    ;
    lemma_quotient(d * (z - v[x]), big, m, 0);
    lemma_multiple_scales(d * (z - v[x]), -1, big);
    lemma_multiple_scales(f(x) - c, -1, big);
    assert(d * (z - v[x]) == d * z - d * v[x]) by (nonlinear_arith);
    lemma_multiples_add(-1 * (d * (z - v[x])), -1 * (f(x) - c), big);
    assert(d * v[x] - (f(x) + e) == -1 * (d * (z - v[x])) + -1 * (f(x) - c));
    e
}

} // verus!
