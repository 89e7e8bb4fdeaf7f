//! The modulus switch under encryption: what a ciphertext decrypts to keeps its place when
//! every coefficient is rounded to fewer bits.

use vstd::prelude::*;
use vstd::arithmetic::div_mod::*;
use vstd::arithmetic::power2::*;
use crate::arith::lemma_quotient;
use crate::encoding::{limb_value, limbs_fit, limbs_hold, padding, rounded};
use crate::limbs::LimbVec;
use crate::packing::recursion::coefficient_limbs;
use crate::retrieval::{limb_phase, packed_phase};
use crate::ring::abs;
use crate::sums::int_sum;

verus! {

/// Sum of the magnitudes of row `j` of the key.
pub open spec fn key_weight(key: spec_fn(int, int) -> int, j: int, n: int) -> int {
    int_sum(0, n, |i: int| abs(key(j, i)))
}

/// What rounding to `bits` bits adds to a coefficient.
pub open spec fn rounding_error(bits: int, limbs: Seq<int>, base2k: int) -> int {
    rounded(bits, limbs, base2k) * pow2(padding(bits, base2k, limbs.len() as int)) - limb_value(
        limbs,
        base2k as nat,
    )
}

proof fn lemma_rounding_error(bits: int, limbs: Seq<int>, base2k: int)
    ensures
        2 * abs(rounding_error(bits, limbs, base2k)) <= pow2(
            padding(bits, base2k, limbs.len() as int),
        ),
{
    let e = padding(bits, base2k, limbs.len() as int);
    let unit = pow2(e) as int;
    let v = limb_value(limbs, base2k as nat);
    lemma_pow2_pos(e);
    lemma_fundamental_div_mod(v + unit / 2, unit);
    lemma_mod_bound(v + unit / 2, unit);
    let c = (v + unit / 2) / unit;
    assert(unit * c == c * unit) by (nonlinear_arith);
}

/// The coefficient after the switch, in units of the one before it.
proof fn lemma_switched_value(bits: int, src: Seq<int>, base2k: int, dst: Seq<int>) -> (m: int)
    requires
        limbs_fit(bits, base2k, src.len() as int),
        bits <= 16 * dst.len(),
        limbs_hold(bits, dst, 16, rounded(bits, src, base2k)),
    ensures
        pow2(padding(bits, base2k, src.len() as int)) * limb_value(dst, 16) == pow2(
            padding(bits, 16, dst.len() as int),
        ) * (limb_value(src, base2k as nat) + rounding_error(bits, src, base2k)) + (pow2(
            padding(bits, 16, dst.len() as int),
        ) * pow2((base2k * src.len()) as nat)) * m,
{
    let e = padding(bits, base2k, src.len() as int);
    let f = padding(bits, 16, dst.len() as int);
    let wide = (base2k * src.len()) as nat;
    let narrow = (16 * dst.len()) as nat;
    let s = pow2(e) as int;
    let t = pow2(f) as int;
    let c = rounded(bits, src, base2k);
    let x = limb_value(dst, 16);
    let v = limb_value(src, base2k as nat);
    let d = rounding_error(bits, src, base2k);
    lemma_pow2_adds(e, narrow);
    lemma_pow2_adds(f, wide);
    assert(e + narrow == f + wide);
    lemma_pow2_pos(narrow);
    let w = pow2(narrow) as int;
    let big = pow2(wide) as int;
    lemma_fundamental_div_mod(x - c * t, w);
    let m = (x - c * t) / w;
    assert(s * x == t * (v + d) + (t * big) * m) by (nonlinear_arith)
        requires
            x - c * t == w * m + 0,
            d == c * s - v,
            s * w == t * big,
    ;
    m
}

/// Sums of switched coefficients, weighted by a key.
pub proof fn lemma_switched_sum(
    n: int,
    s: int,
    t: int,
    big: int,
    x: spec_fn(int) -> int,
    v: spec_fn(int) -> int,
    d: spec_fn(int) -> int,
    m: spec_fn(int) -> int,
    key: spec_fn(int) -> int,
)
    requires
        n >= 0,
        s >= 1,
        forall|i: int|
            0 <= i < n ==> {
                &&& s * #[trigger] x(i) == t * (v(i) + d(i)) + big * m(i)
                &&& 2 * abs(d(i)) <= s
            },
    ensures
        s * int_sum(0, n, |i: int| x(i) * key(i)) == t * (int_sum(0, n, |i: int| v(i) * key(i))
            + int_sum(0, n, |i: int| d(i) * key(i))) + big * int_sum(
            0,
            n,
            |i: int| m(i) * key(i),
        ),
        2 * abs(int_sum(0, n, |i: int| d(i) * key(i))) <= s * int_sum(
            0,
            n,
            |i: int| abs(key(i)),
        ),
    decreases n,
{
    let fx = |i: int| x(i) * key(i);
    let fv = |i: int| v(i) * key(i);
    let fd = |i: int| d(i) * key(i);
    let fm = |i: int| m(i) * key(i);
    let fk = |i: int| abs(key(i));
    if n == 0 {
        assert(s * 0 == t * (0 + 0) + big * 0) by (nonlinear_arith);
        assert(s * 0 == 0) by (nonlinear_arith);
    } else {
        let i = n - 1;
        lemma_switched_sum(i, s, t, big, x, v, d, m, key);
        let (sx, sv, sd, sm, sk) = (
            int_sum(0, i, fx),
            int_sum(0, i, fv),
            int_sum(0, i, fd),
            int_sum(0, i, fm),
            int_sum(0, i, fk),
        );
        let (x1, v1, d1, m1, k1) = (x(i), v(i), d(i), m(i), key(i));
        assert(s * (x1 * k1) == t * (v1 * k1 + d1 * k1) + big * (m1 * k1)) by (nonlinear_arith)
            requires
                s * x1 == t * (v1 + d1) + big * m1,
        ;
        assert(s * (sx + x1 * k1) == t * ((sv + v1 * k1) + (sd + d1 * k1)) + big * (sm + m1 * k1))
            by (nonlinear_arith)
            requires
                s * sx == t * (sv + sd) + big * sm,
                s * (x1 * k1) == t * (v1 * k1 + d1 * k1) + big * (m1 * k1),
        ;
        assert(2 * abs(d1 * k1) <= s * abs(k1)) by (nonlinear_arith)
            requires
                2 * abs(d1) <= s,
                s >= 1,
        ;
        assert(s * (sk + abs(k1)) == s * sk + s * abs(k1)) by (nonlinear_arith);
    }
}

/// The modulus switch keeps what a ciphertext decrypts to: in the units of either modulus
/// it is the same element, up to half a unit of the smaller one for the body and for every
/// unit of weight of the key. `delta` is that difference, in units of the larger modulus.
pub proof fn law_switch_keeps_phase(
    src: LimbVec,
    base2k: int,
    bits: int,
    switched: LimbVec,
    key: spec_fn(int, int) -> int,
    j: int,
) -> (delta: int)
    requires
        limbs_fit(bits, base2k, src.size as int),
        src.cols == 2,
        switched.n == src.n,
        bits <= 16 * switched.size,
        forall|col: int, i: int|
            0 <= col < src.cols && 0 <= i < src.n ==> limbs_hold(
                bits,
                #[trigger] coefficient_limbs(switched, col, i),
                16,
                rounded(bits, coefficient_limbs(src, col, i), base2k),
            ),
        0 <= j < src.n,
    ensures
        2 * abs(delta) <= pow2(padding(bits, base2k, src.size as int)) * (1 + key_weight(
            key,
            j,
            src.n as int,
        )),
        (pow2(padding(bits, base2k, src.size as int)) * packed_phase(switched, key, j) - pow2(
            padding(bits, 16, switched.size as int),
        ) * (limb_phase(src, base2k as nat, key, j) + delta)) % (pow2(
            padding(bits, 16, switched.size as int),
        ) * pow2((base2k * src.size) as nat)) as int == 0,
{
    let n = src.n as int;
    let e = padding(bits, base2k, src.size as int);
    let f = padding(bits, 16, switched.size as int);
    let s = pow2(e) as int;
    let t = pow2(f) as int;
    lemma_pow2_pos(e);
    lemma_pow2_pos(f);
    lemma_pow2_pos((base2k * src.size) as nat);
    let wide = pow2((base2k * src.size) as nat) as int;
    let big = t * wide;
    assert(big >= 1) by (nonlinear_arith)
        requires
            t >= 1,
            wide >= 1,
            big == t * wide,
    ;
    let x = |i: int| limb_value(coefficient_limbs(switched, 1, i), 16);
    let v = |i: int| limb_value(coefficient_limbs(src, 1, i), base2k as nat);
    let d = |i: int| rounding_error(bits, coefficient_limbs(src, 1, i), base2k);
    let m = |i: int| (s * x(i) - t * (v(i) + d(i))) / big;
    let row = |i: int| key(j, i);
    assert forall|i: int| 0 <= i < n implies {
        &&& s * #[trigger] x(i) == t * (v(i) + d(i)) + big * m(i)
        &&& 2 * abs(d(i)) <= s
    } by {
        let a = coefficient_limbs(src, 1, i);
        let b = coefficient_limbs(switched, 1, i);
        let wraps = lemma_switched_value(bits, a, base2k, b);
        lemma_rounding_error(bits, a, base2k);
        lemma_quotient(s * x(i) - t * (v(i) + d(i)), big, wraps, 0);
    }
    lemma_switched_sum(n, s, t, big, x, v, d, m, row);
    let a = coefficient_limbs(src, 0, j);
    let b = coefficient_limbs(switched, 0, j);
    let body_wraps = lemma_switched_value(bits, a, base2k, b);
    lemma_rounding_error(bits, a, base2k);
    let d0 = rounding_error(bits, a, base2k);
    let fd = |i: int| d(i) * row(i);
    let fm = |i: int| m(i) * row(i);
    let fk = |i: int| abs(row(i));
    let (sd, sm, sk) = (int_sum(0, n, fd), int_sum(0, n, fm), int_sum(0, n, fk));
    let delta = d0 + sd;
    crate::sums::lemma_int_sum_congruent(0, n, fk, |i: int| abs(key(j, i)));
    assert(s * (1 + sk) == s + s * sk) by (nonlinear_arith);
    let x0 = limb_value(b, 16);
    let v0 = limb_value(a, base2k as nat);
    let fx = |i: int| x(i) * row(i);
    let fv = |i: int| v(i) * row(i);
    let (sx, sv) = (int_sum(0, n, fx), int_sum(0, n, fv));
    assert(packed_phase(switched, key, j) == x0 + sx);
    assert(limb_phase(src, base2k as nat, key, j) == v0 + sv);
    assert(s * (x0 + sx) - t * (v0 + sv + (d0 + sd)) == big * (body_wraps + sm) + 0)
        by (nonlinear_arith)
        requires
            s * x0 == t * (v0 + d0) + big * body_wraps,
            s * sx == t * (sv + sd) + big * sm,
    ;
    lemma_quotient(
        s * (x0 + sx) - t * (v0 + sv + (d0 + sd)),
        big,
        body_wraps + sm,
        0,
    );
    delta
}

} // verus!
