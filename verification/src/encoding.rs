//! Residues modulo `p` as torus elements of `k` bits, and torus elements as limbs.
//!
//! A residue `v` is scaled to the nearest multiple of `2^-k` of `v / p`. A torus element
//! is stored in limbs of `base2k` bits, most significant first.

use vstd::prelude::*;
use vstd::arithmetic::div_mod::*;
use vstd::arithmetic::power2::{
    lemma2_to64, lemma_pow2_adds, lemma_pow2_pos, lemma_pow2_strictly_increases, lemma_pow2_unfold,
    pow2,
};
use crate::arith::lemma_quotient;
use crate::limbs::LimbVec;
use crate::packing::recursion::coefficient_limbs;
use crate::ring::abs;

verus! {

/// Encoder of residues modulo `p` into torus elements of `k` bits.
#[derive(Clone, Copy, Debug, PartialEq, Eq, Structural)]
pub struct ModPEncoder {
    pub p: i64,
    pub k: usize,
}

/// Residue of `x` modulo `p`, in `-p / 2 ..= (p - 1) / 2`.
pub open spec fn centred_residue(x: int, p: int) -> int {
    let r = x % p;
    if r > (p - 1) / 2 {
        r - p
    } else {
        r
    }
}

/// The centred residue is congruent, in range, and the only such value.
pub proof fn lemma_centred_residue(x: int, p: int)
    requires
        p >= 2,
    ensures
        (x - centred_residue(x, p)) % p == 0,
        -p / 2 <= centred_residue(x, p) <= (p - 1) / 2,
        forall|y: int| #[trigger] (y % p) == x % p ==> centred_residue(y, p) == centred_residue(x, p),
        -p < 2 * x <= p - 1 ==> centred_residue(x, p) == x,
{
    lemma_fundamental_div_mod(x, p);
    lemma_mod_bound(x, p);
    let q = x / p;
    let c = centred_residue(x, p);
    if c == x % p {
        lemma_quotient(x - c, p, q, 0);
    } else {
        assert(p * (q + 1) == p * q + p) by (nonlinear_arith);
        lemma_quotient(x - c, p, q + 1, 0);
    }
    if -p < 2 * x <= p - 1 {
        if x >= 0 {
            lemma_quotient(x, p, 0, x);
        } else {
            lemma_quotient(x, p, -1, x + p);
        }
    }
}

/// Congruent values have the same centred residue.
pub proof fn lemma_centred_congruent(x: int, m: int, p: int)
    requires
        p >= 2,
    ensures
        centred_residue(x + m * p, p) == centred_residue(x, p),
{
    lemma_fundamental_div_mod(x, p);
    lemma_mod_bound(x, p);
    let q = x / p;
    assert(x + m * p == p * (q + m) + x % p) by (nonlinear_arith)
        requires
            x == p * q + x % p,
    ;
    lemma_quotient(x + m * p, p, q + m, x % p);
}

/// `2^k`, for `k` below 126.
pub fn power_of_two(k: usize) -> (r: i128)
    requires
        k <= 125,
    ensures
        r == pow2(k as nat),
        r >= 1,
{
    let mut r: i128 = 1;
    let mut i: usize = 0;
    proof {
        lemma2_to64();
        lemma_pow2_125();
    }
    while i < k
        invariant
            i <= k <= 125,
            r == pow2(i as nat),
            r >= 1,
            pow2(125) == 0x2000_0000_0000_0000_0000_0000_0000_0000,
        decreases k - i,
    {
        proof {
            lemma_pow2_unfold((i + 1) as nat);
            if i + 1 < 125 {
                lemma_pow2_strictly_increases((i + 1) as nat, 125);
            }
        }
        r = r * 2;
        i = i + 1;
    }
    r
}

proof fn lemma_pow2_125()
    ensures
        pow2(125) == 0x2000_0000_0000_0000_0000_0000_0000_0000,
{
    lemma2_to64();
    lemma_pow2_adds(61, 3);
    lemma_pow2_adds(61, 64);
}

impl ModPEncoder {
    /// Moduli and precisions that the machine words hold.
    pub open spec fn wf(self) -> bool {
        2 <= self.p <= 0x4000_0000_0000_0000 && 1 <= self.k <= 62
    }

    /// Encoder for residues modulo `p` with `k` bits.
    pub fn new(p: i64, k: usize) -> (r: Self)
        ensures
            r.p == p,
            r.k == k,
    {
        ModPEncoder { p, k }
    }

    /// Nearest multiple of `2^-k` to `v / p`, in units of `2^-k`.
    pub open spec fn spec_encode(self, v: int) -> int {
        (centred_residue(v, self.p as int) * pow2(self.k as nat) + self.p as int / 2)
            / self.p as int
    }

    /// Residue whose scaled form is nearest to `c / 2^k`.
    pub open spec fn spec_decode(self, c: int) -> int {
        centred_residue(
            (c * self.p + pow2(self.k as nat) as int / 2) / pow2(self.k as nat) as int,
            self.p as int,
        )
    }

    /// Column `col` holds the coefficients of the values.
    pub open spec fn holds_vector(
        self,
        dst: LimbVec,
        base2k: int,
        col: int,
        values: Seq<i64>,
    ) -> bool {
        forall|i: int|
            0 <= i < dst.n ==> limbs_hold(
                self.k as int,
                #[trigger] coefficient_limbs(dst, col, i),
                base2k,
                self.spec_encode(values[i] as int),
            )
    }

    /// The values are decoded from column `col`.
    pub open spec fn reads_vector(
        self,
        src: LimbVec,
        base2k: int,
        col: int,
        values: Seq<i64>,
    ) -> bool {
        forall|i: int|
            0 <= i < src.n ==> #[trigger] values[i] == self.spec_decode(
                rounded(self.k as int, coefficient_limbs(src, col, i), base2k),
            )
    }

    /// The centred residue of `x`.
    pub fn normalize(&self, x: i64) -> (r: i64)
        requires
            self.wf(),
        ensures
            r == centred_residue(x as int, self.p as int),
    {
        centre_i128(x as i128, self.p)
    }

    /// Sum modulo `p`.
    pub fn add(&self, a: i64, b: i64) -> (r: i64)
        requires
            self.wf(),
        ensures
            r == centred_residue(a + b, self.p as int),
    {
        centre_i128(a as i128 + b as i128, self.p)
    }

    /// Difference modulo `p`.
    pub fn sub(&self, a: i64, b: i64) -> (r: i64)
        requires
            self.wf(),
        ensures
            r == centred_residue(a - b, self.p as int),
    {
        centre_i128(a as i128 - b as i128, self.p)
    }

    /// A residue scaled to `k` bits.
    pub fn encode_coeff_i64(&self, v: i64) -> (r: i64)
        requires
            self.wf(),
        ensures
            r == self.spec_encode(v as int),
    {
        proof {
            self.lemma_encode_bounds(v as int);
            lemma_pow2_small(self.k as nat);
            lemma_centred_residue(v as int, self.p as int);
        }
        let m: i128 = self.normalize(v) as i128;
        let q: i128 = power_of_two(self.k);
        let p: i128 = self.p as i128;
        proof {
            let h = 0x4000_0000_0000_0000int;
            assert(-h * h <= m * q <= h * h) by (nonlinear_arith)
                requires
                    -h <= m <= h,
                    0 <= q <= h,
                    h == 0x4000_0000_0000_0000int,
            ;
            assert(h * h == 0x1000_0000_0000_0000_0000_0000_0000_0000int);
        }
        let x: i128 = m * q + p / 2;
        let c: i128 = match x.checked_div_euclid(p) {
            Some(c) => c,
            None => 0,
        };
        c as i64
    }

    /// The scaled form of one.
    pub fn encoded_unit(&self) -> (r: i64)
        requires
            self.wf(),
        ensures
            r == self.spec_encode(1),
    {
        self.encode_coeff_i64(1)
    }

    /// The residue nearest to a torus element of `k` bits.
    pub fn decode_coeff_i64(&self, c: i64) -> (r: i64)
        requires
            self.wf(),
        ensures
            r == self.spec_decode(c as int),
    {
        self.decode_i128(c as i128)
    }

    fn decode_i128(&self, c: i128) -> (r: i64)
        requires
            self.wf(),
            -0x1_0000_0000_0000_0000 <= c <= 0x1_0000_0000_0000_0000,
        ensures
            r == self.spec_decode(c as int),
    {
        let q: i128 = power_of_two(self.k);
        let p: i128 = self.p as i128;
        proof {
            let h = 0x4000_0000_0000_0000int;
            lemma_pow2_small(self.k as nat);
            assert(-4 * h * h <= c * p <= 4 * h * h) by (nonlinear_arith)
                requires
                    -4 * h <= c <= 4 * h,
                    0 <= p <= h,
                    h == 0x4000_0000_0000_0000int,
            ;
            assert(4 * h * h == 0x4000_0000_0000_0000_0000_0000_0000_0000int);
        }
        let x: i128 = c * p + q / 2;
        proof {
            lemma_fundamental_div_mod(x as int, q as int);
            lemma_mod_bound(x as int, q as int);
            let d = x as int / q as int;
            assert(-0x7000_0000_0000_0000_0000_0000_0000_0000int <= d
                <= 0x7000_0000_0000_0000_0000_0000_0000_0000int) by (nonlinear_arith)
                requires
                    x == q * d + x as int % q as int,
                    0 <= x as int % (q as int) < q,
                    q >= 1,
                    -0x6000_0000_0000_0000_0000_0000_0000_0000int <= x
                        <= 0x6000_0000_0000_0000_0000_0000_0000_0000int,
            ;
        }
        let m: i128 = match x.checked_div_euclid(q) {
            Some(m) => m,
            None => 0,
        };
        centre_i128(m, self.p)
    }

    /// Scaling moves a residue by at most half a unit, so it stays below `2^k` in size.
    pub proof fn lemma_encode_bounds(self, v: int)
        requires
            self.wf(),
        ensures
            -(pow2(self.k as nat) as int) <= self.spec_encode(v) <= pow2(self.k as nat),
            ({
                let e = self.spec_encode(v) * self.p - centred_residue(v, self.p as int) * pow2(
                    self.k as nat,
                );
                -(self.p as int) <= 2 * e <= self.p
            }),
    {
        let p = self.p as int;
        let q = pow2(self.k as nat) as int;
        let m = centred_residue(v, p);
        let c = self.spec_encode(v);
        lemma_pow2_small(self.k as nat);
        lemma_centred_residue(v, p);
        let x = m * q + p / 2;
        lemma_fundamental_div_mod(x, p);
        lemma_mod_bound(x, p);
        assert(p * c == c * p) by (nonlinear_arith);
        assert(-q <= c <= q) by (nonlinear_arith)
            requires
                x == p * c + x % p,
                0 <= x % p < p,
                x == m * q + p / 2,
                -p <= 2 * m <= p,
                q >= 1,
                p >= 2,
        ;
    }

    /// Decoding inverts scaling, also after wrapping around the torus, whenever the
    /// torus is finer than the modulus.
    pub proof fn law_decode_inverts_encode(self, v: int, wraps: int)
        requires
            self.wf(),
            self.p < pow2(self.k as nat),
        ensures
            self.spec_decode(self.spec_encode(v) + wraps * pow2(self.k as nat)) == centred_residue(
                v,
                self.p as int,
            ),
    {
        self.lemma_encode_bounds(v);
        let p = self.p as int;
        let q = pow2(self.k as nat) as int;
        let m = centred_residue(v, p);
        let c = self.spec_encode(v);
        self.lemma_decode_near(c + wraps * q, m, wraps, c * p - m * q);
        lemma_centred_twice(v, p);
    }

    /// The torus sum of two scaled residues decodes to their sum.
    pub proof fn law_decode_adds(self, a: int, b: int, wraps: int)
        requires
            self.wf(),
            2 * self.p < pow2(self.k as nat),
        ensures
            self.spec_decode(
                self.spec_encode(a) + self.spec_encode(b) + wraps * pow2(self.k as nat),
            ) == centred_residue(a + b, self.p as int),
    {
        self.lemma_encode_bounds(a);
        self.lemma_encode_bounds(b);
        let p = self.p as int;
        let q = pow2(self.k as nat) as int;
        let ma = centred_residue(a, p);
        let mb = centred_residue(b, p);
        let c = self.spec_encode(a) + self.spec_encode(b);
        let e = c * p - (ma + mb) * q;
        assert(e == (self.spec_encode(a) * p - ma * q) + (self.spec_encode(b) * p - mb * q))
            by (nonlinear_arith)
            requires
                e == c * p - (ma + mb) * q,
                c == self.spec_encode(a) + self.spec_encode(b),
        ;
        self.lemma_decode_near(c + wraps * q, ma + mb, wraps, e);
        lemma_centred_sum(a, b, p);
    }

    /// The negated torus element of a scaled residue decodes to the negated residue.
    pub proof fn law_decode_negates(self, a: int, wraps: int)
        requires
            self.wf(),
            self.p < pow2(self.k as nat),
        ensures
            self.spec_decode(-self.spec_encode(a) + wraps * pow2(self.k as nat))
                == centred_residue(-a, self.p as int),
    {
        self.lemma_encode_bounds(a);
        let p = self.p as int;
        let q = pow2(self.k as nat) as int;
        let m = centred_residue(a, p);
        let c = self.spec_encode(a);
        let e = -(c * p - m * q);
        assert((-c) * p - (-m) * q == e) by (nonlinear_arith)
            requires
                e == -(c * p - m * q),
        ;
        self.lemma_decode_near(-c + wraps * q, -m, wraps, e);
        lemma_centred_residue(a, p);
        lemma_fundamental_div_mod(a - m, p);
        let t = (a - m) / p;
        assert(-m == -a + t * p) by (nonlinear_arith)
            requires
                a - m == p * t + 0,
        ;
        lemma_centred_congruent(-a, t, p);
    }

    /// Noise that a multiple `m` of the scaled unit can carry: less than half a unit, less
    /// what rounding the unit itself costs.
    pub open spec fn tolerates(self, m: int, noise: int) -> bool {
        2 * abs(noise) * self.p + abs(m) * self.p < pow2(self.k as nat)
    }

    /// Decoding removes noise: a multiple of the scaled unit decodes to the multiplier.
    pub proof fn law_decode_removes_noise(self, m: int, noise: int, wraps: int)
        requires
            self.wf(),
            self.tolerates(m, noise),
        ensures
            self.spec_decode(m * self.spec_encode(1) + noise + wraps * pow2(self.k as nat))
                == centred_residue(m, self.p as int),
    {
        self.lemma_encode_bounds(1);
        let p = self.p as int;
        let q = pow2(self.k as nat) as int;
        let one = centred_residue(1, p);
        lemma_pow2_small(self.k as nat);
        // Modulo two, the centred residue of one is minus one.
        let unit = if p == 2 { -one } else { one };
        assert(unit == 1) by {
            lemma_quotient(1, p, 0, 1);
        }
        let d = self.spec_encode(1) * p - one * q;
        let e = m * d + noise * p;
        let c = m * self.spec_encode(1) + noise;
        let unit_code = self.spec_encode(1);
        assert((m * unit_code + noise) * p == (m * unit_code) * p + noise * p) by (nonlinear_arith);
        assert((m * unit_code) * p == m * (unit_code * p)) by (nonlinear_arith);
        assert((m * one) * q == m * (one * q)) by (nonlinear_arith);
        assert(m * (unit_code * p - one * q) == m * (unit_code * p) - m * (one * q))
            by (nonlinear_arith);
        assert(c * p - (m * one) * q == e);
        assert(noise * p <= abs(noise) * p && -noise * p <= abs(noise) * p) by (nonlinear_arith)
            requires
                -abs(noise) <= noise <= abs(noise),
                p >= 0,
        ;
        assert(m * p <= abs(m) * p && -(m * p) <= abs(m) * p) by (nonlinear_arith)
            requires
                -abs(m) <= m <= abs(m),
                p >= 0,
        ;
        assert(2 * abs(noise) * p == 2 * (abs(noise) * p)) by (nonlinear_arith);
        assert(-q < 2 * e < q) by (nonlinear_arith)
            requires
                e == m * d + noise * p,
                -p <= 2 * d <= p,
                2 * (noise * p) + m * p < q,
                2 * (noise * p) - m * p < q,
                2 * (-noise * p) + m * p < q,
                2 * (-noise * p) - m * p < q,
        ;
        self.lemma_decode_near(c + wraps * q, m * one, wraps, e);
        if p == 2 {
            assert(m * one == m + (-m) * p) by (nonlinear_arith)
                requires
                    one == -1,
                    p == 2,
            ;
            lemma_centred_congruent(m, -m, p);
        } else {
            assert(m * one == m) by (nonlinear_arith)
                requires
                    one == 1,
            ;
        }
    }

    /// An element within half a unit of `m / p` decodes to `m`.
    proof fn lemma_decode_near(self, c: int, m: int, wraps: int, e: int)
        requires
            self.wf(),
            (c - wraps * pow2(self.k as nat)) * self.p - m * pow2(self.k as nat) == e,
            -(pow2(self.k as nat) as int) < 2 * e < pow2(self.k as nat),
        ensures
            self.spec_decode(c) == centred_residue(m, self.p as int),
    {
        let p = self.p as int;
        let q = pow2(self.k as nat) as int;
        let k1 = (self.k - 1) as nat;
        lemma_pow2_unfold(self.k as nat);
        lemma_pow2_pos(k1);
        let h = q / 2;
        assert(q == 2 * h);
        assert(c * p + h == q * (m + wraps * p) + (e + h)) by (nonlinear_arith)
            requires
                (c - wraps * q) * p - m * q == e,
        ;
        lemma_quotient(c * p + h, q, m + wraps * p, e + h);
        lemma_centred_congruent(m, wraps, p);
    }
}

pub proof fn lemma_pow2_small(k: nat)
    requires
        k <= 62,
    ensures
        1 <= pow2(k) <= 0x4000_0000_0000_0000,
{
    lemma2_to64();
    lemma_pow2_adds(62, 2);
    lemma_pow2_pos(k);
    if k < 62 {
        lemma_pow2_strictly_increases(k, 62);
    }
}

proof fn lemma_pow2_word(k: nat)
    requires
        k <= 63,
    ensures
        1 <= pow2(k) <= 0x8000_0000_0000_0000,
{
    lemma2_to64();
    lemma_pow2_adds(63, 1);
    lemma_pow2_pos(k);
    if k < 63 {
        lemma_pow2_strictly_increases(k, 63);
    }
}

proof fn lemma_centred_twice(x: int, p: int)
    requires
        p >= 2,
    ensures
        centred_residue(centred_residue(x, p), p) == centred_residue(x, p),
{
    let m = centred_residue(x, p);
    lemma_centred_residue(x, p);
    lemma_fundamental_div_mod(x - m, p);
    let t = (x - m) / p;
    assert(x == m + t * p) by (nonlinear_arith)
        requires
            x - m == p * t + 0,
    ;
    lemma_centred_congruent(m, t, p);
}

proof fn lemma_centred_sum(a: int, b: int, p: int)
    requires
        p >= 2,
    ensures
        centred_residue(centred_residue(a, p) + centred_residue(b, p), p) == centred_residue(
            a + b,
            p,
        ),
{
    let ma = centred_residue(a, p);
    let mb = centred_residue(b, p);
    lemma_centred_residue(a, p);
    lemma_centred_residue(b, p);
    lemma_fundamental_div_mod(a - ma, p);
    lemma_fundamental_div_mod(b - mb, p);
    let ta = (a - ma) / p;
    let tb = (b - mb) / p;
    assert(a + b == ma + mb + (ta + tb) * p) by (nonlinear_arith)
        requires
            a - ma == p * ta + 0,
            b - mb == p * tb + 0,
    ;
    lemma_centred_congruent(ma + mb, ta + tb, p);
}

/// The centred residue of `x` modulo `p`.
pub fn centre_i128(x: i128, p: i64) -> (r: i64)
    requires
        p >= 2,
    ensures
        r == centred_residue(x as int, p as int),
{
    proof {
        lemma_mod_bound(x as int, p as int);
    }
    let m: i128 = match x.checked_rem_euclid(p as i128) {
        Some(m) => m,
        None => 0,
    };
    if m > (p as i128 - 1) / 2 {
        (m - p as i128) as i64
    } else {
        m as i64
    }
}

// ---------------------------------------------------------------------------
// Limbs
// ---------------------------------------------------------------------------

/// The integer with the given limbs of `b` bits, most significant first.
pub open spec fn limb_value(limbs: Seq<int>, b: nat) -> int
    decreases limbs.len(),
{
    if limbs.len() == 0 {
        0
    } else {
        limb_value(limbs.drop_last(), b) * pow2(b) + limbs.last()
    }
}

/// A limb put in front counts for all the limbs behind it.
proof fn lemma_limb_value_front(d: int, tail: Seq<int>, b: nat)
    ensures
        limb_value(seq![d] + tail, b) == d * pow2((b * tail.len()) as nat) + limb_value(tail, b),
    decreases tail.len(),
{
    lemma2_to64();
    let all = seq![d] + tail;
    if tail.len() == 0 {
        assert(all.drop_last() =~= Seq::<int>::empty());
        assert(b * 0 == 0) by (nonlinear_arith);
        assert(limb_value(Seq::<int>::empty(), b) == 0);
    } else {
        let short = tail.drop_last();
        let m = short.len();
        assert(all.drop_last() =~= seq![d] + short);
        lemma_limb_value_front(d, short, b);
        assert(b * (m + 1) == b * m + b) by (nonlinear_arith);
        lemma_pow2_adds((b * m) as nat, b);
        let pm = pow2((b * m) as nat) as int;
        let pb = pow2(b) as int;
        assert((d * pm + limb_value(short, b)) * pb == d * (pm * pb) + limb_value(short, b) * pb)
            by (nonlinear_arith);
    }
}

pub open spec fn ints(s: Seq<i64>) -> Seq<int> {
    Seq::new(s.len(), |i: int| s[i] as int)
}

/// Splits `x` into `size` balanced limbs of `base2k` bits. What does not fit is dropped
/// at the top.
fn split_limbs(x: i128, base2k: usize, size: usize) -> (r: Vec<i64>)
    requires
        1 <= base2k <= 63,
        -0x4000_0000_0000_0000_0000_0000_0000_0000 <= x
            <= 0x4000_0000_0000_0000_0000_0000_0000_0000,
    ensures
        r@.len() == size,
        (x - limb_value(ints(r@), base2k as nat)) % pow2((base2k * size) as nat) as int == 0,
        forall|j: int|
            0 <= j < size ==> -(pow2(base2k as nat) as int) <= 2 * #[trigger] r@[j] < pow2(
                base2k as nat,
            ),
        x == 0 ==> forall|j: int| 0 <= j < size ==> #[trigger] r@[j] == 0,
{
    let mut out: Vec<i64> = vec![0i64; size];
    let b: i128 = power_of_two(base2k);
    let ghost bb = base2k as nat;
    proof {
        lemma_pow2_word(bb);
        lemma_pow2_unfold(bb);
        lemma2_to64();
        assert(ints(out@).subrange(size as int, size as int) =~= Seq::<int>::empty());
    }
    let half: i128 = b / 2;
    let mut y: i128 = x;
    let mut j: usize = size;
    proof {
        assert(base2k * (size - j) == 0) by (nonlinear_arith)
            requires
                j == size,
        ;
        assert(y * 1 == y);
    }
    while j > 0
        invariant
            j <= size,
            out@.len() == size,
            bb == base2k,
            b == pow2(bb),
            b == 2 * half,
            1 <= half,
            b <= 0x8000_0000_0000_0000,
            -0x4000_0000_0000_0000_0000_0000_0000_0000 <= y
                <= 0x4000_0000_0000_0000_0000_0000_0000_0000,
            x == y * pow2((base2k * (size - j)) as nat) + limb_value(
                ints(out@).subrange(j as int, size as int),
                bb,
            ),
            forall|l: int| j <= l < size ==> -b <= 2 * #[trigger] out@[l] < b,
            x == 0 ==> y == 0 && forall|l: int| 0 <= l < size ==> #[trigger] out@[l] == 0,
        decreases j,
    {
        let ghost before = out@;
        let z: i128 = y + half;
        proof {
            lemma_mod_bound(z as int, b as int);
            lemma_fundamental_div_mod(z as int, b as int);
            let d = z as int / b as int;
            assert(-0x4000_0000_0000_0000_0000_0000_0000_0000int <= d
                <= 0x4000_0000_0000_0000_0000_0000_0000_0000int) by (nonlinear_arith)
                requires
                    z == b * d + z as int % b as int,
                    0 <= z as int % (b as int) < b,
                    z == y + half,
                    b == 2 * half,
                    half >= 1,
                    -0x4000_0000_0000_0000_0000_0000_0000_0000 <= y
                        <= 0x4000_0000_0000_0000_0000_0000_0000_0000,
            ;
            if x == 0 {
                lemma_quotient(half as int, b as int, 0, half as int);
            }
        }
        let low: i128 = match z.checked_rem_euclid(b) {
            Some(m) => m,
            None => 0,
        };
        let up: i128 = match z.checked_div_euclid(b) {
            Some(m) => m,
            None => 0,
        };
        let digit: i64 = (low - half) as i64;
        j = j - 1;
        out[j] = digit;
        proof {
            let m = (size - j - 1) as nat;
            let tail = ints(before).subrange(j + 1, size as int);
            assert(ints(out@).subrange(j as int, size as int) =~= seq![digit as int] + tail);
            lemma_limb_value_front(digit as int, tail, bb);
            assert(bb * (m + 1) == bb * m + bb) by (nonlinear_arith);
            lemma_pow2_adds((bb * m) as nat, bb);
            let pm = pow2((bb * m) as nat) as int;
            assert(y * pm == up * (pm * b) + digit * pm) by (nonlinear_arith)
                requires
                    y == b * up + digit,
            ;
        }
        y = up;
    }
    proof {
        assert(ints(out@).subrange(0, size as int) =~= ints(out@));
        let t = pow2((base2k * size) as nat) as int;
        lemma_pow2_pos((base2k * size) as nat);
        let v = limb_value(ints(out@), bb);
        lemma_quotient(x - v, t, y as int, 0);
    }
    out
}

/// Shapes in which limbs of `base2k` bits hold `k` bits.
pub open spec fn limbs_fit(k: int, base2k: int, size: int) -> bool {
    1 <= base2k <= 63 && 1 <= k <= 62 && k <= base2k * size <= 124
}

/// Bits below the precision.
pub open spec fn padding(k: int, base2k: int, size: int) -> nat {
    (base2k * size - k) as nat
}

/// The limbs stand for the torus element `c / 2^k`.
pub open spec fn limbs_hold(k: int, limbs: Seq<int>, base2k: int, c: int) -> bool {
    (limb_value(limbs, base2k as nat) - c * pow2(padding(k, base2k, limbs.len() as int))) % pow2(
        (base2k * limbs.len()) as nat,
    ) as int == 0
}

/// Nearest multiple of `2^-k` to the torus element that the limbs stand for.
pub open spec fn rounded(k: int, limbs: Seq<int>, base2k: int) -> int {
    let unit = pow2(padding(k, base2k, limbs.len() as int)) as int;
    (limb_value(limbs, base2k as nat) + unit / 2) / unit
}

/// Limbs whose sum stays within a machine word.
pub open spec fn limbs_bounded(limbs: Seq<int>, b: nat) -> bool {
    forall|j: int| 0 <= j < limbs.len() ==> -(pow2(b) as int) <= #[trigger] limbs[j] <= pow2(b)
}

/// Values of bounded limbs are bounded.
proof fn lemma_limb_value_bound(limbs: Seq<int>, b: nat)
    requires
        b >= 1,
        limbs_bounded(limbs, b),
    ensures
        -(2 * pow2((b * limbs.len()) as nat) - 2) <= limb_value(limbs, b) <= 2 * pow2(
            (b * limbs.len()) as nat,
        ) - 2,
    decreases limbs.len(),
{
    lemma2_to64();
    if limbs.len() == 0 {
        assert(b * 0 == 0) by (nonlinear_arith);
    } else {
        let m = (limbs.len() - 1) as nat;
        let short = limbs.drop_last();
        assert forall|j: int| 0 <= j < short.len() implies -(pow2(b) as int)
            <= #[trigger] short[j] <= pow2(b) by {
            assert(short[j] == limbs[j]);
        }
        lemma_limb_value_bound(short, b);
        assert(b * (m + 1) == b * m + b) by (nonlinear_arith);
        lemma_pow2_adds((b * m) as nat, b);
        lemma_pow2_unfold(b);
        lemma_pow2_pos((b - 1) as nat);
        let pm = pow2((b * m) as nat) as int;
        let pb = pow2(b) as int;
        let v = limb_value(short, b);
        let l = limbs.last();
        assert(v * pb <= (2 * pm - 2) * pb && -(2 * pm - 2) * pb <= v * pb) by (nonlinear_arith)
            requires
                -(2 * pm - 2) <= v <= 2 * pm - 2,
                pb >= 2,
        ;
        assert((2 * pm - 2) * pb == 2 * (pm * pb) - 2 * pb && -(2 * pm - 2) * pb == -2 * (pm * pb)
            + 2 * pb) by (nonlinear_arith);
        assert(limbs[limbs.len() - 1] == l);
    }
}

impl ModPEncoder {
    /// Limbs of the scaled residue `v`.
    fn encode_limbs(&self, v: i64, base2k: usize, size: usize) -> (r: Vec<i64>)
        requires
            self.wf(),
            limbs_fit(self.k as int, base2k as int, size as int),
        ensures
            r@.len() == size,
            limbs_hold(self.k as int, ints(r@), base2k as int, self.spec_encode(v as int)),
            limbs_balanced(ints(r@), base2k as nat),
            self.spec_encode(v as int) == 0 ==> forall|j: int|
                0 <= j < size ==> #[trigger] r@[j] == 0,
    {
        proof {
            self.lemma_encode_bounds(v as int);
        }
        let c: i128 = self.encode_coeff_i64(v) as i128;
        torus_limbs(self.k, c, base2k, size)
    }

    /// Scales residues into the limbs of one column.
    pub fn encode_vec_i64(&self, dst: &mut LimbVec, base2k: usize, col: usize, values: &[i64])
        requires
            self.wf(),
            old(dst).wf(),
            limbs_fit(self.k as int, base2k as int, old(dst).size as int),
            col < old(dst).cols,
            values@.len() == old(dst).n,
        ensures
            final(dst).wf(),
            final(dst).same_shape(old(dst)),
            forall|i: int|
                0 <= i < old(dst).n ==> limbs_hold(self.k as int, 
                    #[trigger] coefficient_limbs(*final(dst), col as int, i),
                    base2k as int,
                    self.spec_encode(values@[i] as int),
                ) && limbs_balanced(
                    coefficient_limbs(*final(dst), col as int, i),
                    base2k as nat,
                ),
            self.holds_vector(*final(dst), base2k as int, col as int, values@),
            forall|c: int, l: int, i: int|
                old(dst).contains(c, l, i) && c != col ==> #[trigger] final(dst).coeff(c, l, i)
                    == old(dst).coeff(c, l, i),
    {
        let ghost before = *dst;
        let mut i: usize = 0;
        while i < dst.n
            invariant
                i <= dst.n,
                self.wf(),
                dst.wf(),
                dst.same_shape(&before),
                limbs_fit(self.k as int, base2k as int, before.size as int),
                col < before.cols,
                values@.len() == before.n,
                forall|a: int|
                    0 <= a < i ==> limbs_hold(self.k as int, 
                        #[trigger] coefficient_limbs(*dst, col as int, a),
                        base2k as int,
                        self.spec_encode(values@[a] as int),
                    ) && limbs_balanced(coefficient_limbs(*dst, col as int, a), base2k as nat),
                forall|c: int, l: int, a: int|
                    before.contains(c, l, a) && c != col ==> #[trigger] dst.coeff(c, l, a)
                        == before.coeff(c, l, a),
            decreases dst.n - i,
        {
            let ghost earlier = *dst;
            let limbs = self.encode_limbs(values[i], base2k, dst.size);
            store_limbs(dst, col, i, &limbs);
            proof {
                assert(coefficient_limbs(*dst, col as int, i as int) =~= ints(limbs@));
                assert forall|a: int| 0 <= a < i implies #[trigger] coefficient_limbs(
                    *dst,
                    col as int,
                    a,
                ) == coefficient_limbs(earlier, col as int, a) by {
                    assert(coefficient_limbs(*dst, col as int, a) =~= coefficient_limbs(
                        earlier,
                        col as int,
                        a,
                    ));
                }
            }
            i = i + 1;
        }
    }

    /// Reads the residues of one column.
    pub fn decode_vec_i64(&self, src: &LimbVec, base2k: usize, col: usize, out: &mut [i64])
        requires
            self.wf(),
            src.wf(),
            limbs_fit(self.k as int, base2k as int, src.size as int),
            col < src.cols,
            old(out)@.len() == src.n,
            forall|i: int|
                0 <= i < src.n ==> limbs_bounded(
                    #[trigger] coefficient_limbs(*src, col as int, i),
                    base2k as nat,
                ),
        ensures
            final(out)@.len() == src.n,
            self.reads_vector(*src, base2k as int, col as int, final(out)@),
            forall|i: int|
                0 <= i < src.n ==> #[trigger] final(out)@[i] == self.spec_decode(
                    rounded(self.k as int, coefficient_limbs(*src, col as int, i), base2k as int),
                ),
    {
        let total: usize = out.len();
        let mut i: usize = 0;
        while i < total
            invariant
                i <= total,
                total == src.n,
                out@.len() == total,
                self.wf(),
                src.wf(),
                limbs_fit(self.k as int, base2k as int, src.size as int),
                col < src.cols,
                forall|i: int|
                    0 <= i < src.n ==> limbs_bounded(
                        #[trigger] coefficient_limbs(*src, col as int, i),
                        base2k as nat,
                    ),
                forall|a: int|
                    0 <= a < i ==> #[trigger] out@[a] == self.spec_decode(
                        rounded(self.k as int, coefficient_limbs(*src, col as int, a), base2k as int),
                    ),
            decreases total - i,
        {
            let c: i128 = round_limbs(self.k, src, base2k, col, i);
            out[i] = self.decode_i128(c);
            i = i + 1;
        }
    }

    /// Zeroes one column.
    pub fn encode_zero_into(&self, dst: &mut LimbVec, col: usize)
        requires
            old(dst).wf(),
            col < old(dst).cols,
        ensures
            final(dst).wf(),
            final(dst).same_shape(old(dst)),
            forall|l: int, i: int|
                old(dst).contains(col as int, l, i) ==> #[trigger] final(dst).coeff(
                    col as int,
                    l,
                    i,
                ) == 0,
            forall|c: int, l: int, i: int|
                old(dst).contains(c, l, i) && c != col ==> #[trigger] final(dst).coeff(c, l, i)
                    == old(dst).coeff(c, l, i),
    {
        let ghost before = *dst;
        let zero: Vec<i64> = vec![0i64; dst.size];
        let mut i: usize = 0;
        while i < dst.n
            invariant
                i <= dst.n,
                dst.wf(),
                dst.same_shape(&before),
                col < before.cols,
                zero@.len() == before.size,
                forall|l: int| 0 <= l < zero@.len() ==> #[trigger] zero@[l] == 0,
                forall|l: int, a: int|
                    before.contains(col as int, l, a) && a < i ==> #[trigger] dst.coeff(
                        col as int,
                        l,
                        a,
                    ) == 0,
                forall|c: int, l: int, a: int|
                    before.contains(c, l, a) && c != col ==> #[trigger] dst.coeff(c, l, a)
                        == before.coeff(c, l, a),
            decreases dst.n - i,
        {
            store_limbs(dst, col, i, &zero);
            i = i + 1;
        }
    }

    /// Encodes one at `slot` and zero elsewhere in one column.
    pub fn encode_one_hot_into(&self, dst: &mut LimbVec, base2k: usize, col: usize, slot: usize)
        requires
            self.wf(),
            old(dst).wf(),
            limbs_fit(self.k as int, base2k as int, old(dst).size as int),
            col < old(dst).cols,
            slot < old(dst).n,
        ensures
            final(dst).wf(),
            final(dst).same_shape(old(dst)),
            limbs_hold(self.k as int, 
                coefficient_limbs(*final(dst), col as int, slot as int),
                base2k as int,
                self.spec_encode(1),
            ),
            limbs_balanced(
                coefficient_limbs(*final(dst), col as int, slot as int),
                base2k as nat,
            ),
            forall|l: int, i: int|
                old(dst).contains(col as int, l, i) && i != slot ==> #[trigger] final(dst).coeff(
                    col as int,
                    l,
                    i,
                ) == 0,
            forall|c: int, l: int, i: int|
                old(dst).contains(c, l, i) && c != col ==> #[trigger] final(dst).coeff(c, l, i)
                    == old(dst).coeff(c, l, i),
    {
        self.encode_zero_into(dst, col);
        let limbs = self.encode_limbs(1, base2k, dst.size);
        store_limbs(dst, col, slot, &limbs);
        assert(coefficient_limbs(*dst, col as int, slot as int) =~= ints(limbs@));
    }

    /// A residue reads back from the limbs that it was written to.
    pub proof fn law_limbs_read_back(self, limbs: Seq<int>, base2k: int, v: int)
        requires
            self.wf(),
            limbs_fit(self.k as int, base2k, limbs.len() as int),
            self.p < pow2(self.k as nat),
            limbs_hold(self.k as int, limbs, base2k, self.spec_encode(v)),
        ensures
            self.spec_decode(rounded(self.k as int, limbs, base2k)) == centred_residue(v, self.p as int),
    {
        let turns = lemma_rounded(self.k as int, limbs, base2k, self.spec_encode(v));
        self.law_decode_inverts_encode(v, turns);
    }

    /// Limbs that hold the sum of two scaled residues decode to the sum of the residues.
    pub proof fn law_limbs_add(self, limbs: Seq<int>, base2k: int, a: int, b: int)
        requires
            self.wf(),
            limbs_fit(self.k as int, base2k, limbs.len() as int),
            2 * self.p < pow2(self.k as nat),
            limbs_hold(self.k as int, limbs, base2k, self.spec_encode(a) + self.spec_encode(b)),
        ensures
            self.spec_decode(rounded(self.k as int, limbs, base2k)) == centred_residue(a + b, self.p as int),
    {
        let turns = lemma_rounded(self.k as int, limbs, base2k, self.spec_encode(a) + self.spec_encode(b));
        self.law_decode_adds(a, b, turns);
    }

    /// Zero limbs decode to zero.
    pub proof fn law_zero_limbs(self, limbs: Seq<int>, base2k: int)
        requires
            self.wf(),
            limbs_fit(self.k as int, base2k, limbs.len() as int),
            self.p < pow2(self.k as nat),
            forall|j: int| 0 <= j < limbs.len() ==> limbs[j] == 0,
        ensures
            self.spec_decode(rounded(self.k as int, limbs, base2k)) == 0,
    {
        lemma_zero_value(limbs, base2k as nat);
        let p = self.p as int;
        self.lemma_encode_bounds(0);
        lemma_centred_residue(0, p);
        lemma_quotient(p / 2, p, 0, p / 2);
        assert(0 * pow2(self.k as nat) == 0) by (nonlinear_arith);
        assert(self.spec_encode(0) == 0);
        let size = limbs.len() as int;
        let unit = pow2(padding(self.k as int, base2k, size)) as int;
        let t = pow2((base2k * size) as nat) as int;
        lemma_pow2_pos((base2k * size) as nat);
        assert(0 * unit == 0) by (nonlinear_arith);
        lemma_quotient(0, t, 0, 0);
        self.law_limbs_read_back(limbs, base2k, 0);
    }

}

proof fn lemma_zero_value(limbs: Seq<int>, b: nat)
    requires
        forall|j: int| 0 <= j < limbs.len() ==> limbs[j] == 0,
    ensures
        limb_value(limbs, b) == 0,
    decreases limbs.len(),
{
    if limbs.len() > 0 {
        lemma_zero_value(limbs.drop_last(), b);
        assert(0 * pow2(b) == 0) by (nonlinear_arith);
    }
}

proof fn lemma_padding(k: int, base2k: int, size: int)
    requires
        limbs_fit(k, base2k, size),
    ensures
        padding(k, base2k, size) == base2k * size - k,
        padding(k, base2k, size) <= 123,
        pow2(padding(k, base2k, size)) * pow2(k as nat) == pow2((base2k * size) as nat),
        1 <= pow2(padding(k, base2k, size)),
        pow2((base2k * size) as nat) <= 0x1000_0000_0000_0000_0000_0000_0000_0000,
        size >= 1,
{
    let pad = padding(k, base2k, size);
    lemma_pow2_adds(pad, k as nat);
    lemma_pow2_pos(pad);
    lemma2_to64();
    lemma_pow2_125();
    lemma_pow2_unfold(125);
    if base2k * size < 124 {
        lemma_pow2_strictly_increases((base2k * size) as nat, 124);
    }
    assert(size >= 1) by (nonlinear_arith)
        requires
            base2k * size >= 1,
            base2k >= 1,
    ;
}

/// Limbs that stand for a torus element round to it, up to whole turns.
pub proof fn lemma_rounded(k: int, limbs: Seq<int>, base2k: int, c: int) -> (turns: int)
    requires
        limbs_fit(k, base2k, limbs.len() as int),
        limbs_hold(k, limbs, base2k, c),
    ensures
        rounded(k, limbs, base2k) == c + turns * pow2(k as nat),
{
    let size = limbs.len() as int;
    lemma_padding(k, base2k, size);
    let unit = pow2(padding(k, base2k, size)) as int;
    let q = pow2(k as nat) as int;
    let t = pow2((base2k * size) as nat) as int;
    let v = limb_value(limbs, base2k as nat);
    lemma_pow2_pos((base2k * size) as nat);
    lemma_fundamental_div_mod(v - c * unit, t);
    let d = (v - c * unit) / t;
    assert(v + unit / 2 == unit * (c + d * q) + unit / 2) by (nonlinear_arith)
        requires
            v - c * unit == t * d + 0,
            unit * q == t,
    ;
    lemma_quotient(v + unit / 2, unit, c + d * q, unit / 2);
    d
}

/// Nearest multiple of `2^-k` to one coefficient.
pub fn round_limbs(k: usize, src: &LimbVec, base2k: usize, col: usize, i: usize) -> (r: i128)
    requires
        src.wf(),
        limbs_fit(k as int, base2k as int, src.size as int),
        col < src.cols,
        i < src.n,
        limbs_bounded(coefficient_limbs(*src, col as int, i as int), base2k as nat),
    ensures
        r == rounded(k as int, coefficient_limbs(*src, col as int, i as int), base2k as int),
        -0x1_0000_0000_0000_0000 <= r <= 0x1_0000_0000_0000_0000,
        -4 * pow2(k as nat) <= r <= 4 * pow2(k as nat),
{
    let ghost limbs = coefficient_limbs(*src, col as int, i as int);
    let ghost bb = base2k as nat;
    proof {
        lemma_padding(k as int, base2k as int, src.size as int);
        lemma_pow2_word(bb);
        lemma_pow2_small(k as nat);
        assert(limbs.take(0) =~= Seq::<int>::empty());
    }
    let b: i128 = power_of_two(base2k);
    let mut acc: i128 = 0;
    let mut j: usize = 0;
    while j < src.size
        invariant
            j <= src.size,
            src.wf(),
            col < src.cols,
            i < src.n,
            bb == base2k,
            1 <= base2k <= 63,
            base2k * src.size <= 124,
            pow2((base2k * src.size) as nat) <= 0x1000_0000_0000_0000_0000_0000_0000_0000,
            b == pow2(bb),
            limbs == coefficient_limbs(*src, col as int, i as int),
            limbs_bounded(limbs, bb),
            acc == limb_value(limbs.take(j as int), bb),
        decreases src.size - j,
    {
        proof {
            let next = limbs.take(j + 1);
            assert(next.drop_last() =~= limbs.take(j as int));
            assert forall|l: int| 0 <= l < next.len() implies -(pow2(bb) as int)
                <= #[trigger] next[l] <= pow2(bb) by {
                assert(next[l] == limbs[l]);
            }
            lemma_limb_value_bound(next, bb);
            assert(bb * (j + 1) <= bb * src.size) by (nonlinear_arith)
                requires
                    j + 1 <= src.size,
                    bb >= 0,
            ;
            if bb * (j + 1) < bb * src.size {
                lemma_pow2_strictly_increases((bb * (j + 1)) as nat, (bb * src.size) as nat);
            }
            assert(limbs[j as int] == next[j as int]);
            let prev = limbs.take(j as int);
            assert forall|l: int| 0 <= l < prev.len() implies -(pow2(bb) as int)
                <= #[trigger] prev[l] <= pow2(bb) by {
                assert(prev[l] == limbs[l]);
            }
        }
        acc = acc * b + src.get(col, j, i) as i128;
        j = j + 1;
    }
    let pad: usize = base2k * src.size - k;
    let unit: i128 = power_of_two(pad);
    proof {
        assert(limbs.take(src.size as int) =~= limbs);
        lemma_limb_value_bound(limbs, bb);
    }
    let x: i128 = acc + unit / 2;
    proof {
        let q = pow2(k as nat) as int;
        let t = pow2((base2k * src.size) as nat) as int;
        let d = x as int / unit as int;
        lemma_fundamental_div_mod(x as int, unit as int);
        lemma_mod_bound(x as int, unit as int);
        assert(-4 * q <= d <= 4 * q) by (nonlinear_arith)
            requires
                x == unit * d + x as int % unit as int,
                0 <= x as int % (unit as int) < unit,
                -2 * t <= x <= 2 * t + unit,
                unit * q == t,
                unit >= 1,
                q >= 1,
        ;
    }
    match x.checked_div_euclid(unit) {
        Some(c) => c,
        None => 0,
    }
}

/// Limbs in `[-2^(b-1), 2^(b-1))`.
pub open spec fn limbs_balanced(limbs: Seq<int>, b: nat) -> bool {
    forall|j: int|
        0 <= j < limbs.len() ==> -(pow2(b) as int) <= 2 * #[trigger] limbs[j] < pow2(b)
}

/// Writes the limbs of one coefficient.
fn store_limbs(dst: &mut LimbVec, col: usize, i: usize, limbs: &Vec<i64>)
    requires
        old(dst).wf(),
        col < old(dst).cols,
        i < old(dst).n,
        limbs@.len() == old(dst).size,
    ensures
        final(dst).wf(),
        final(dst).same_shape(old(dst)),
        forall|l: int|
            0 <= l < limbs@.len() ==> #[trigger] final(dst).coeff(col as int, l, i as int)
                == limbs@[l],
        forall|c: int, l: int, a: int|
            old(dst).contains(c, l, a) && !(c == col && a == i) ==> #[trigger] final(dst).coeff(
                c,
                l,
                a,
            ) == old(dst).coeff(c, l, a),
{
    let ghost before = *dst;
    let mut l: usize = 0;
    while l < limbs.len()
        invariant
            l <= limbs@.len(),
            dst.wf(),
            dst.same_shape(&before),
            col < before.cols,
            i < before.n,
            limbs@.len() == before.size,
            forall|m: int|
                0 <= m < l ==> #[trigger] dst.coeff(col as int, m, i as int) == limbs@[m],
            forall|c: int, m: int, a: int|
                before.contains(c, m, a) && !(c == col && a == i) ==> #[trigger] dst.coeff(c, m, a)
                    == before.coeff(c, m, a),
        decreases limbs@.len() - l,
    {
        dst.set(col, l, i, limbs[l]);
        l = l + 1;
    }
}

/// Moves `src` to limbs of another width, keeping `k` bits of every coefficient.
pub fn relimb(k: usize, src: &LimbVec, src_base2k: usize, dst_base2k: usize, dst_size: usize) -> (r:
    LimbVec)
    requires
        src.wf(),
        limbs_fit(k as int, src_base2k as int, src.size as int),
        limbs_fit(k as int, dst_base2k as int, dst_size as int),
        src.n * src.cols * dst_size <= usize::MAX,
        src.n * src.cols <= usize::MAX,
        forall|col: int, i: int|
            0 <= col < src.cols && 0 <= i < src.n ==> limbs_bounded(
                #[trigger] coefficient_limbs(*src, col, i),
                src_base2k as nat,
            ),
    ensures
        r.wf(),
        r.n == src.n,
        r.cols == src.cols,
        r.size == dst_size,
        forall|col: int, i: int|
            0 <= col < src.cols && 0 <= i < src.n ==> limbs_hold(
                k as int,
                #[trigger] coefficient_limbs(r, col, i),
                dst_base2k as int,
                rounded(k as int, coefficient_limbs(*src, col, i), src_base2k as int),
            ) && limbs_balanced(coefficient_limbs(r, col, i), dst_base2k as nat),
{
    let mut dst = LimbVec::zeros(src.n, src.cols, dst_size);
    let mut col: usize = 0;
    while col < src.cols
        invariant
            col <= src.cols,
            src.wf(),
            dst.wf(),
            dst.n == src.n,
            dst.cols == src.cols,
            dst.size == dst_size,
            limbs_fit(k as int, src_base2k as int, src.size as int),
            limbs_fit(k as int, dst_base2k as int, dst_size as int),
            forall|col: int, i: int|
                0 <= col < src.cols && 0 <= i < src.n ==> limbs_bounded(
                    #[trigger] coefficient_limbs(*src, col, i),
                    src_base2k as nat,
                ),
            forall|c: int, i: int|
                0 <= c < col && 0 <= i < src.n ==> relimbed(
                    k as int,
                    coefficient_limbs(*src, c, i),
                    src_base2k as int,
                    #[trigger] coefficient_limbs(dst, c, i),
                    dst_base2k as int,
                ),
        decreases src.cols - col,
    {
        let mut i: usize = 0;
        while i < src.n
            invariant
                col < src.cols,
                i <= src.n,
                src.wf(),
                dst.wf(),
                dst.n == src.n,
                dst.cols == src.cols,
                dst.size == dst_size,
                limbs_fit(k as int, src_base2k as int, src.size as int),
                limbs_fit(k as int, dst_base2k as int, dst_size as int),
                forall|col: int, i: int|
                    0 <= col < src.cols && 0 <= i < src.n ==> limbs_bounded(
                        #[trigger] coefficient_limbs(*src, col, i),
                        src_base2k as nat,
                    ),
                forall|c: int, a: int|
                    0 <= c < col && 0 <= a < src.n || c == col && 0 <= a < i ==> relimbed(
                        k as int,
                        coefficient_limbs(*src, c, a),
                        src_base2k as int,
                        #[trigger] coefficient_limbs(dst, c, a),
                        dst_base2k as int,
                    ),
            decreases src.n - i,
        {
            let ghost before = dst;
            let c: i128 = round_limbs(k, src, src_base2k, col, i);
            let limbs = torus_limbs(k, c, dst_base2k, dst_size);
            store_limbs(&mut dst, col, i, &limbs);
            proof {
                assert(coefficient_limbs(dst, col as int, i as int) =~= ints(limbs@));
                assert forall|c: int, a: int|
                    0 <= c < src.cols && 0 <= a < src.n && !(c == col && a == i) implies
                    #[trigger] coefficient_limbs(dst, c, a) == coefficient_limbs(before, c, a) by {
                    assert(coefficient_limbs(dst, c, a) =~= coefficient_limbs(before, c, a));
                }
            }
            i = i + 1;
        }
        col = col + 1;
    }
    dst
}

/// One coefficient in two limb widths.
pub open spec fn relimbed(k: int, src: Seq<int>, src_base2k: int, dst: Seq<int>, dst_base2k: int) -> bool {
    limbs_hold(k, dst, dst_base2k, rounded(k, src, src_base2k)) && limbs_balanced(
        dst,
        dst_base2k as nat,
    )
}

/// Balanced limbs of `c / 2^k`.
fn torus_limbs(k: usize, c: i128, base2k: usize, size: usize) -> (r: Vec<i64>)
    requires
        limbs_fit(k as int, base2k as int, size as int),
        -4 * pow2(k as nat) <= c <= 4 * pow2(k as nat),
    ensures
        r@.len() == size,
        limbs_hold(k as int, ints(r@), base2k as int, c as int),
        limbs_balanced(ints(r@), base2k as nat),
        c == 0 ==> forall|j: int| 0 <= j < size ==> #[trigger] r@[j] == 0,
{
    proof {
        lemma_padding(k as int, base2k as int, size as int);
    }
    let pad: usize = base2k * size - k;
    let unit: i128 = power_of_two(pad);
    proof {
        let q = pow2(k as nat) as int;
        let t = pow2((base2k * size) as nat) as int;
        assert(-4 * t <= c * unit <= 4 * t) by (nonlinear_arith)
            requires
                -4 * q <= c <= 4 * q,
                unit >= 1,
                unit * q == t,
        ;
        if c == 0 {
            assert(0 * unit == 0) by (nonlinear_arith);
        }
    }
    let r = split_limbs(c * unit, base2k, size);
    proof {
        let t = pow2((base2k * size) as nat) as int;
        lemma_pow2_pos((base2k * size) as nat);
        let v = limb_value(ints(r@), base2k as nat);
        let x = c * unit;
        lemma_fundamental_div_mod(x - v, t);
        let d = (x - v) / t;
        assert(v - x == t * (-d) + 0) by (nonlinear_arith)
            requires
                x - v == t * d + 0,
        ;
        lemma_quotient(v - x, t, -d, 0);
    }
    r
}

/// Changing the limb width loses nothing of `k` bits: limbs that stand for `c / 2^k`
/// still do after the move.
pub proof fn law_relimbing_is_lossless(
    k: int,
    src: Seq<int>,
    src_base2k: int,
    dst: Seq<int>,
    dst_base2k: int,
    c: int,
)
    requires
        limbs_fit(k, src_base2k, src.len() as int),
        limbs_fit(k, dst_base2k, dst.len() as int),
        limbs_hold(k, src, src_base2k, c),
        relimbed(k, src, src_base2k, dst, dst_base2k),
    ensures
        limbs_hold(k, dst, dst_base2k, c),
{
    let turns = lemma_rounded(k, src, src_base2k, c);
    let size = dst.len() as int;
    lemma_padding(k, dst_base2k, size);
    let unit = pow2(padding(k, dst_base2k, size)) as int;
    let q = pow2(k as nat) as int;
    let t = pow2((dst_base2k * size) as nat) as int;
    lemma_pow2_pos((dst_base2k * size) as nat);
    let v = limb_value(dst, dst_base2k as nat);
    let x = c + turns * q;
    lemma_fundamental_div_mod(v - x * unit, t);
    let d = (v - x * unit) / t;
    assert(v - c * unit == t * (d + turns) + 0) by (nonlinear_arith)
        requires
            v - x * unit == t * d + 0,
            x == c + turns * q,
            unit * q == t,
    ;
    lemma_quotient(v - c * unit, t, d + turns, 0);
}

// ---------------------------------------------------------------------------
// What the encoder computes
// ---------------------------------------------------------------------------

/// Residues, sums and differences are congruent to what they stand for, and centred.
pub proof fn law_residues_are_centred(
    e: &ModPEncoder,
    a: i64,
    b: i64,
    residue: i64,
    sum: i64,
    difference: i64,
)
    requires
        e.wf(),
        call_ensures(ModPEncoder::normalize, (e, a), residue),
        call_ensures(ModPEncoder::add, (e, a, b), sum),
        call_ensures(ModPEncoder::sub, (e, a, b), difference),
    ensures
        (a - residue) % e.p as int == 0,
        (a + b - sum) % e.p as int == 0,
        (a - b - difference) % e.p as int == 0,
        -(e.p as int) <= 2 * residue < e.p,
        -(e.p as int) <= 2 * sum < e.p,
        -(e.p as int) <= 2 * difference < e.p,
{
    lemma_centred_residue(a as int, e.p as int);
    lemma_centred_residue(a + b, e.p as int);
    lemma_centred_residue(a - b, e.p as int);
}

/// A coefficient is the torus integer nearest to its residue, and decodes to it. The unit is
/// the coefficient of one.
pub proof fn law_coefficients_decode(
    e: &ModPEncoder,
    v: i64,
    coefficient: i64,
    decoded: i64,
    residue: i64,
    one: i64,
    unit: i64,
)
    requires
        e.wf(),
        e.p < pow2(e.k as nat),
        call_ensures(ModPEncoder::encode_coeff_i64, (e, v), coefficient),
        call_ensures(ModPEncoder::decode_coeff_i64, (e, coefficient), decoded),
        call_ensures(ModPEncoder::normalize, (e, v), residue),
        call_ensures(ModPEncoder::encode_coeff_i64, (e, 1i64), one),
        call_ensures(ModPEncoder::encoded_unit, (e,), unit),
    ensures
        decoded == residue,
        -(e.p as int) <= 2 * (coefficient * e.p - residue * pow2(e.k as nat)) <= e.p,
        unit == one,
{
    e.lemma_encode_bounds(v as int);
    e.law_decode_inverts_encode(v as int, 0);
    assert(0 * pow2(e.k as nat) == 0) by (nonlinear_arith);
}

/// A torus integer decodes to the residue whose coefficient is nearest to it, up to whole
/// turns of the torus.
pub proof fn law_decoding_is_nearest(e: &ModPEncoder, c: i64, decoded: i64) -> (turns: int)
    requires
        e.wf(),
        call_ensures(ModPEncoder::decode_coeff_i64, (e, c), decoded),
    ensures
        -(pow2(e.k as nat) as int) <= 2 * (c * e.p - (decoded + turns * e.p) * pow2(e.k as nat))
            <= pow2(e.k as nat),
        -(e.p as int) <= 2 * decoded < e.p,
{
    let q = pow2(e.k as nat) as int;
    let p = e.p as int;
    lemma_pow2_pos(e.k as nat);
    let x = c * p + q / 2;
    let m = x / q;
    lemma_fundamental_div_mod(x, q);
    lemma_mod_bound(x, q);
    lemma_centred_residue(m, p);
    lemma_fundamental_div_mod(m - decoded, p);
    let turns = (m - decoded) / p;
    assert(p * turns == turns * p) by (nonlinear_arith);
    assert(decoded + turns * p == m);
    assert(q * m == m * q) by (nonlinear_arith);
    turns
}

/// Moving polynomials to other limbs keeps every torus integer, and leaves balanced limbs.
pub proof fn law_relimbing_keeps_coefficients(
    k: usize,
    src: &LimbVec,
    src_base2k: usize,
    dst_base2k: usize,
    dst_size: usize,
    r: LimbVec,
    col: int,
    i: int,
    c: int,
)
    requires
        limbs_fit(k as int, src_base2k as int, src.size as int),
        limbs_fit(k as int, dst_base2k as int, dst_size as int),
        call_ensures(relimb, (k, src, src_base2k, dst_base2k, dst_size), r),
        0 <= col < src.cols,
        0 <= i < src.n,
        limbs_hold(k as int, coefficient_limbs(*src, col, i), src_base2k as int, c),
    ensures
        r.n == src.n && r.cols == src.cols && r.size == dst_size,
        limbs_hold(k as int, coefficient_limbs(r, col, i), dst_base2k as int, c),
        forall|l: int|
            0 <= l < dst_size ==> -(pow2(dst_base2k as nat) as int) <= 2 * #[trigger] r.coeff(
                col,
                l,
                i,
            ) < pow2(dst_base2k as nat),
{
    let from = coefficient_limbs(*src, col, i);
    let to = coefficient_limbs(r, col, i);
    law_relimbing_is_lossless(k as int, from, src_base2k as int, to, dst_base2k as int, c);
    assert forall|l: int| 0 <= l < dst_size implies -(pow2(dst_base2k as nat) as int) <= 2
        * #[trigger] r.coeff(col, l, i) < pow2(dst_base2k as nat) by {
        assert(to[l] == r.coeff(col, l, i));
    }
}

/// A vector that is encoded into a column and decoded from it comes back modulo the radix,
/// entry by entry, whatever the limbs; the other columns stay.
pub proof fn law_vectors_decode(
    e: &ModPEncoder,
    dst: &mut LimbVec,
    base2k: usize,
    col: usize,
    values: &[i64],
    src: &LimbVec,
    out: &mut [i64],
    i: int,
    other: int,
    l: int,
)
    requires
        e.wf(),
        e.p < pow2(e.k as nat),
        limbs_fit(e.k as int, base2k as int, old(dst).size as int),
        call_ensures(ModPEncoder::encode_vec_i64, (e, dst, base2k, col, values), ()),
        *src == *final(dst),
        call_ensures(ModPEncoder::decode_vec_i64, (e, src, base2k, col, out), ()),
        0 <= i < old(dst).n,
        old(dst).contains(other, l, i),
        other != col,
    ensures
        final(out)@.len() == old(dst).n,
        (values@[i] - final(out)@[i]) % e.p as int == 0,
        -(e.p as int) <= 2 * final(out)@[i] < e.p,
        src.coeff(other, l, i) == old(dst).coeff(other, l, i),
{
    let limbs = coefficient_limbs(*src, col as int, i);
    assert(e.holds_vector(*src, base2k as int, col as int, values@));
    assert(e.reads_vector(*src, base2k as int, col as int, final(out)@));
    e.law_limbs_read_back(limbs, base2k as int, values@[i] as int);
    lemma_centred_residue(values@[i] as int, e.p as int);
}

} // verus!
