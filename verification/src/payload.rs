//! Payloads as vectors of signed digits.
//!
//! A 32-byte payload is an integer below `2^256`. It is stored as its digits in base
//! `p`, each digit centred around zero so that it fits an `i16`.

use core::marker::PhantomData;
use vstd::prelude::*;
use vstd::arithmetic::div_mod::*;
use vstd::arithmetic::mul::*;
use vstd::arithmetic::power::{lemma_pow0, lemma_pow1, lemma_pow_adds, lemma_pow_positive, pow};
use crate::arith::lemma_quotient;
use crate::bytes::{
    law_le_bytes_of_value, le_bytes, le_value, lemma_le_value_bound, lemma_le_value_concat,
};
use crate::encoding::centred_residue;

verus! {

/// 256-bit payload as 17 base-65535 digits.
pub type U256P65535 = P65535<[u8; 32]>;

/// 256-bit payload as 16 base-65536 digits.
pub type U256P65536 = P65536<[u8; 32]>;

/// A way to store a block `B` as digits.
pub trait Payload<B>: Sized {
    /// Digit radix `p`.
    const BASIS: u32;

    /// Number of digits of a block.
    const EXPONENT: usize;

    /// The digits that stand for a block.
    spec fn digits_of(a: B) -> Seq<i16>;

    /// Digit vectors that stand for a block.
    spec fn decodable(digits: Seq<i16>) -> bool;

    /// The digits stand for the block.
    spec fn stands_for(digits: Seq<i16>, a: B) -> bool;

    /// Writes the digits of `a`.
    fn encode(digits: &mut [i16], a: B)
        requires
            old(digits)@.len() == Self::EXPONENT,
        ensures
            final(digits)@ == Self::digits_of(a),
    ;

    /// Reads the block that `digits` stand for.
    fn decode(a: &mut B, digits: &[i16])
        requires
            digits@.len() == Self::EXPONENT,
            Self::decodable(digits@),
        ensures
            Self::stands_for(digits@, *final(a)),
    ;

    /// A block has at least one digit, and digits have a usable radix.
    proof fn law_shape()
        ensures
            Self::EXPONENT >= 1,
            2 <= Self::BASIS <= 65536,
    ;

    /// Decoding inverts encoding: the digits of a block can be decoded, and stand for
    /// that block alone.
    proof fn law_roundtrip(a: B, b: B)
        ensures
            Self::digits_of(a).len() == Self::EXPONENT,
            Self::decodable(Self::digits_of(a)),
            Self::stands_for(Self::digits_of(a), b) <==> a == b,
    ;

    /// The digits of a block are centred residues modulo the radix.
    proof fn law_digits_are_centred(a: B, k: int)
        requires
            0 <= k < Self::EXPONENT,
        ensures
            centred_residue(Self::digits_of(a)[k] as int, Self::BASIS as int) == Self::digits_of(
                a,
            )[k],
    ;
}

#[derive(Debug, PartialEq, Eq)]
pub struct P65535<B> {
    _phantom: PhantomData<B>,
}

impl<B> Clone for P65535<B> {
    fn clone(&self) -> (r: Self)
        ensures
            r == *self,
    {
        *self
    }
}

impl<B> Copy for P65535<B> {}

#[derive(Debug, PartialEq, Eq)]
pub struct P65536<B> {
    _phantom: PhantomData<B>,
}

impl<B> Clone for P65536<B> {
    fn clone(&self) -> (r: Self)
        ensures
            r == *self,
    {
        *self
    }
}

impl<B> Copy for P65536<B> {}

/// A base-65535 digit, centred.
pub open spec fn centred_digit(d: int) -> int {
    if d > 32767 { d - 65535 } else { d }
}

/// The base-65535 digit of its centred form.
pub open spec fn uncentred_digit(s: int) -> int {
    if s < 0 { s + 65535 } else { s }
}

/// Maps a digit `d` in `[0, 65534]` to its centred form in `[-32767, 32767]`.
pub fn digit_to_centred_i16(digit: u16) -> (r: i16)
    requires
        digit < 65535,
    ensures
        r == centred_digit(digit as int),
        -32767 <= r <= 32767,
{
    if digit > 32767 {
        (digit as i32 - 65535) as i16
    } else {
        digit as i16
    }
}

/// Inverse of [`digit_to_centred_i16`].
pub fn centred_i16_to_digit(stored: i16) -> (r: u16)
    requires
        stored != i16::MIN,
    ensures
        r == uncentred_digit(stored as int),
        r < 65535,
{
    if stored < 0 {
        (stored as i32 + 65535) as u16
    } else {
        stored as u16
    }
}

/// Centring is a bijection between `[0, 65534]` and `[-32767, 32767]`.
pub proof fn law_centring_inverts(d: int, s: int)
    ensures
        0 <= d < 65535 ==> uncentred_digit(centred_digit(d)) == d,
        -32767 <= s <= 32767 ==> centred_digit(uncentred_digit(s)) == s,
{
}

// ---------------------------------------------------------------------------
// Radix expansions
// ---------------------------------------------------------------------------

/// Digit `i` of `v` in base `p`.
pub open spec fn radix_digit(v: int, p: int, i: nat) -> int {
    (v / pow(p, i)) % p
}

/// The integer with the given digits in base `p`, least significant first.
pub open spec fn radix_value(digits: Seq<int>, p: int) -> int
    decreases digits.len(),
{
    if digits.len() == 0 {
        0
    } else {
        digits[0] + p * radix_value(digits.drop_first(), p)
    }
}

/// The first `len` digits of `v`.
pub open spec fn radix_digits(v: int, p: int, len: nat) -> Seq<int> {
    Seq::new(len, |i: int| radix_digit(v, p, i as nat))
}

/// Dividing by `p` drops the first digit.
proof fn lemma_digits_shift(v: int, p: int, len: nat)
    requires
        v >= 0,
        p >= 2,
        len >= 1,
    ensures
        radix_digits(v, p, len)[0] == v % p,
        radix_digits(v, p, len).drop_first() == radix_digits(v / p, p, (len - 1) as nat),
{
    lemma_pow0(p);
    assert(v / 1 == v);
    assert forall|i: int| 0 <= i < len - 1 implies #[trigger] radix_digits(
        v,
        p,
        len,
    ).drop_first()[i] == radix_digits(v / p, p, (len - 1) as nat)[i] by {
        lemma_pow_adds(p, 1, i as nat);
        lemma_pow1(p);
        lemma_pow_positive(p, i as nat);
        lemma_div_denominator(v, p, pow(p, i as nat));
    }
    assert(radix_digits(v, p, len).drop_first() =~= radix_digits(v / p, p, (len - 1) as nat));
}

/// An integer below `p^len` is the value of its `len` digits.
pub proof fn law_radix_value_of_digits(v: int, p: int, len: nat)
    requires
        p >= 2,
        0 <= v < pow(p, len),
    ensures
        radix_value(radix_digits(v, p, len), p) == v,
    decreases len,
{
    if len == 0 {
        lemma_pow0(p);
    } else {
        lemma_digits_shift(v, p, len);
        let k = (len - 1) as nat;
        lemma_pow_adds(p, 1, k);
        lemma_pow1(p);
        lemma_fundamental_div_mod(v, p);
        lemma_mod_pos_bound(v, p);
        lemma_div_pos_is_pos(v, p);
        let q = v / p;
        let t = pow(p, k);
        assert(q < t) by (nonlinear_arith)
            requires
                v == p * q + v % p,
                v < p * t,
                v % p >= 0,
                p >= 2,
        ;
        law_radix_value_of_digits(q, p, k);
    }
}

/// Digits below the radix are recovered from their value.
pub proof fn law_radix_digits_of_value(digits: Seq<int>, p: int)
    requires
        p >= 2,
        forall|i: int| 0 <= i < digits.len() ==> 0 <= #[trigger] digits[i] < p,
    ensures
        radix_digits(radix_value(digits, p), p, digits.len()) == digits,
        radix_value(digits, p) >= 0,
    decreases digits.len(),
{
    if digits.len() == 0 {
        assert(radix_digits(radix_value(digits, p), p, 0) =~= digits);
    } else {
        let rest = digits.drop_first();
        assert forall|i: int| 0 <= i < rest.len() implies 0 <= #[trigger] rest[i] < p by {
            assert(rest[i] == digits[i + 1]);
        }
        law_radix_digits_of_value(rest, p);
        let v = radix_value(digits, p);
        assert(v >= 0) by (nonlinear_arith)
            requires
                v == digits[0] + p * radix_value(rest, p),
                digits[0] >= 0,
                p >= 2,
                radix_value(rest, p) >= 0,
        ;
        lemma_quotient(v, p, radix_value(rest, p), digits[0]);
        lemma_digits_shift(v, p, digits.len());
        assert(radix_digits(v, p, digits.len()) =~= digits) by {
            let d = radix_digits(v, p, digits.len());
            assert forall|i: int| 0 <= i < digits.len() implies #[trigger] d[i] == digits[i] by {
                if i > 0 {
                    assert(d.drop_first()[i - 1] == d[i]);
                    assert(rest[i - 1] == digits[i]);
                }
            }
        }
    }
}

// ---------------------------------------------------------------------------
// 256-bit integers as four words
// ---------------------------------------------------------------------------

/// The integer that four little-endian words stand for.
pub open spec fn words_value(l: Seq<u64>) -> int {
    l[0] + 0x1_0000_0000_0000_0000int * l[1] + 0x1_0000_0000_0000_0000_0000_0000_0000_0000int
        * l[2] + 0x1_0000_0000_0000_0000_0000_0000_0000_0000_0000_0000_0000_0000int * l[3]
}

proof fn lemma_pow_256_32()
    ensures
        pow(256, 8) == 0x1_0000_0000_0000_0000int,
        pow(256, 16) == 0x1_0000_0000_0000_0000_0000_0000_0000_0000int,
        pow(256, 24) == 0x1_0000_0000_0000_0000_0000_0000_0000_0000_0000_0000_0000_0000int,
        pow(256, 32)
            == 0x1_0000_0000_0000_0000_0000_0000_0000_0000_0000_0000_0000_0000_0000_0000_0000_0000int,
{
    lemma_pow1(256);
    lemma_pow_adds(256, 1, 1);
    assert(pow(256, 1) * pow(256, 1) == 65536) by (nonlinear_arith)
        requires
            pow(256, 1) == 256,
            pow(256, 1) == 256,
    ;
    lemma_pow_adds(256, 2, 2);
    assert(pow(256, 2) * pow(256, 2) == 4294967296) by (nonlinear_arith)
        requires
            pow(256, 2) == 65536,
            pow(256, 2) == 65536,
    ;
    lemma_pow_adds(256, 4, 4);
    assert(pow(256, 4) * pow(256, 4) == 18446744073709551616) by (nonlinear_arith)
        requires
            pow(256, 4) == 4294967296,
            pow(256, 4) == 4294967296,
    ;
    lemma_pow_adds(256, 8, 8);
    assert(pow(256, 8) * pow(256, 8) == 340282366920938463463374607431768211456) by (nonlinear_arith)
        requires
            pow(256, 8) == 18446744073709551616,
            pow(256, 8) == 18446744073709551616,
    ;
    lemma_pow_adds(256, 8, 16);
    assert(pow(256, 8) * pow(256, 16)
        == 6277101735386680763835789423207666416102355444464034512896) by (nonlinear_arith)
        requires
            pow(256, 8) == 18446744073709551616,
            pow(256, 16) == 340282366920938463463374607431768211456,
    ;
    lemma_pow_adds(256, 16, 16);
    assert(pow(256, 16) * pow(256, 16)
        == 115792089237316195423570985008687907853269984665640564039457584007913129639936)
        by (nonlinear_arith)
        requires
            pow(256, 16) == 340282366920938463463374607431768211456,
            pow(256, 16) == 340282366920938463463374607431768211456,
    ;
}

/// The value of four groups of eight bytes.
proof fn lemma_four_words(a: Seq<u8>, b: Seq<u8>, c: Seq<u8>, d: Seq<u8>)
    requires
        a.len() == 8,
        b.len() == 8,
        c.len() == 8,
        d.len() == 8,
    ensures
        le_value(a + (b + (c + d))) == le_value(a) + 0x1_0000_0000_0000_0000int * le_value(b)
            + 0x1_0000_0000_0000_0000_0000_0000_0000_0000int * le_value(c)
            + 0x1_0000_0000_0000_0000_0000_0000_0000_0000_0000_0000_0000_0000int * le_value(d),
{
    lemma_pow_256_32();
    lemma_le_value_concat(c, d);
    lemma_le_value_concat(b, c + d);
    lemma_le_value_concat(a, b + (c + d));
}

/// Four little-endian words of 32 bytes.
pub fn u256_le_to_limbs(value: &[u8; 32]) -> (r: [u64; 4])
    ensures
        words_value(r@) == le_value(value@),
{
    let l0: u64 = crate::bytes::u64_at(value.as_slice(), 0);
    let l1: u64 = crate::bytes::u64_at(value.as_slice(), 8);
    let l2: u64 = crate::bytes::u64_at(value.as_slice(), 16);
    let l3: u64 = crate::bytes::u64_at(value.as_slice(), 24);
    proof {
        lemma_pow_256_32();
        let s = value@;
        let a = s.subrange(0, 8);
        let b = s.subrange(8, 16);
        let c = s.subrange(16, 24);
        let d = s.subrange(24, 32);
        assert(a + (b + (c + d)) =~= s);
        lemma_four_words(a, b, c, d);
    }
    [l0, l1, l2, l3]
}

/// Divides in place by 65535 and returns the remainder.
pub fn divmod_65535_in_place(limbs: &mut [u64; 4]) -> (r: u16)
    ensures
        words_value(final(limbs)@) == words_value(old(limbs)@) / 65535,
        r == words_value(old(limbs)@) % 65535,
        r < 65535,
{
    let ghost start = limbs@;
    let c3: u128 = limbs[3] as u128;
    let q3: u128 = c3 / 65535;
    let c2: u128 = (c3 % 65535) * 0x1_0000_0000_0000_0000u128 + limbs[2] as u128;
    let q2: u128 = c2 / 65535;
    let c1: u128 = (c2 % 65535) * 0x1_0000_0000_0000_0000u128 + limbs[1] as u128;
    let q1: u128 = c1 / 65535;
    let c0: u128 = (c1 % 65535) * 0x1_0000_0000_0000_0000u128 + limbs[0] as u128;
    let q0: u128 = c0 / 65535;
    let r: u128 = c0 % 65535;
    limbs[3] = q3 as u64;
    limbs[2] = q2 as u64;
    limbs[1] = q1 as u64;
    limbs[0] = q0 as u64;
    proof {
        let v = words_value(start);
        let q = words_value(limbs@);
        assert(v == q * 65535 + r);
        lemma_quotient(v, 65535, q, r as int);
    }
    r as u16
}

// ---------------------------------------------------------------------------
// Base 65535
// ---------------------------------------------------------------------------

/// The digits behind centred base-65535 digits.
pub open spec fn uncentred(digits: Seq<i16>) -> Seq<int> {
    Seq::new(digits.len(), |i: int| uncentred_digit(digits[i] as int))
}

/// `65535^17` exceeds `2^256`.
proof fn lemma_pow_65535_17()
    ensures
        pow(65535, 17) > pow(256, 32),
{
    lemma_pow1(65535);
    lemma_pow_adds(65535, 1, 1);
    assert(pow(65535, 1) * pow(65535, 1) == 4294836225) by (nonlinear_arith)
        requires
            pow(65535, 1) == 65535,
            pow(65535, 1) == 65535,
    ;
    lemma_pow_adds(65535, 2, 2);
    assert(pow(65535, 2) * pow(65535, 2) == 18445618199572250625) by (nonlinear_arith)
        requires
            pow(65535, 2) == 4294836225,
            pow(65535, 2) == 4294836225,
    ;
    lemma_pow_adds(65535, 4, 4);
    assert(pow(65535, 4) * pow(65535, 4) == 340240830764391036687105719527812890625) by (nonlinear_arith)
        requires
            pow(65535, 4) == 18445618199572250625,
            pow(65535, 4) == 18445618199572250625,
    ;
    lemma_pow_adds(65535, 8, 8);
    assert(pow(65535, 8) * pow(65535, 8)
        == 115763822919242982118256257587368734036793359865830347699304416259918212890625)
        by (nonlinear_arith)
        requires
            pow(65535, 8) == 340240830764391036687105719527812890625,
            pow(65535, 8) == 340240830764391036687105719527812890625,
    ;
    lemma_pow_adds(65535, 1, 16);
    assert(pow(65535, 1) * pow(65535, 16)
        == 7586582135012588833119923840988209985101252838807191836473914919593740081787109375)
        by (nonlinear_arith)
        requires
            pow(65535, 1) == 65535,
            pow(65535, 16) == 115763822919242982118256257587368734036793359865830347699304416259918212890625,
    ;
    lemma_pow_256_32();
}

impl Payload<[u8; 32]> for P65535<[u8; 32]> {
    const BASIS: u32 = 65535;

    const EXPONENT: usize = 17;

    open spec fn digits_of(a: [u8; 32]) -> Seq<i16> {
        Seq::new(
            17,
            |i: int| centred_digit(radix_digit(le_value(a@), 65535, i as nat)) as i16,
        )
    }

    open spec fn decodable(digits: Seq<i16>) -> bool {
        &&& forall|i: int| 0 <= i < digits.len() ==> #[trigger] digits[i] != i16::MIN
        &&& radix_value(uncentred(digits), 65535) < pow(256, 32)
    }

    open spec fn stands_for(digits: Seq<i16>, a: [u8; 32]) -> bool {
        le_value(a@) == radix_value(uncentred(digits), 65535)
    }

    fn encode(digits: &mut [i16], value: [u8; 32]) {
        let mut limbs: [u64; 4] = u256_le_to_limbs(&value);
        let ghost v = le_value(value@);
        let mut i: usize = 0;
        proof {
            lemma_pow0(65535);
            lemma_le_value_bound(value@);
            assert(v / 1 == v);
        }
        while i < 17
            invariant
                i <= 17,
                v == le_value(value@),
                v >= 0,
                digits@.len() == 17,
                words_value(limbs@) == v / pow(65535, i as nat),
                forall|j: int|
                    0 <= j < i ==> #[trigger] digits@[j] == centred_digit(
                        radix_digit(v, 65535, j as nat),
                    ) as i16,
            decreases 17 - i,
        {
            let d: u16 = divmod_65535_in_place(&mut limbs);
            proof {
                lemma_pow_adds(65535, i as nat, 1);
                lemma_pow1(65535);
                lemma_pow_positive(65535, i as nat);
                lemma_div_denominator(v, pow(65535, i as nat), 65535);
            }
            digits[i] = digit_to_centred_i16(d);
            i = i + 1;
        }
        assert(digits@ =~= Self::digits_of(value));
    }

    fn decode(a: &mut [u8; 32], digits: &[i16]) {
        let ghost plain = uncentred(digits@);
        let mut acc: [u64; 4] = [0, 0, 0, 0];
        let mut i: usize = 17;
        proof {
            assert(plain.subrange(17, 17) =~= Seq::<int>::empty());
        }
        while i > 0
            invariant
                i <= 17,
                digits@.len() == 17,
                plain == uncentred(digits@),
                Self::decodable(digits@),
                words_value(acc@) == radix_value(plain.subrange(i as int, 17), 65535),
            decreases i,
        {
            i = i - 1;
            assert(digits@[i as int] != i16::MIN);
            let digit: u16 = centred_i16_to_digit(digits[i]);
            proof {
                let tail = plain.subrange(i as int, 17);
                assert(tail.drop_first() =~= plain.subrange(i + 1, 17));
                assert(tail[0] == digit);
                lemma_tail_value(plain, i as int);
            }
            mul_add_65535(&mut acc, digit);
        }
        proof {
            assert(plain.subrange(0, 17) =~= plain);
        }
        words_to_bytes(&acc, a);
    }

    proof fn law_shape() {
    }

    proof fn law_digits_are_centred(a: [u8; 32], k: int) {
        lemma_mod_bound(le_value(a@) / pow(65535, k as nat), 65535);
    }

    proof fn law_roundtrip(a: [u8; 32], b: [u8; 32]) {
        let digits = Self::digits_of(a);
        let v = le_value(a@);
        lemma_le_value_bound(a@);
        lemma_pow_65535_17();
        law_radix_value_of_digits(v, 65535, 17);
        assert forall|i: int| 0 <= i < 17 implies #[trigger] digits[i] != i16::MIN && uncentred(
            digits,
        )[i] == radix_digit(v, 65535, i as nat) by {
            let d = radix_digit(v, 65535, i as nat);
            lemma_mod_bound(v / pow(65535, i as nat), 65535);
        }
        assert(uncentred(digits) =~= radix_digits(v, 65535, 17));
        if le_value(b@) == v {
            law_le_bytes_of_value(a@);
            law_le_bytes_of_value(b@);
            assert(a@ == b@);
            assert forall|i: int| 0 <= i < 32 implies a[i] == b[i] by {
                assert(a@[i] == b@[i]);
            }
            assert(a =~= b);
        }
    }
}

/// The value of a suffix of digits is at most the value of all of them.
proof fn lemma_tail_value(digits: Seq<int>, i: int)
    requires
        0 <= i <= digits.len(),
        digits.len() == 17,
        forall|j: int| 0 <= j < digits.len() ==> 0 <= #[trigger] digits[j] < 65535,
    ensures
        0 <= radix_value(digits.subrange(i, 17), 65535) <= radix_value(digits, 65535),
    decreases i,
{
    assert(digits.subrange(0, 17) =~= digits);
    lemma_radix_nonneg(digits.subrange(i, 17));
    if i > 0 {
        lemma_tail_value(digits, i - 1);
        let longer = digits.subrange(i - 1, 17);
        assert(longer.drop_first() =~= digits.subrange(i, 17));
    }
}

proof fn lemma_radix_nonneg(digits: Seq<int>)
    requires
        forall|j: int| 0 <= j < digits.len() ==> 0 <= #[trigger] digits[j],
    ensures
        radix_value(digits, 65535) >= 0,
    decreases digits.len(),
{
    if digits.len() > 0 {
        let rest = digits.drop_first();
        assert forall|j: int| 0 <= j < rest.len() implies 0 <= #[trigger] rest[j] by {
            assert(rest[j] == digits[j + 1]);
        }
        lemma_radix_nonneg(rest);
    }
}

/// `acc = acc * 65535 + digit`, for a result below `2^256`.
fn mul_add_65535(acc: &mut [u64; 4], digit: u16)
    requires
        words_value(old(acc)@) * 65535 + digit < pow(256, 32),
    ensures
        words_value(final(acc)@) == words_value(old(acc)@) * 65535 + digit,
{
    let ghost start = acc@;
    let w: u128 = 0x1_0000_0000_0000_0000;
    let p0: u128 = (acc[0] as u128) * 65535 + digit as u128;
    let p1: u128 = (acc[1] as u128) * 65535 + p0 / w;
    let p2: u128 = (acc[2] as u128) * 65535 + p1 / w;
    let p3: u128 = (acc[3] as u128) * 65535 + p2 / w;
    acc[0] = (p0 % w) as u64;
    acc[1] = (p1 % w) as u64;
    acc[2] = (p2 % w) as u64;
    acc[3] = (p3 % w) as u64;
    proof {
        lemma_pow_256_32();
        let low = words_value(acc@);
        let top = (p3 / w) as int;
        assert(words_value(start) * 65535 + digit == low
            + 0x1_0000_0000_0000_0000_0000_0000_0000_0000_0000_0000_0000_0000_0000_0000_0000_0000int * top);
    }
}

/// Writes four little-endian words as 32 bytes.
fn words_to_bytes(words: &[u64; 4], out: &mut [u8; 32])
    ensures
        le_value(final(out)@) == words_value(words@),
{
    let mut bytes: Vec<u8> = Vec::new();
    crate::bytes::write_u64(&mut bytes, words[0]);
    crate::bytes::write_u64(&mut bytes, words[1]);
    crate::bytes::write_u64(&mut bytes, words[2]);
    crate::bytes::write_u64(&mut bytes, words[3]);
    proof {
        lemma_pow_256_32();
        let a = le_bytes(words@[0] as int, 8);
        let b = le_bytes(words@[1] as int, 8);
        let c = le_bytes(words@[2] as int, 8);
        let d = le_bytes(words@[3] as int, 8);
        crate::bytes::lemma_u64_fits(words@[0]);
        crate::bytes::lemma_u64_fits(words@[1]);
        crate::bytes::lemma_u64_fits(words@[2]);
        crate::bytes::lemma_u64_fits(words@[3]);
        assert(bytes@ =~= a + (b + (c + d)));
        lemma_four_words(a, b, c, d);
    }
    let mut i: usize = 0;
    while i < 32
        invariant
            i <= 32,
            bytes@.len() == 32,
            forall|j: int| 0 <= j < i ==> out@[j] == bytes@[j],
        decreases 32 - i,
    {
        out[i] = bytes[i];
        i = i + 1;
    }
    assert(out@ =~= bytes@);
}

// ---------------------------------------------------------------------------
// Base 65536
// ---------------------------------------------------------------------------

/// The signed reading of a 16-bit word.
pub open spec fn word_to_signed(w: int) -> int {
    if w >= 32768 { w - 65536 } else { w }
}

/// The 16-bit word of a signed reading.
pub open spec fn signed_to_word(s: int) -> int {
    if s < 0 { s + 65536 } else { s }
}

impl Payload<[u8; 32]> for P65536<[u8; 32]> {
    const BASIS: u32 = 65536;

    const EXPONENT: usize = 16;

    open spec fn digits_of(a: [u8; 32]) -> Seq<i16> {
        Seq::new(16, |i: int| word_to_signed(a@[2 * i] + 256 * a@[2 * i + 1]) as i16)
    }

    open spec fn decodable(digits: Seq<i16>) -> bool {
        true
    }

    open spec fn stands_for(digits: Seq<i16>, a: [u8; 32]) -> bool {
        forall|i: int|
            0 <= i < 16 ==> signed_to_word(#[trigger] digits[i] as int) == a@[2 * i] + 256 * a@[2 * i
                + 1]
    }

    fn encode(digits: &mut [i16], value: [u8; 32]) {
        let mut i: usize = 0;
        while i < 16
            invariant
                i <= 16,
                digits@.len() == 16,
                forall|j: int|
                    0 <= j < i ==> #[trigger] digits@[j] == word_to_signed(
                        value@[2 * j] + 256 * value@[2 * j + 1],
                    ),
            decreases 16 - i,
        {
            let word: i32 = value[2 * i] as i32 + 256 * value[2 * i + 1] as i32;
            let signed: i16 = if word >= 32768 {
                (word - 65536) as i16
            } else {
                word as i16
            };
            digits[i] = signed;
            i = i + 1;
        }
        assert(digits@ =~= Self::digits_of(value));
    }

    fn decode(a: &mut [u8; 32], digits: &[i16]) {
        let mut i: usize = 0;
        while i < 16
            invariant
                i <= 16,
                digits@.len() == 16,
                forall|j: int|
                    0 <= j < i ==> signed_to_word(#[trigger] digits@[j] as int) == a@[2 * j] + 256
                        * a@[2 * j + 1],
            decreases 16 - i,
        {
            let stored: i32 = digits[i] as i32;
            let word: u32 = if stored < 0 {
                (stored + 65536) as u32
            } else {
                stored as u32
            };
            a[2 * i] = (word % 256) as u8;
            a[2 * i + 1] = (word / 256) as u8;
            i = i + 1;
        }
    }

    proof fn law_shape() {
    }

    proof fn law_digits_are_centred(a: [u8; 32], k: int) {
    }

    proof fn law_roundtrip(a: [u8; 32], b: [u8; 32]) {
        let digits = Self::digits_of(a);
        assert forall|i: int| 0 <= i < 16 implies signed_to_word(#[trigger] digits[i] as int)
            == a@[2 * i] + 256 * a@[2 * i + 1] by {}
        if Self::stands_for(digits, b) {
            assert forall|i: int| 0 <= i < 32 implies a[i] == b[i] by {
                let h = i / 2;
                assert(signed_to_word(digits[h] as int) == b@[2 * h] + 256 * b@[2 * h + 1]);
                assert(i == 2 * h || i == 2 * h + 1);
                assert(a@[2 * h] == b@[2 * h] && a@[2 * h + 1] == b@[2 * h + 1]);
            }
            assert(a =~= b);
        }
    }
}

/// Radix and number of digits of a payload in residues modulo 65535.
pub proof fn law_shape_of_p65535()
    ensures
        <U256P65535 as Payload<[u8; 32]>>::BASIS == 65535,
        <U256P65535 as Payload<[u8; 32]>>::EXPONENT == 17,
{
}

/// Radix and number of digits of a payload in words of 16 bits.
pub proof fn law_shape_of_p65536()
    ensures
        <U256P65536 as Payload<[u8; 32]>>::BASIS == 65536,
        <U256P65536 as Payload<[u8; 32]>>::EXPONENT == 16,
{
}

/// The digits of a payload in residues modulo 65535 spell its bytes, least significant
/// first, and are centred.
pub proof fn law_p65535_digits_spell_bytes(a: [u8; 32], k: nat)
    requires
        k < 17,
    ensures
        <U256P65535 as Payload<[u8; 32]>>::digits_of(a).len() == 17,
        (le_value(a@) / pow(65535, k) - <U256P65535 as Payload<[u8; 32]>>::digits_of(a)[k as int])
            % 65535 == 0,
        -32767 <= <U256P65535 as Payload<[u8; 32]>>::digits_of(a)[k as int] <= 32767,
{
    let x = le_value(a@) / pow(65535, k);
    let d = x % 65535;
    lemma_mod_bound(x, 65535);
    lemma_fundamental_div_mod(x, 65535);
}

/// The digits of a payload in words of 16 bits are its bytes by twos, as signed words.
pub proof fn law_p65536_digits_are_words(a: [u8; 32], k: int)
    requires
        0 <= k < 16,
    ensures
        <U256P65536 as Payload<[u8; 32]>>::digits_of(a).len() == 16,
        (a@[2 * k] + 256 * a@[2 * k + 1] - <U256P65536 as Payload<[u8; 32]>>::digits_of(a)[k])
            % 65536 == 0,
{
}

} // verus!
