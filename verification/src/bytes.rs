//! Little-endian integers as byte sequences.

use vstd::prelude::*;
use vstd::arithmetic::div_mod::*;
use vstd::arithmetic::power::{lemma_pow0, lemma_pow1, lemma_pow_adds, pow};
use crate::arith::lemma_quotient;

verus! {

/// The integer whose base-256 digits are `s`, least significant first.
pub open spec fn le_value(s: Seq<u8>) -> int
    decreases s.len(),
{
    if s.len() == 0 {
        0
    } else {
        s[0] + 256 * le_value(s.drop_first())
    }
}

/// The `len` low base-256 digits of `x`, least significant first.
pub open spec fn le_bytes(x: int, len: nat) -> Seq<u8>
    decreases len,
{
    if len == 0 {
        Seq::empty()
    } else {
        seq![(x % 256) as u8] + le_bytes(x / 256, (len - 1) as nat)
    }
}

pub proof fn lemma_le_value_bound(s: Seq<u8>)
    ensures
        0 <= le_value(s) < pow(256, s.len()),
    decreases s.len(),
{
    if s.len() == 0 {
        lemma_pow0(256);
    } else {
        lemma_le_value_bound(s.drop_first());
        lemma_pow_adds(256, 1, (s.len() - 1) as nat);
        lemma_pow1(256);
    }
}

pub proof fn lemma_le_bytes_len(x: int, len: nat)
    ensures
        le_bytes(x, len).len() == len,
    decreases len,
{
    if len > 0 {
        lemma_le_bytes_len(x / 256, (len - 1) as nat);
    }
}

/// Writing a value and reading it back.
pub proof fn law_le_value_of_bytes(x: int, len: nat)
    requires
        0 <= x < pow(256, len),
    ensures
        le_value(le_bytes(x, len)) == x,
        le_bytes(x, len).len() == len,
    decreases len,
{
    lemma_le_bytes_len(x, len);
    if len == 0 {
        lemma_pow0(256);
    } else {
        let k = (len - 1) as nat;
        lemma_pow_adds(256, 1, k);
        lemma_pow1(256);
        lemma_fundamental_div_mod(x, 256);
        law_le_value_of_bytes(x / 256, k);
        let s = le_bytes(x, len);
        assert(s.drop_first() =~= le_bytes(x / 256, k));
    }
}

/// Reading bytes and writing them back.
pub proof fn law_le_bytes_of_value(s: Seq<u8>)
    ensures
        le_bytes(le_value(s), s.len()) == s,
    decreases s.len(),
{
    if s.len() == 0 {
        assert(le_bytes(le_value(s), 0) =~= s);
    } else {
        let t = s.drop_first();
        law_le_bytes_of_value(t);
        lemma_quotient(le_value(s), 256, le_value(t), s[0] as int);
        assert(le_bytes(le_value(s), s.len()) =~= seq![s[0]] + t);
        assert(seq![s[0]] + t =~= s);
    }
}

/// The value of a concatenation.
pub proof fn lemma_le_value_concat(s: Seq<u8>, t: Seq<u8>)
    ensures
        le_value(s + t) == le_value(s) + pow(256, s.len()) * le_value(t),
    decreases s.len(),
{
    if s.len() == 0 {
        lemma_pow0(256);
        assert(s + t =~= t);
    } else {
        let u = s.drop_first();
        assert((s + t).drop_first() =~= u + t);
        lemma_le_value_concat(u, t);
        lemma_pow_adds(256, 1, u.len());
        lemma_pow1(256);
        let p = pow(256, u.len());
        let v = le_value(t);
        assert(256 * (p * v) == (256 * p) * v) by (nonlinear_arith);
    }
}

/// Appends the `len` low bytes of `x`, least significant first.
fn write_le(out: &mut Vec<u8>, x: u64, len: usize)
    ensures
        final(out)@ == old(out)@ + le_bytes(x as int, len as nat),
{
    let ghost start = out@;
    let mut rest: u64 = x;
    let mut i: usize = 0;
    while i < len
        invariant
            i <= len,
            start + le_bytes(x as int, len as nat) == out@ + le_bytes(rest as int, (len - i) as nat),
        decreases len - i,
    {
        let ghost before = out@;
        out.push((rest % 256) as u8);
        proof {
            assert(before + le_bytes(rest as int, (len - i) as nat) =~= out@ + le_bytes(
                (rest / 256) as int,
                (len - i - 1) as nat,
            ));
        }
        rest = rest / 256;
        i = i + 1;
    }
    proof {
        assert(out@ + le_bytes(rest as int, 0) =~= out@);
    }
}

/// Reads `len` little-endian bytes at `at`.
fn read_le(bytes: &[u8], at: usize, len: usize) -> (r: u64)
    requires
        len <= 8,
        at + len <= bytes@.len(),
    ensures
        r == le_value(bytes@.subrange(at as int, at + len)),
{
    let ghost window = bytes@.subrange(at as int, at + len);
    let total: usize = bytes.len();
    let mut value: u64 = 0;
    let mut i: usize = len;
    proof {
        lemma_pow_256_8();
        assert(window.subrange(len as int, len as int) =~= Seq::<u8>::empty());
    }
    while i > 0
        invariant
            i <= len <= 8,
            total == bytes@.len(),
            at + len <= total,
            window == bytes@.subrange(at as int, at + len),
            window.len() == len,
            value == le_value(window.subrange(i as int, len as int)),
            pow(256, 8) == 0x1_0000_0000_0000_0000,
        decreases i,
    {
        i = i - 1;
        proof {
            let tail = window.subrange(i as int, len as int);
            assert(tail.drop_first() =~= window.subrange(i + 1, len as int));
            lemma_le_value_bound(tail);
            lemma_pow_increases_256((len - i) as nat);
            assert(tail[0] == bytes@[at + i]);
        }
        value = value * 256 + bytes[at + i] as u64;
    }
    proof {
        assert(window.subrange(0, len as int) =~= window);
    }
    value
}

/// Appends `x` as eight little-endian bytes.
pub fn write_u64(out: &mut Vec<u8>, x: u64)
    ensures
        final(out)@ == old(out)@ + le_bytes(x as int, 8),
{
    write_le(out, x, 8)
}

/// The word in the eight little-endian bytes at `at`.
pub fn u64_at(bytes: &[u8], at: usize) -> (r: u64)
    requires
        at + 8 <= bytes@.len(),
    ensures
        r == le_value(bytes@.subrange(at as int, at + 8)),
{
    read_le(bytes, at, 8)
}

/// Appends `x` as four little-endian bytes.
pub fn write_u32(out: &mut Vec<u8>, x: u32)
    ensures
        final(out)@ == old(out)@ + le_bytes(x as int, 4),
{
    write_le(out, x as u64, 4)
}

pub proof fn lemma_pow_256_8()
    ensures
        pow(256, 8) == 0x1_0000_0000_0000_0000,
        pow(256, 4) == 0x1_0000_0000,
{
    lemma_pow1(256);
    lemma_pow_adds(256, 1, 1);
    lemma_pow_adds(256, 2, 2);
    lemma_pow_adds(256, 4, 4);
    assert(65536int * 65536 == 0x1_0000_0000);
    assert(0x1_0000_0000int * 0x1_0000_0000 == 0x1_0000_0000_0000_0000);
}

proof fn lemma_pow_increases_256(k: nat)
    requires
        k <= 8,
    ensures
        pow(256, k) <= pow(256, 8),
{
    vstd::arithmetic::power::lemma_pow_increases(256, k, 8);
}

/// Eight bytes hold every `u64`.
pub proof fn lemma_u64_fits(x: u64)
    ensures
        0 <= x < pow(256, 8),
        le_value(le_bytes(x as int, 8)) == x,
        le_bytes(x as int, 8).len() == 8,
{
    lemma_pow_256_8();
    law_le_value_of_bytes(x as int, 8);
}

/// Four bytes hold every `u32`.
pub proof fn lemma_u32_fits(x: u32)
    ensures
        le_value(le_bytes(x as int, 4)) == x,
        le_bytes(x as int, 4).len() == 4,
{
    lemma_pow_256_8();
    law_le_value_of_bytes(x as int, 4);
}

} // verus!
