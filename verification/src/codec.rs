//! Formats as values: how a field is read, how it is written, and which values it has.
//!
//! Formats are built from free bytes and words by prefixing literals, pairing and
//! repeating. Each way of building keeps the agreement of reading and writing.

use vstd::prelude::*;
use crate::bytes::{
    law_le_bytes_of_value, le_bytes, le_value, lemma_le_bytes_len, lemma_le_value_bound,
    lemma_pow_256_8, lemma_u64_fits,
};
use crate::wire::{
    agree_on, encode_many, expect, lemma_many, lemma_many_len, lemma_parse_word,
    lemma_starts_concat, parse_many, parse_word, starts_at, take, word_bytes, Parsed,
};

verus! {

/// A format of values of type `T`.
#[verifier::reject_recursive_types(T)]
pub struct Codec<T> {
    pub parse: spec_fn(Seq<u8>, int) -> Parsed<T>,
    pub enc: spec_fn(T) -> Seq<u8>,
    pub ok: spec_fn(T) -> bool,
}

impl<T> Codec<T> {
    /// Reads a value at `at`.
    pub open spec fn read(self, b: Seq<u8>, at: int) -> Parsed<T> {
        (self.parse)(b, at)
    }

    /// The bytes of a value.
    pub open spec fn write(self, x: T) -> Seq<u8> {
        (self.enc)(x)
    }

    /// Whether the format has the value.
    pub open spec fn accepts(self, x: T) -> bool {
        (self.ok)(x)
    }

    /// Values are read exactly where their bytes stand.
    pub open spec fn agrees(self) -> bool {
        forall|b: Seq<u8>, at: int, x: T, n: int|
            #[trigger] agree_on(self.parse, self.enc, self.ok, b, at, x, n)
    }

    /// Values are read exactly where their bytes stand, and all have `len` bytes.
    pub open spec fn consistent(self, len: int) -> bool {
        &&& self.agrees()
        &&& forall|x: T| #[trigger] self.accepts(x) ==> self.write(x).len() == len
    }

    /// What is written reads back, wherever it stands.
    pub proof fn law_reads_back(self, before: Seq<u8>, x: T, after: Seq<u8>)
        requires
            self.agrees(),
            self.accepts(x),
        ensures
            self.read(before + self.write(x) + after, before.len() as int) == Parsed::Done(
                x,
                (before.len() + self.write(x).len()) as int,
            ),
    {
        let b = before + self.write(x) + after;
        let at = before.len() as int;
        let n = at + self.write(x).len();
        assert(b.subrange(at, n) =~= self.write(x));
        assert(agree_on(self.parse, self.enc, self.ok, b, at, x, n));
    }

    /// What was read is written back as it stood.
    pub proof fn law_writes_back(self, b: Seq<u8>, at: int, x: T, n: int)
        requires
            self.agrees(),
            0 <= at <= b.len(),
            self.read(b, at) == Parsed::Done(x, n),
        ensures
            self.accepts(x),
            n == at + self.write(x).len(),
            n <= b.len(),
            b.subrange(at, n) == self.write(x),
    {
        assert(agree_on(self.parse, self.enc, self.ok, b, at, x, n));
    }
}

/// `len` free bytes.
pub open spec fn bytes_codec(len: int) -> Codec<Seq<u8>> {
    Codec {
        parse: |b: Seq<u8>, at: int| take(b, at, len),
        enc: |x: Seq<u8>| x,
        ok: |x: Seq<u8>| x.len() == len,
    }
}

/// One signed word.
pub open spec fn word_codec() -> Codec<i64> {
    Codec {
        parse: |b: Seq<u8>, at: int| parse_word(b, at),
        enc: |x: i64| word_bytes(x),
        ok: |x: i64| true,
    }
}

/// The literal `lit`, then a value.
pub open spec fn after_codec<T>(lit: Seq<u8>, c: Codec<T>) -> Codec<T> {
    Codec {
        parse: |b: Seq<u8>, at: int|
            match expect(b, at, lit) {
                Parsed::Done(_, n) => c.read(b, n),
                Parsed::Short => Parsed::Short,
                Parsed::Bad => Parsed::Bad,
            },
        enc: |x: T| lit + c.write(x),
        ok: |x: T| c.accepts(x),
    }
}

/// Two values, one after the other.
pub open spec fn pair_codec<A, B>(c: Codec<A>, d: Codec<B>) -> Codec<(A, B)> {
    Codec {
        parse: |b: Seq<u8>, at: int|
            match c.read(b, at) {
                Parsed::Done(x, n) => match d.read(b, n) {
                    Parsed::Done(y, m) => Parsed::Done((x, y), m),
                    Parsed::Short => Parsed::Short,
                    Parsed::Bad => Parsed::Bad,
                },
                Parsed::Short => Parsed::Short,
                Parsed::Bad => Parsed::Bad,
            },
        enc: |x: (A, B)| c.write(x.0) + d.write(x.1),
        ok: |x: (A, B)| c.accepts(x.0) && d.accepts(x.1),
    }
}

/// `count` values, one after the other.
pub open spec fn many_codec<T>(c: Codec<T>, count: nat) -> Codec<Seq<T>> {
    Codec {
        parse: |b: Seq<u8>, at: int| parse_many(b, at, c.parse, count),
        enc: |x: Seq<T>| encode_many(c.enc, x),
        ok: |x: Seq<T>| x.len() == count && forall|i: int| 0 <= i < x.len() ==> c.accepts(#[trigger] x[i]),
    }
}

pub proof fn lemma_bytes_codec(len: int)
    requires
        len >= 0,
    ensures
        bytes_codec(len).consistent(len),
{
    let c = bytes_codec(len);
    assert forall|b: Seq<u8>, at: int, x: Seq<u8>, n: int| #[trigger]
        agree_on(c.parse, c.enc, c.ok, b, at, x, n) by {
        if 0 <= at <= b.len() && at + len <= b.len() {
            assert(b.subrange(at, at + len).len() == len);
        }
    }
}

pub proof fn lemma_word_codec()
    ensures
        word_codec().consistent(8),
{
    let c = word_codec();
    assert forall|b: Seq<u8>, at: int, x: i64, n: int| #[trigger]
        agree_on(c.parse, c.enc, c.ok, b, at, x, n) by {
        if 0 <= at <= b.len() {
            lemma_parse_word(b, at, x, n);
        }
    }
    assert forall|x: i64| #[trigger] c.accepts(x) implies c.write(x).len() == 8 by {
        lemma_parse_word(Seq::<u8>::empty(), 0, x, 0);
    }
}

/// Values behind their count.
pub open spec fn listed_codec<T>(c: Codec<T>) -> Codec<Seq<T>> {
    Codec {
        parse: |b: Seq<u8>, at: int|
            match take(b, at, 8) {
                Parsed::Done(s, n) => parse_many(b, n, c.parse, le_value(s) as nat),
                Parsed::Short => Parsed::Short,
                Parsed::Bad => Parsed::Bad,
            },
        enc: |x: Seq<T>| le_bytes(x.len() as int, 8) + encode_many(c.enc, x),
        ok: |x: Seq<T>|
            x.len() <= u64::MAX && forall|i: int| 0 <= i < x.len() ==> c.accepts(#[trigger] x[i]),
    }
}

pub proof fn lemma_after_codec<T>(lit: Seq<u8>, c: Codec<T>, len: int)
    requires
        c.consistent(len),
    ensures
        after_codec(lit, c).consistent(lit.len() + len),
{
    let d = after_codec(lit, c);
    lemma_after_agrees(lit, c);
    assert forall|x: T| #[trigger] d.accepts(x) implies d.write(x).len() == lit.len() + len by {
        assert(c.accepts(x));
    }
}

pub proof fn lemma_after_agrees<T>(lit: Seq<u8>, c: Codec<T>)
    requires
        c.agrees(),
    ensures
        after_codec(lit, c).agrees(),
{
    let d = after_codec(lit, c);
    assert forall|b: Seq<u8>, at: int, x: T, n: int| #[trigger]
        agree_on(d.parse, d.enc, d.ok, b, at, x, n) by {
        if 0 <= at <= b.len() {
            lemma_starts_concat(b, at, lit, c.write(x));
            assert(agree_on(c.parse, c.enc, c.ok, b, at + lit.len(), x, n));
        }
    }
}

pub proof fn lemma_pair_codec<A, B>(c: Codec<A>, d: Codec<B>, lc: int, ld: int)
    requires
        c.consistent(lc),
        d.consistent(ld),
    ensures
        pair_codec(c, d).consistent(lc + ld),
{
    let p = pair_codec(c, d);
    lemma_pair_agrees(c, d);
    assert forall|x: (A, B)| #[trigger] p.accepts(x) implies p.write(x).len() == lc + ld by {
        assert(c.accepts(x.0));
        assert(d.accepts(x.1));
    }
}

pub proof fn lemma_pair_agrees<A, B>(c: Codec<A>, d: Codec<B>)
    requires
        c.agrees(),
        d.agrees(),
    ensures
        pair_codec(c, d).agrees(),
{
    let p = pair_codec(c, d);
    assert forall|b: Seq<u8>, at: int, x: (A, B), n: int| #[trigger]
        agree_on(p.parse, p.enc, p.ok, b, at, x, n) by {
        if 0 <= at <= b.len() {
            lemma_starts_concat(b, at, c.write(x.0), d.write(x.1));
            let m = at + c.write(x.0).len();
            assert(agree_on(c.parse, c.enc, c.ok, b, at, x.0, m));
            assert(agree_on(d.parse, d.enc, d.ok, b, m, x.1, n));
            match c.read(b, at) {
                Parsed::Done(y, e) => {
                    assert(agree_on(c.parse, c.enc, c.ok, b, at, y, e));
                },
                _ => {},
            }
            match p.read(b, at) {
                Parsed::Done(z, e) => {
                    if z == x && e == n {
                        assert(c.read(b, at) is Done);
                    }
                },
                _ => {},
            }
        }
    }
}

pub proof fn lemma_many_codec<T>(c: Codec<T>, count: nat, len: int)
    requires
        c.consistent(len),
    ensures
        many_codec(c, count).consistent(count * len),
{
    let m = many_codec(c, count);
    lemma_many_agrees(c, count);
    assert forall|x: Seq<T>| #[trigger] m.accepts(x) implies m.write(x).len() == count * len by {
        lemma_all_lengths(c, x, len);
    }
}

proof fn lemma_all_lengths<T>(c: Codec<T>, x: Seq<T>, len: int)
    requires
        c.consistent(len),
        forall|i: int| 0 <= i < x.len() ==> c.accepts(#[trigger] x[i]),
    ensures
        encode_many(c.enc, x).len() == x.len() * len,
{
    assert forall|i: int| 0 <= i < x.len() implies (#[trigger] (c.enc)(x[i])).len() == len by {
        assert(c.accepts(x[i]));
        assert(c.write(x[i]).len() == len);
    }
    lemma_many_len(c.enc, x, len);
}

pub proof fn lemma_many_agrees<T>(c: Codec<T>, count: nat)
    requires
        c.agrees(),
    ensures
        many_codec(c, count).agrees(),
{
    let m = many_codec(c, count);
    assert forall|b: Seq<u8>, at: int, x: Seq<T>, n: int| #[trigger]
        agree_on(m.parse, m.enc, m.ok, b, at, x, n) by {
        if 0 <= at <= b.len() {
            lemma_many(c.parse, c.enc, c.ok, b, at, x, n, count);
            assert((m.ok)(x) <==> x.len() == count && forall|i: int|
                0 <= i < x.len() ==> #[trigger] (c.ok)(x[i])) by {
                if (m.ok)(x) {
                    assert forall|i: int| 0 <= i < x.len() implies #[trigger] (c.ok)(x[i]) by {
                        assert(c.accepts(x[i]));
                    }
                }
                if x.len() == count && forall|i: int|
                    0 <= i < x.len() ==> #[trigger] (c.ok)(x[i]) {
                    assert forall|i: int| 0 <= i < x.len() implies c.accepts(#[trigger] x[i]) by {
                        assert((c.ok)(x[i]));
                    }
                }
            }
        }
    }
}

proof fn lemma_listed_agrees<T>(c: Codec<T>, b: Seq<u8>, at: int, x: Seq<T>, n: int)
    requires
        c.agrees(),
        0 <= at <= b.len(),
    ensures
        agree_on(listed_codec(c).parse, listed_codec(c).enc, listed_codec(c).ok, b, at, x, n),
{
    let d = listed_codec(c);
    let head = le_bytes(x.len() as int, 8);
    let body = encode_many(c.enc, x);
    lemma_le_bytes_len(x.len() as int, 8);
    lemma_starts_concat(b, at, head, body);
    if at + 8 <= b.len() {
        let s = b.subrange(at, at + 8);
        let count = le_value(s) as nat;
        let m = many_codec(c, count);
        lemma_le_value_bound(s);
        lemma_pow_256_8();
        law_le_bytes_of_value(s);
        lemma_many_agrees(c, count);
        assert(agree_on(m.parse, m.enc, m.ok, b, at + 8, x, n));
        assert(d.read(b, at) == m.read(b, at + 8));
        if x.len() <= u64::MAX {
            lemma_u64_fits(x.len() as u64);
        }
        if (d.ok)(x) && starts_at(b, at, head) {
            assert(s == head);
            assert(x.len() == count);
            assert((m.ok)(x));
        }
        if (m.ok)(x) {
            assert(x.len() == count);
            assert(head == s);
            assert((d.ok)(x));
        }
    }
}

/// Values behind their count are read where they stand, and what they take depends on
/// their number.
pub proof fn lemma_listed_codec<T>(c: Codec<T>, len: int)
    requires
        c.consistent(len),
    ensures
        listed_codec(c).agrees(),
        forall|x: Seq<T>| #[trigger] listed_codec(c).accepts(x) ==> listed_codec(c).write(x).len()
            == 8 + x.len() * len,
{
    let d = listed_codec(c);
    assert forall|b: Seq<u8>, at: int, x: Seq<T>, n: int| #[trigger]
        agree_on(d.parse, d.enc, d.ok, b, at, x, n) by {
        if 0 <= at <= b.len() {
            lemma_listed_agrees(c, b, at, x, n);
        }
    }
    assert forall|x: Seq<T>| #[trigger] d.accepts(x) implies d.write(x).len() == 8 + x.len() * len by {
        lemma_le_bytes_len(x.len() as int, 8);
        lemma_all_lengths(c, x, len);
    }
}

// ---------------------------------------------------------------------------
// Values that are cut off
// ---------------------------------------------------------------------------

/// The bytes from `at` on are the front of `s`, and end before it does.
pub open spec fn cut_at(b: Seq<u8>, at: int, s: Seq<u8>) -> bool {
    &&& 0 <= at <= b.len()
    &&& b.len() - at < s.len()
    &&& b.subrange(at, b.len() as int) == s.subrange(0, b.len() - at)
}

/// Reading a value whose bytes are cut off at the end of the input says so.
pub open spec fn notices<T>(c: Codec<T>, b: Seq<u8>, at: int, x: T) -> bool {
    c.accepts(x) && cut_at(b, at, c.write(x)) ==> c.read(b, at) is Short
}

impl<T> Codec<T> {
    /// Wherever a value is cut off, reading it says so.
    pub open spec fn notices_cuts(self) -> bool {
        forall|b: Seq<u8>, at: int, x: T| #[trigger] notices(self, b, at, x)
    }
}

/// Where a concatenation is cut off, either its first part is, or the second behind it.
proof fn lemma_cut_concat(b: Seq<u8>, at: int, s: Seq<u8>, t: Seq<u8>)
    requires
        cut_at(b, at, s + t),
    ensures
        cut_at(b, at, s) || starts_at(b, at, s) && cut_at(b, at + s.len(), t),
{
    let st = s + t;
    let tail = b.subrange(at, b.len() as int);
    let front = st.subrange(0, b.len() - at);
    assert forall|i: int| 0 <= i < b.len() - at implies b[at + i] == st[i] by {
        assert(tail[i] == front[i]);
    }
    if b.len() - at < s.len() {
        assert(tail =~= s.subrange(0, b.len() - at));
    } else {
        assert(b.subrange(at, at + s.len()) =~= s);
        let m = at + s.len();
        assert(b.subrange(m, b.len() as int) =~= t.subrange(0, b.len() - m)) by {
            assert forall|i: int| 0 <= i < b.len() - m implies b[m + i] == t[i] by {
                assert(b[at + (s.len() + i)] == st[s.len() + i]);
            }
        }
    }
}

pub proof fn lemma_bytes_cut(len: int)
    ensures
        bytes_codec(len).notices_cuts(),
{
    assert forall|b: Seq<u8>, at: int, x: Seq<u8>| #[trigger]
        notices(bytes_codec(len), b, at, x) by {}
}

pub proof fn lemma_word_cut()
    ensures
        word_codec().notices_cuts(),
{
    let c = word_codec();
    assert forall|b: Seq<u8>, at: int, x: i64| #[trigger] notices(c, b, at, x) by {
        lemma_parse_word(Seq::<u8>::empty(), 0, x, 0);
    }
}

pub proof fn lemma_after_cut<T>(lit: Seq<u8>, c: Codec<T>)
    requires
        c.notices_cuts(),
    ensures
        after_codec(lit, c).notices_cuts(),
{
    let d = after_codec(lit, c);
    assert forall|b: Seq<u8>, at: int, x: T| #[trigger] notices(d, b, at, x) by {
        if d.accepts(x) && cut_at(b, at, d.write(x)) {
            lemma_cut_concat(b, at, lit, c.write(x));
            assert(notices(c, b, at + lit.len(), x));
        }
    }
}

pub proof fn lemma_pair_cut<A, B>(c: Codec<A>, d: Codec<B>)
    requires
        c.agrees(),
        c.notices_cuts(),
        d.notices_cuts(),
    ensures
        pair_codec(c, d).notices_cuts(),
{
    let p = pair_codec(c, d);
    assert forall|b: Seq<u8>, at: int, x: (A, B)| #[trigger] notices(p, b, at, x) by {
        if p.accepts(x) && cut_at(b, at, p.write(x)) {
            let m = at + c.write(x.0).len();
            lemma_cut_concat(b, at, c.write(x.0), d.write(x.1));
            assert(notices(c, b, at, x.0));
            assert(notices(d, b, m, x.1));
            assert(agree_on(c.parse, c.enc, c.ok, b, at, x.0, m));
        }
    }
}

pub proof fn lemma_many_cut<T>(c: Codec<T>, count: nat)
    requires
        c.agrees(),
        c.notices_cuts(),
    ensures
        many_codec(c, count).notices_cuts(),
    decreases count,
{
    let d = many_codec(c, count);
    assert forall|b: Seq<u8>, at: int, x: Seq<T>| #[trigger] notices(d, b, at, x) by {
        if d.accepts(x) && cut_at(b, at, d.write(x)) && count > 0 {
            let less = (count - 1) as nat;
            let e = many_codec(c, less);
            let t = x.drop_last();
            let m = at + encode_many(c.enc, t).len();
            assert forall|i: int| 0 <= i < t.len() implies c.accepts(#[trigger] t[i]) by {
                assert(c.accepts(x[i]));
            }
            assert(c.accepts(x[x.len() - 1]));
            assert(e.accepts(t));
            lemma_cut_concat(b, at, encode_many(c.enc, t), (c.enc)(x.last()));
            lemma_many_cut(c, less);
            assert(notices(e, b, at, t));
            assert(notices(c, b, m, x.last()));
            lemma_many_agrees(c, less);
            assert(agree_on(e.parse, e.enc, e.ok, b, at, t, m));
        }
    }
}

pub proof fn lemma_listed_cut<T>(c: Codec<T>)
    requires
        c.agrees(),
        c.notices_cuts(),
    ensures
        listed_codec(c).notices_cuts(),
{
    let d = listed_codec(c);
    assert forall|b: Seq<u8>, at: int, x: Seq<T>| #[trigger] notices(d, b, at, x) by {
        if d.accepts(x) && cut_at(b, at, d.write(x)) {
            let head = le_bytes(x.len() as int, 8);
            let m = many_codec(c, x.len());
            lemma_le_bytes_len(x.len() as int, 8);
            lemma_u64_fits(x.len() as u64);
            lemma_cut_concat(b, at, head, encode_many(c.enc, x));
            lemma_many_cut(c, x.len());
            assert(m.accepts(x));
            assert(notices(m, b, at + 8, x));
        }
    }
}

} // verus!
