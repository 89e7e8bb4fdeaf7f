//! Building blocks of the wire format.
//!
//! A message is a sequence of fields: literal bytes that the parameters fix, and blocks of
//! free bytes whose length the parameters fix. Reading walks the fields from left to
//! right. It stops where the input ends, or at the first literal that differs.

use vstd::prelude::*;
use crate::bytes::{
    law_le_bytes_of_value, le_bytes, le_value, lemma_le_value_bound, lemma_u64_fits, u64_at,
    write_u64,
};

verus! {

/// Why bytes were not accepted.
#[derive(Clone, Copy, Debug, PartialEq, Eq, Structural)]
pub enum WireErrorKind {
    /// The bytes do not form a message of the expected shape.
    InvalidData,
    /// The bytes end within the message.
    UnexpectedEof,
}

/// A reading error.
#[derive(Clone, Copy, Debug, PartialEq, Eq, Structural)]
pub struct WireError {
    pub kind: WireErrorKind,
}

impl WireError {
    pub fn kind(&self) -> (r: WireErrorKind)
        ensures
            r == self.kind,
    {
        self.kind
    }

    pub fn invalid_data() -> (r: Self)
        ensures
            r.kind is InvalidData,
    {
        WireError { kind: WireErrorKind::InvalidData }
    }

    pub fn unexpected_eof() -> (r: Self)
        ensures
            r.kind is UnexpectedEof,
    {
        WireError { kind: WireErrorKind::UnexpectedEof }
    }
}

/// Outcome of reading a value from bytes: the value and where it ends, or why there is
/// none.
#[verifier::ext_equal]
pub enum Parsed<T> {
    Done(T, int),
    Short,
    Bad,
}

/// The bytes at `at` begin with `s`.
pub open spec fn starts_at(b: Seq<u8>, at: int, s: Seq<u8>) -> bool {
    0 <= at && at + s.len() <= b.len() && b.subrange(at, at + s.len()) == s
}

/// A concatenation begins where its first part begins and goes on where that ends.
pub proof fn lemma_starts_concat(b: Seq<u8>, at: int, s: Seq<u8>, t: Seq<u8>)
    ensures
        starts_at(b, at, s + t) <==> starts_at(b, at, s) && starts_at(b, at + s.len(), t),
{
    let st = s + t;
    if starts_at(b, at, st) {
        assert(b.subrange(at, at + s.len()) =~= s) by {
            assert forall|i: int| 0 <= i < s.len() implies b[at + i] == s[i] by {
                assert(b.subrange(at, at + st.len())[i] == st[i]);
            }
        }
        assert(b.subrange(at + s.len(), at + s.len() + t.len()) =~= t) by {
            assert forall|i: int| 0 <= i < t.len() implies b[at + s.len() + i] == t[i] by {
                assert(b.subrange(at, at + st.len())[s.len() + i] == st[s.len() + i]);
            }
        }
    }
    if starts_at(b, at, s) && starts_at(b, at + s.len(), t) {
        assert(b.subrange(at, at + st.len()) =~= st) by {
            assert forall|i: int| 0 <= i < st.len() implies b[at + i] == st[i] by {
                if i < s.len() {
                    assert(b.subrange(at, at + s.len())[i] == s[i]);
                } else {
                    assert(b.subrange(at + s.len(), at + s.len() + t.len())[i - s.len()] == t[i
                        - s.len()]);
                }
            }
        }
    }
}

/// Reads the literal bytes `lit`.
pub open spec fn expect(b: Seq<u8>, at: int, lit: Seq<u8>) -> Parsed<()> {
    if at + lit.len() > b.len() {
        Parsed::Short
    } else if b.subrange(at, at + lit.len()) == lit {
        Parsed::Done((), at + lit.len())
    } else {
        Parsed::Bad
    }
}

/// Reads `len` free bytes.
pub open spec fn take(b: Seq<u8>, at: int, len: int) -> Parsed<Seq<u8>> {
    if at + len > b.len() {
        Parsed::Short
    } else {
        Parsed::Done(b.subrange(at, at + len), at + len)
    }
}

/// Reads `count` values, one after the other.
pub open spec fn parse_many<T>(
    b: Seq<u8>,
    at: int,
    item: spec_fn(Seq<u8>, int) -> Parsed<T>,
    count: nat,
) -> Parsed<Seq<T>>
    decreases count,
{
    if count == 0 {
        Parsed::Done(Seq::empty(), at)
    } else {
        match parse_many(b, at, item, (count - 1) as nat) {
            Parsed::Done(s, n) => match item(b, n) {
                Parsed::Done(x, m) => Parsed::Done(s.push(x), m),
                Parsed::Short => Parsed::Short,
                Parsed::Bad => Parsed::Bad,
            },
            Parsed::Short => Parsed::Short,
            Parsed::Bad => Parsed::Bad,
        }
    }
}

/// A value that cannot be read ends the reading of all that follow.
pub proof fn lemma_many_stops<T>(
    b: Seq<u8>,
    at: int,
    item: spec_fn(Seq<u8>, int) -> Parsed<T>,
    i: nat,
    count: nat,
)
    requires
        i <= count,
    ensures
        parse_many(b, at, item, i) is Short ==> parse_many(b, at, item, count) is Short,
        parse_many(b, at, item, i) is Bad ==> parse_many(b, at, item, count) is Bad,
    decreases count - i,
{
    if i < count {
        lemma_many_stops(b, at, item, i, (count - 1) as nat);
    }
}

/// The encodings of values, one after the other.
pub open spec fn encode_many<T>(enc: spec_fn(T) -> Seq<u8>, s: Seq<T>) -> Seq<u8>
    decreases s.len(),
{
    if s.len() == 0 {
        Seq::empty()
    } else {
        encode_many(enc, s.drop_last()) + enc(s.last())
    }
}

/// Reading and writing agree on a value: it is read exactly where its encoding stands.
pub open spec fn agree_on<T>(
    item: spec_fn(Seq<u8>, int) -> Parsed<T>,
    enc: spec_fn(T) -> Seq<u8>,
    ok: spec_fn(T) -> bool,
    b: Seq<u8>,
    at: int,
    x: T,
    n: int,
) -> bool {
    0 <= at <= b.len() ==> (item(b, at) == Parsed::Done(x, n) <==> ok(x) && starts_at(
        b,
        at,
        enc(x),
    ) && n == at + enc(x).len())
}

/// Reading and writing agree on lists of values on which they agree one by one.
pub proof fn lemma_many<T>(
    item: spec_fn(Seq<u8>, int) -> Parsed<T>,
    enc: spec_fn(T) -> Seq<u8>,
    ok: spec_fn(T) -> bool,
    b: Seq<u8>,
    at: int,
    s: Seq<T>,
    n: int,
    count: nat,
)
    requires
        0 <= at <= b.len(),
        forall|b: Seq<u8>, at: int, x: T, n: int| #[trigger] agree_on(item, enc, ok, b, at, x, n),
    ensures
        parse_many(b, at, item, count) == Parsed::Done(s, n) <==> {
            &&& s.len() == count
            &&& forall|i: int| 0 <= i < s.len() ==> #[trigger] ok(s[i])
            &&& starts_at(b, at, encode_many(enc, s))
            &&& n == at + encode_many(enc, s).len()
        },
    decreases count,
{
    if count == 0 {
        if s.len() == 0 {
            assert(s =~= Seq::<T>::empty());
            assert(b.subrange(at, at) =~= Seq::<u8>::empty());
        }
    } else {
        let c = (count - 1) as nat;
        if parse_many(b, at, item, count) == Parsed::Done(s, n) {
            match parse_many(b, at, item, c) {
                Parsed::Done(t, m) => {
                    lemma_many(item, enc, ok, b, at, t, m, c);
                    match item(b, m) {
                        Parsed::Done(x, e) => {
                            assert(s == t.push(x) && e == n);
                            assert(agree_on(item, enc, ok, b, m, x, n));
                            assert(s.drop_last() =~= t);
                            lemma_starts_concat(b, at, encode_many(enc, t), enc(x));
                            assert forall|i: int| 0 <= i < s.len() implies #[trigger] ok(s[i]) by {
                                if i < t.len() {
                                    assert(ok(t[i]));
                                }
                            }
                        },
                        _ => {},
                    }
                },
                _ => {},
            }
        }
        if s.len() == count && (forall|i: int| 0 <= i < s.len() ==> #[trigger] ok(s[i]))
            && starts_at(b, at, encode_many(enc, s)) && n == at + encode_many(enc, s).len() {
            let t = s.drop_last();
            let x = s.last();
            let m = at + encode_many(enc, t).len();
            lemma_starts_concat(b, at, encode_many(enc, t), enc(x));
            assert forall|i: int| 0 <= i < t.len() implies #[trigger] ok(t[i]) by {
                assert(ok(s[i]));
            }
            lemma_many(item, enc, ok, b, at, t, m, c);
            assert(ok(s[s.len() - 1]));
            assert(agree_on(item, enc, ok, b, m, x, n));
            assert(t.push(x) =~= s);
        }
    }
}

/// Fixed-size values fill a fixed number of bytes.
pub proof fn lemma_many_len<T>(enc: spec_fn(T) -> Seq<u8>, s: Seq<T>, len: int)
    requires
        forall|i: int| 0 <= i < s.len() ==> (#[trigger] enc(s[i])).len() == len,
    ensures
        encode_many(enc, s).len() == s.len() * len,
    decreases s.len(),
{
    if s.len() == 0 {
        assert(0 * len == 0) by (nonlinear_arith);
    } else {
        let t = s.drop_last();
        assert forall|i: int| 0 <= i < t.len() implies (#[trigger] enc(t[i])).len() == len by {
            assert(enc(s[i]).len() == len);
        }
        lemma_many_len(enc, t, len);
        assert(enc(s[s.len() - 1]).len() == len);
        assert((t.len() + 1) * len == t.len() * len + len) by (nonlinear_arith);
    }
}

// ---------------------------------------------------------------------------
// Words
// ---------------------------------------------------------------------------

/// Two's complement form of a signed word.
pub open spec fn word_of(x: i64) -> int {
    if x < 0 {
        x + 0x1_0000_0000_0000_0000
    } else {
        x as int
    }
}

/// The signed word with the given two's complement form.
pub open spec fn signed_of(w: int) -> i64 {
    if w >= 0x8000_0000_0000_0000 {
        (w - 0x1_0000_0000_0000_0000) as i64
    } else {
        w as i64
    }
}

/// Eight bytes of a signed word.
pub open spec fn word_bytes(x: i64) -> Seq<u8> {
    le_bytes(word_of(x), 8)
}

/// The eight bytes of a signed word determine it.
pub proof fn lemma_word(x: i64, s: Seq<u8>)
    requires
        s.len() == 8,
    ensures
        word_bytes(x).len() == 8,
        s == word_bytes(x) <==> signed_of(le_value(s)) == x,
{
    lemma_u64_fits(word_of(x) as u64);
    law_le_bytes_of_value(s);
    vstd::arithmetic::power::lemma_pow1(256);
    lemma_le_value_bound(s);
    lemma_u64_fits(0);
    assert(le_value(s) < 0x1_0000_0000_0000_0000) by {
        crate::bytes::lemma_pow_256_8();
    }
}

/// Appends a signed word.
pub fn write_i64(out: &mut Vec<u8>, x: i64)
    ensures
        final(out)@ == old(out)@ + word_bytes(x),
{
    let w: u64 = if x < 0 {
        (x as i128 + 0x1_0000_0000_0000_0000i128) as u64
    } else {
        x as u64
    };
    write_u64(out, w);
}

/// Reads a signed word.
pub fn read_i64(bytes: &[u8], at: usize) -> (r: i64)
    requires
        at + 8 <= bytes@.len(),
    ensures
        r == signed_of(le_value(bytes@.subrange(at as int, at + 8))),
{
    let w: u64 = u64_at(bytes, at);
    if w >= 0x8000_0000_0000_0000 {
        (w as i128 - 0x1_0000_0000_0000_0000i128) as i64
    } else {
        w as i64
    }
}

/// Reads an unsigned word at `at`, and says where it ends.
pub fn read_u64(bytes: &[u8], at: usize) -> (r: Result<(u64, usize), WireError>)
    ensures
        match r {
            Ok((x, end)) => {
                &&& at + 8 <= bytes@.len()
                &&& x == le_value(bytes@.subrange(at as int, at + 8))
                &&& end == at + 8
            },
            Err(e) => at + 8 > bytes@.len() && e.kind is UnexpectedEof,
        },
{
    let total: usize = bytes.len();
    if at > total || total - at < 8 {
        return Err(WireError::unexpected_eof());
    }
    Ok((u64_at(bytes, at), at + 8))
}

/// A written word reads back, wherever it stands and whatever follows it.
pub proof fn law_u64_reads_back(before: Seq<u8>, x: u64, rest: Seq<u8>)
    ensures
        ({
            let b = before + le_bytes(x as int, 8) + rest;
            let at = before.len() as int;
            at + 8 <= b.len() && le_value(b.subrange(at, at + 8)) == x
        }),
{
    lemma_u64_fits(x);
    let b = before + le_bytes(x as int, 8) + rest;
    let at = before.len() as int;
    assert(b.subrange(at, at + 8) =~= le_bytes(x as int, 8));
}

/// The count that the word at `at` declares, or zero where there is no word.
pub open spec fn declared(b: Seq<u8>, at: int) -> nat {
    if 0 <= at && at + 8 <= b.len() {
        le_value(b.subrange(at, at + 8)) as nat
    } else {
        0
    }
}

/// The count that the word at `at` declares, or zero where there is no word.
pub fn declared_count(bytes: &[u8], at: usize) -> (r: u64)
    ensures
        r == declared(bytes@, at as int),
{
    match read_u64(bytes, at) {
        Ok((x, _)) => x,
        Err(_) => 0,
    }
}

/// Reads one signed word.
pub open spec fn parse_word(b: Seq<u8>, at: int) -> Parsed<i64> {
    match take(b, at, 8) {
        Parsed::Done(s, n) => Parsed::Done(signed_of(le_value(s)), n),
        Parsed::Short => Parsed::Short,
        Parsed::Bad => Parsed::Bad,
    }
}

/// A word is read exactly where its bytes stand.
pub proof fn lemma_parse_word(b: Seq<u8>, at: int, x: i64, n: int)
    requires
        0 <= at,
    ensures
        parse_word(b, at) == Parsed::Done(x, n) <==> starts_at(b, at, word_bytes(x)) && n == at + 8,
        word_bytes(x).len() == 8,
{
    if at + 8 <= b.len() {
        lemma_word(x, b.subrange(at, at + 8));
    } else {
        lemma_word(x, seq![0u8, 0u8, 0u8, 0u8, 0u8, 0u8, 0u8, 0u8]);
    }
}

/// A reader fails the way the format says.
pub open spec fn fails_as<T>(e: WireError, p: Parsed<T>) -> bool {
    match p {
        Parsed::Done(..) => false,
        Parsed::Short => e.kind is UnexpectedEof,
        Parsed::Bad => e.kind is InvalidData,
    }
}

/// Checks that the bytes at `at` are `lit`, and says where they end.
pub fn expect_bytes(bytes: &[u8], at: usize, lit: &Vec<u8>) -> (r: Result<usize, WireError>)
    requires
        at <= bytes@.len(),
    ensures
        match r {
            Ok(n) => expect(bytes@, at as int, lit@) == Parsed::Done((), n as int) && n
                <= bytes@.len(),
            Err(e) => fails_as(e, expect(bytes@, at as int, lit@)),
        },
{
    let total: usize = bytes.len();
    let len: usize = lit.len();
    if len > total - at {
        return Err(WireError::unexpected_eof());
    }
    let mut i: usize = 0;
    while i < len
        invariant
            i <= len,
            len == lit@.len(),
            total == bytes@.len(),
            at + len <= total,
            forall|j: int| 0 <= j < i ==> bytes@[at + j] == #[trigger] lit@[j],
        decreases len - i,
    {
        if bytes[at + i] != lit[i] {
            proof {
                assert(bytes@.subrange(at as int, at + len)[i as int] != lit@[i as int]);
            }
            return Err(WireError::invalid_data());
        }
        i = i + 1;
    }
    proof {
        assert(bytes@.subrange(at as int, at + len) =~= lit@);
    }
    Ok(at + len)
}

} // verus!
