//! Wire format of queries and responses.
//!
//! A message starts with a tag byte. Lists carry a length word, and every limb vector a
//! header of five words. The parameters fix how many ciphertexts a message holds, so one of
//! a wrong length is rejected at its first length word, before anything is stored. The seeds
//! of a key or selector are as many as their own count says.

use vstd::prelude::*;
use crate::bytes::{le_bytes, write_u32, write_u64};
use crate::codec::{
    after_codec, bytes_codec, cut_at, lemma_after_agrees, lemma_after_codec, lemma_after_cut,
    lemma_bytes_codec, lemma_bytes_cut, lemma_listed_codec, lemma_listed_cut, lemma_many_codec,
    lemma_many_cut, lemma_pair_agrees, lemma_pair_codec, lemma_pair_cut, lemma_word_codec,
    lemma_word_cut, listed_codec, many_codec, notices, pair_codec, word_codec, Codec,
};
use crate::arith::div_ceil;
use crate::config::{Collapse, Config};
use crate::database::DatabaseLayout;
use crate::limbs::LimbVec;
use crate::messages::{
    blocks_have_shape, blocks_view, bodies_have_shape, bodies_view, has_limb_shape, seeds_view,
    AutoKey, AutoKeyView, CompressedKey, GgswCompressed, GgswView, GlweCompressed, GlweView,
    InterpolationQuery, InterpolationResponse, InterpolationView, KeyView, Query, RecursionQuery,
    RecursionResponse, RecursionResponseView, RecursionView, Response,
};
use crate::parameters::{spec_glwe_bytes, spec_transmitted_limbs, Parameters, TRANSMIT_BASE2K};
use crate::payload::Payload;
use crate::wire::{
    declared, declared_count, encode_many, expect, expect_bytes, fails_as, law_u64_reads_back,
    lemma_many_stops, parse_many, read_i64, read_u64, take, write_i64, Parsed, WireError, WireErrorKind,
};

verus! {

/// Tag of interpolation messages.
pub const TAG_INTERPOLATION: u8 = 0;

/// Tag of recursion messages.
pub const TAG_RECURSION: u8 = 1;

// ---------------------------------------------------------------------------
// Formats
// ---------------------------------------------------------------------------

/// Header of a limb vector: degree, columns, limbs, limb capacity, byte length.
pub open spec fn limb_header(n: int, cols: int, size: int) -> Seq<u8> {
    le_bytes(n, 8) + le_bytes(cols, 8) + le_bytes(size, 8) + le_bytes(size, 8) + le_bytes(
        n * cols * size * 8,
        8,
    )
}

/// Header of a ciphertext without seed: limb width, then the limb vector's header.
pub open spec fn body_header(n: int, cols: int, size: int) -> Seq<u8> {
    le_bytes(63, 4) + limb_header(n, cols, size)
}

/// Coefficients, limb by limb.
pub open spec fn coeffs_codec(n: int, cols: int, size: int) -> Codec<Seq<i64>> {
    many_codec(word_codec(), (n * cols * size) as nat)
}

/// A ciphertext without seed.
pub open spec fn body_codec(n: int, cols: int, size: int) -> Codec<Seq<i64>> {
    after_codec(body_header(n, cols, size), coeffs_codec(n, cols, size))
}

/// A ciphertext with seed: limb width, rank, seed, limb vector.
pub open spec fn glwe_compressed_codec(n: int, size: int) -> Codec<GlweView> {
    after_codec(
        le_bytes(63, 4) + le_bytes(1, 4),
        pair_codec(
            bytes_codec(32),
            after_codec(limb_header(n, 1, size), coeffs_codec(n, 1, size)),
        ),
    )
}

/// A gadget ciphertext: its seeds behind their count, then `count` bodies.
pub open spec fn rows_codec(n: int, size: int, count: nat) -> Codec<GgswView> {
    pair_codec(listed_codec(bytes_codec(32)), many_codec(body_codec(n, 1, size), count))
}

/// Bytes of a gadget ciphertext with `seeds` seeds and `count` bodies.
pub open spec fn rows_bytes(n: int, size: int, seeds: nat, count: nat) -> int {
    8 + seeds * 32 + count * (44 + n * 1 * size * 8)
}

/// Bytes of a list of `count` ciphertexts with seeds.
pub open spec fn blocks_bytes(n: int, size: int, count: nat) -> int {
    8 + count * (80 + n * 1 * size * 8)
}

/// An automorphism key.
pub open spec fn auto_key_codec(n: int, size: int) -> Codec<AutoKeyView> {
    pair_codec(word_codec(), rows_codec(n, size, 3))
}

/// A packing key.
pub open spec fn key_codec(n: int, size: int) -> Codec<KeyView> {
    pair_codec(word_codec(), auto_key_codec(n, size))
}

/// A list of ciphertexts with seeds, behind its length.
pub open spec fn blocks_codec(n: int, size: int, count: nat) -> Codec<Seq<GlweView>> {
    after_codec(
        le_bytes(count as int, 8),
        many_codec(glwe_compressed_codec(n, size), count),
    )
}

/// A list of ciphertexts without seeds, behind its length.
pub open spec fn glwes_codec(n: int, size: int, count: nat) -> Codec<Seq<Seq<i64>>> {
    after_codec(le_bytes(count as int, 8), many_codec(body_codec(n, 2, size), count))
}

/// An interpolation query.
pub open spec fn interpolation_codec(n: int, size: int, blocks: nat) -> Codec<InterpolationView> {
    after_codec(
        seq![TAG_INTERPOLATION],
        pair_codec(
            blocks_codec(n, size, blocks),
            pair_codec(
                auto_key_codec(n, size),
                pair_codec(auto_key_codec(n, size), rows_codec(n, size, 6)),
            ),
        ),
    )
}

/// A recursion query.
pub open spec fn recursion_codec(n: int, size: int, blocks0: nat, blocks1: nat) -> Codec<
    RecursionView,
> {
    after_codec(
        seq![TAG_RECURSION],
        pair_codec(
            blocks_codec(n, size, blocks0),
            pair_codec(
                blocks_codec(n, size, blocks1),
                pair_codec(key_codec(n, size), pair_codec(key_codec(n, size), key_codec(n, size))),
            ),
        ),
    )
}

/// An interpolation response.
pub open spec fn selected_codec(n: int, size: int) -> Codec<Seq<i64>> {
    after_codec(seq![TAG_INTERPOLATION], body_codec(n, 2, size))
}

/// A recursion response.
pub open spec fn recursion_response_codec(n: int, size: int, len1: nat, len2: nat) -> Codec<
    RecursionResponseView,
> {
    after_codec(
        seq![TAG_RECURSION],
        pair_codec(glwes_codec(n, size, len1), glwes_codec(n, size, len2)),
    )
}

// ---------------------------------------------------------------------------
// Reading and writing agree
// ---------------------------------------------------------------------------

proof fn lemma_limb_header_len(n: int, cols: int, size: int)
    ensures
        limb_header(n, cols, size).len() == 40,
        body_header(n, cols, size).len() == 44,
        le_bytes(63, 4).len() == 4,
        le_bytes(1, 4).len() == 4,
        (le_bytes(63, 4) + le_bytes(1, 4)).len() == 8,
{
    crate::bytes::lemma_le_bytes_len(n, 8);
    crate::bytes::lemma_le_bytes_len(cols, 8);
    crate::bytes::lemma_le_bytes_len(size, 8);
    crate::bytes::lemma_le_bytes_len(n * cols * size * 8, 8);
    crate::bytes::lemma_le_bytes_len(63, 4);
    crate::bytes::lemma_le_bytes_len(1, 4);
}

proof fn lemma_body_codec(n: int, cols: int, size: int)
    requires
        n * cols * size >= 0,
    ensures
        body_codec(n, cols, size).consistent(44 + n * cols * size * 8),
        coeffs_codec(n, cols, size).consistent(n * cols * size * 8),
{
    lemma_limb_header_len(n, cols, size);
    lemma_word_codec();
    lemma_many_codec(word_codec(), (n * cols * size) as nat, 8);
    lemma_after_codec(
        body_header(n, cols, size),
        coeffs_codec(n, cols, size),
        n * cols * size * 8,
    );
}

proof fn lemma_glwe_compressed_codec(n: int, size: int)
    requires
        n * 1 * size >= 0,
    ensures
        glwe_compressed_codec(n, size).consistent(80 + n * 1 * size * 8),
{
    lemma_limb_header_len(n, 1, size);
    lemma_body_codec(n, 1, size);
    let coeffs = coeffs_codec(n, 1, size);
    let l = n * 1 * size * 8;
    lemma_after_codec(limb_header(n, 1, size), coeffs, l);
    lemma_bytes_codec(32);
    let tail = after_codec(limb_header(n, 1, size), coeffs);
    lemma_pair_codec(bytes_codec(32), tail, 32, 40 + l);
    lemma_after_codec(
        le_bytes(63, 4) + le_bytes(1, 4),
        pair_codec(bytes_codec(32), tail),
        72 + l,
    );
}

proof fn lemma_rows_codec(n: int, size: int, count: nat)
    requires
        n * 1 * size >= 0,
    ensures
        rows_codec(n, size, count).agrees(),
        forall|x: GgswView| #[trigger]
            rows_codec(n, size, count).accepts(x) ==> rows_codec(n, size, count).write(x).len()
                == rows_bytes(n, size, x.0.len(), count),
{
    let l = 44 + n * 1 * size * 8;
    let c = rows_codec(n, size, count);
    let seeds = listed_codec(bytes_codec(32));
    let bodies = many_codec(body_codec(n, 1, size), count);
    lemma_bytes_codec(32);
    lemma_listed_codec(bytes_codec(32), 32);
    lemma_body_codec(n, 1, size);
    lemma_many_codec(body_codec(n, 1, size), count, l);
    lemma_pair_agrees(seeds, bodies);
    assert forall|x: GgswView| #[trigger] c.accepts(x) implies c.write(x).len() == rows_bytes(
        n,
        size,
        x.0.len(),
        count,
    ) by {
        assert(seeds.accepts(x.0));
        assert(bodies.accepts(x.1));
    }
}

proof fn lemma_auto_key_codec(n: int, size: int)
    requires
        n * 1 * size >= 0,
    ensures
        auto_key_codec(n, size).agrees(),
        forall|x: AutoKeyView| #[trigger]
            auto_key_codec(n, size).accepts(x) ==> auto_key_codec(n, size).write(x).len() == 8
                + rows_bytes(n, size, x.1.0.len(), 3),
{
    let c = auto_key_codec(n, size);
    lemma_word_codec();
    lemma_rows_codec(n, size, 3);
    lemma_pair_agrees(word_codec(), rows_codec(n, size, 3));
    assert forall|x: AutoKeyView| #[trigger] c.accepts(x) implies c.write(x).len() == 8
        + rows_bytes(n, size, x.1.0.len(), 3) by {
        assert(word_codec().accepts(x.0));
        assert(rows_codec(n, size, 3).accepts(x.1));
    }
}

proof fn lemma_key_codec(n: int, size: int)
    requires
        n * 1 * size >= 0,
    ensures
        key_codec(n, size).agrees(),
        forall|x: KeyView| #[trigger]
            key_codec(n, size).accepts(x) ==> key_codec(n, size).write(x).len() == 16
                + rows_bytes(n, size, x.1.1.0.len(), 3),
{
    let c = key_codec(n, size);
    lemma_word_codec();
    lemma_auto_key_codec(n, size);
    lemma_pair_agrees(word_codec(), auto_key_codec(n, size));
    assert forall|x: KeyView| #[trigger] c.accepts(x) implies c.write(x).len() == 16 + rows_bytes(
        n,
        size,
        x.1.1.0.len(),
        3,
    ) by {
        assert(word_codec().accepts(x.0));
        assert(auto_key_codec(n, size).accepts(x.1));
    }
}

proof fn lemma_blocks_codec(n: int, size: int, count: nat)
    requires
        n * 1 * size >= 0,
    ensures
        blocks_codec(n, size, count).consistent(blocks_bytes(n, size, count)),
{
    crate::bytes::lemma_le_bytes_len(count as int, 8);
    let l = 80 + n * 1 * size * 8;
    lemma_glwe_compressed_codec(n, size);
    lemma_many_codec(glwe_compressed_codec(n, size), count, l);
    lemma_after_codec(
        le_bytes(count as int, 8),
        many_codec(glwe_compressed_codec(n, size), count),
        count * l,
    );
}

proof fn lemma_glwes_codec(n: int, size: int, count: nat)
    requires
        n * 2 * size >= 0,
    ensures
        glwes_codec(n, size, count).consistent(8 + count * (44 + n * 2 * size * 8)),
{
    crate::bytes::lemma_le_bytes_len(count as int, 8);
    let l = 44 + n * 2 * size * 8;
    lemma_body_codec(n, 2, size);
    lemma_many_codec(body_codec(n, 2, size), count, l);
    lemma_after_codec(
        le_bytes(count as int, 8),
        many_codec(body_codec(n, 2, size), count),
        count * l,
    );
}

/// An interpolation query is read exactly where it was written, and its length depends
/// on the parameters and its numbers of seeds alone.
pub proof fn law_interpolation_codec(n: int, size: int, blocks: nat)
    requires
        n * 1 * size >= 0,
    ensures
        interpolation_codec(n, size, blocks).agrees(),
        forall|x: InterpolationView| #[trigger]
            interpolation_codec(n, size, blocks).accepts(x) ==> interpolation_codec(
                n,
                size,
                blocks,
            ).write(x).len() == 1 + blocks_bytes(n, size, blocks) + (8 + rows_bytes(
                n,
                size,
                x.1.0.1.0.len(),
                3,
            )) + (8 + rows_bytes(n, size, x.1.1.0.1.0.len(), 3)) + rows_bytes(
                n,
                size,
                x.1.1.1.0.len(),
                6,
            ),
{
    let c = interpolation_codec(n, size, blocks);
    let key = auto_key_codec(n, size);
    let root = rows_codec(n, size, 6);
    let list = blocks_codec(n, size, blocks);
    lemma_auto_key_codec(n, size);
    lemma_rows_codec(n, size, 6);
    lemma_blocks_codec(n, size, blocks);
    lemma_pair_agrees(key, root);
    lemma_pair_agrees(key, pair_codec(key, root));
    let keys = pair_codec(key, pair_codec(key, root));
    lemma_pair_agrees(list, keys);
    lemma_after_agrees(seq![TAG_INTERPOLATION], pair_codec(list, keys));
    assert forall|x: InterpolationView| #[trigger] c.accepts(x) implies c.write(x).len() == 1
        + blocks_bytes(n, size, blocks) + (8 + rows_bytes(n, size, x.1.0.1.0.len(), 3)) + (8
        + rows_bytes(n, size, x.1.1.0.1.0.len(), 3)) + rows_bytes(n, size, x.1.1.1.0.len(), 6) by {
        assert(list.accepts(x.0));
        assert(key.accepts(x.1.0));
        assert(key.accepts(x.1.1.0));
        assert(root.accepts(x.1.1.1));
        assert(c.write(x) == seq![TAG_INTERPOLATION] + (list.write(x.0) + (key.write(x.1.0) + (
        key.write(x.1.1.0) + root.write(x.1.1.1)))));
    }
}

/// A recursion query is read exactly where it was written, and its length depends on the
/// parameters and its numbers of seeds alone.
pub proof fn law_recursion_codec(n: int, size: int, blocks0: nat, blocks1: nat)
    requires
        n * 1 * size >= 0,
    ensures
        recursion_codec(n, size, blocks0, blocks1).agrees(),
        forall|x: RecursionView| #[trigger]
            recursion_codec(n, size, blocks0, blocks1).accepts(x) ==> recursion_codec(
                n,
                size,
                blocks0,
                blocks1,
            ).write(x).len() == 1 + blocks_bytes(n, size, blocks0) + blocks_bytes(n, size, blocks1)
                + (16 + rows_bytes(n, size, x.1.1.0.1.1.0.len(), 3)) + (16 + rows_bytes(
                n,
                size,
                x.1.1.1.0.1.1.0.len(),
                3,
            )) + (16 + rows_bytes(n, size, x.1.1.1.1.1.1.0.len(), 3)),
{
    let c = recursion_codec(n, size, blocks0, blocks1);
    let k = key_codec(n, size);
    let first = blocks_codec(n, size, blocks0);
    let second = blocks_codec(n, size, blocks1);
    lemma_key_codec(n, size);
    lemma_blocks_codec(n, size, blocks0);
    lemma_blocks_codec(n, size, blocks1);
    lemma_pair_agrees(k, k);
    lemma_pair_agrees(k, pair_codec(k, k));
    let keys = pair_codec(k, pair_codec(k, k));
    lemma_pair_agrees(second, keys);
    lemma_pair_agrees(first, pair_codec(second, keys));
    lemma_after_agrees(seq![TAG_RECURSION], pair_codec(first, pair_codec(second, keys)));
    assert forall|x: RecursionView| #[trigger] c.accepts(x) implies c.write(x).len() == 1
        + blocks_bytes(n, size, blocks0) + blocks_bytes(n, size, blocks1) + (16 + rows_bytes(
        n,
        size,
        x.1.1.0.1.1.0.len(),
        3,
    )) + (16 + rows_bytes(n, size, x.1.1.1.0.1.1.0.len(), 3)) + (16 + rows_bytes(
        n,
        size,
        x.1.1.1.1.1.1.0.len(),
        3,
    )) by {
        assert(first.accepts(x.0));
        assert(second.accepts(x.1.0));
        assert(k.accepts(x.1.1.0));
        assert(k.accepts(x.1.1.1.0));
        assert(k.accepts(x.1.1.1.1));
        assert(c.write(x) == seq![TAG_RECURSION] + (first.write(x.0) + (second.write(x.1.0) + (
        k.write(x.1.1.0) + (k.write(x.1.1.1.0) + k.write(x.1.1.1.1))))));
    }
}

/// An interpolation response is read exactly where it was written.
pub proof fn law_selected_codec(n: int, size: int)
    requires
        n * 2 * size >= 0,
    ensures
        selected_codec(n, size).consistent(1 + 44 + n * 2 * size * 8),
{
    lemma_body_codec(n, 2, size);
    lemma_after_codec(seq![TAG_INTERPOLATION], body_codec(n, 2, size), 44 + n * 2 * size * 8);
}

/// A recursion response is read exactly where it was written.
pub proof fn law_recursion_response_codec(n: int, size: int, len1: nat, len2: nat)
    requires
        n * 2 * size >= 0,
    ensures
        recursion_response_codec(n, size, len1, len2).consistent(
            1 + 16 + len1 * (44 + n * 2 * size * 8) + len2 * (44 + n * 2 * size * 8),
        ),
{
    let l = 44 + n * 2 * size * 8;
    lemma_glwes_codec(n, size, len1);
    lemma_glwes_codec(n, size, len2);
    let a = glwes_codec(n, size, len1);
    let b = glwes_codec(n, size, len2);
    lemma_pair_codec(a, b, 8 + len1 * l, 8 + len2 * l);
    lemma_after_codec(
        seq![TAG_RECURSION],
        pair_codec(a, b),
        8 + len1 * l + (8 + len2 * l),
    );
}

// ---------------------------------------------------------------------------
// Writing
// ---------------------------------------------------------------------------

fn write_limb_header(out: &mut Vec<u8>, v: &LimbVec)
    requires
        v.wf(),
        v.n * v.cols * v.size * 8 <= usize::MAX,
    ensures
        final(out)@ == old(out)@ + limb_header(v.n as int, v.cols as int, v.size as int),
{
    let ghost start = out@;
    write_u64(out, v.n as u64);
    write_u64(out, v.cols as u64);
    write_u64(out, v.size as u64);
    write_u64(out, v.size as u64);
    let bytes: usize = v.data.len() * 8;
    write_u64(out, bytes as u64);
    assert(out@ =~= start + limb_header(v.n as int, v.cols as int, v.size as int));
}

fn write_coeffs(out: &mut Vec<u8>, data: &Vec<i64>)
    ensures
        final(out)@ == old(out)@ + encode_many(word_codec().enc, data@),
{
    let ghost start = out@;
    let ghost enc = word_codec().enc;
    let mut i: usize = 0;
    proof {
        assert(data@.take(0) =~= Seq::<i64>::empty());
        assert(start + encode_many(enc, data@.take(0)) =~= start);
    }
    while i < data.len()
        invariant
            i <= data@.len(),
            enc == word_codec().enc,
            out@ == start + encode_many(enc, data@.take(i as int)),
        decreases data@.len() - i,
    {
        write_i64(out, data[i]);
        proof {
            let next = data@.take(i + 1);
            assert(next.drop_last() =~= data@.take(i as int));
            assert(out@ =~= start + encode_many(enc, next));
        }
        i = i + 1;
    }
    assert(data@.take(data@.len() as int) =~= data@);
}

fn write_body(out: &mut Vec<u8>, v: &LimbVec)
    requires
        v.wf(),
        v.n * v.cols * v.size * 8 <= usize::MAX,
    ensures
        final(out)@ == old(out)@ + body_codec(v.n as int, v.cols as int, v.size as int).write(
            v.data@,
        ),
{
    let ghost start = out@;
    write_u32(out, 63);
    write_limb_header(out, v);
    write_coeffs(out, &v.data);
    assert(out@ =~= start + body_codec(v.n as int, v.cols as int, v.size as int).write(v.data@));
}

fn write_seed(out: &mut Vec<u8>, seed: &[u8; 32])
    ensures
        final(out)@ == old(out)@ + seed@,
{
    let ghost start = out@;
    let mut i: usize = 0;
    while i < 32
        invariant
            i <= 32,
            seed@.len() == 32,
            out@ == start + seed@.take(i as int),
        decreases 32 - i,
    {
        out.push(seed[i]);
        assert(out@ =~= start + seed@.take(i + 1));
        i = i + 1;
    }
    assert(seed@.take(32) =~= seed@);
}

fn write_glwe_compressed(out: &mut Vec<u8>, ct: &GlweCompressed)
    requires
        ct.body.wf(),
        ct.body.cols == 1,
        ct.body.n * 1 * ct.body.size * 8 <= usize::MAX,
    ensures
        final(out)@ == old(out)@ + glwe_compressed_codec(
            ct.body.n as int,
            ct.body.size as int,
        ).write(ct.content()),
{
    let ghost start = out@;
    write_u32(out, 63);
    write_u32(out, 1);
    write_seed(out, &ct.seed);
    write_limb_header(out, &ct.body);
    write_coeffs(out, &ct.body.data);
    assert(out@ =~= start + glwe_compressed_codec(ct.body.n as int, ct.body.size as int).write(
        ct.content(),
    ));
}

fn write_seeds(out: &mut Vec<u8>, seeds: &Vec<[u8; 32]>)
    ensures
        final(out)@ == old(out)@ + encode_many(bytes_codec(32).enc, seeds_view(seeds@)),
{
    let ghost start = out@;
    let ghost enc = bytes_codec(32).enc;
    let ghost all = seeds_view(seeds@);
    let mut i: usize = 0;
    proof {
        assert(all.take(0) =~= Seq::<Seq<u8>>::empty());
        assert(start + encode_many(enc, all.take(0)) =~= start);
    }
    while i < seeds.len()
        invariant
            i <= seeds@.len(),
            enc == bytes_codec(32).enc,
            all == seeds_view(seeds@),
            out@ == start + encode_many(enc, all.take(i as int)),
        decreases seeds@.len() - i,
    {
        write_seed(out, &seeds[i]);
        proof {
            let next = all.take(i + 1);
            assert(next.drop_last() =~= all.take(i as int));
            assert(out@ =~= start + encode_many(enc, next));
        }
        i = i + 1;
    }
    assert(all.take(all.len() as int) =~= all);
}

fn write_bodies(out: &mut Vec<u8>, bodies: &Vec<LimbVec>, n: usize, cols: usize, size: usize)
    requires
        bodies_have_shape(bodies@, n as int, cols as int, size as int),
        n * cols * size * 8 <= usize::MAX,
    ensures
        final(out)@ == old(out)@ + encode_many(
            body_codec(n as int, cols as int, size as int).enc,
            bodies_view(bodies@),
        ),
{
    let ghost start = out@;
    let ghost enc = body_codec(n as int, cols as int, size as int).enc;
    let ghost all = bodies_view(bodies@);
    let mut i: usize = 0;
    proof {
        assert(all.take(0) =~= Seq::<Seq<i64>>::empty());
        assert(start + encode_many(enc, all.take(0)) =~= start);
    }
    while i < bodies.len()
        invariant
            i <= bodies@.len(),
            bodies_have_shape(bodies@, n as int, cols as int, size as int),
            n * cols * size * 8 <= usize::MAX,
            enc == body_codec(n as int, cols as int, size as int).enc,
            all == bodies_view(bodies@),
            out@ == start + encode_many(enc, all.take(i as int)),
        decreases bodies@.len() - i,
    {
        assert(has_limb_shape(bodies@[i as int], n as int, cols as int, size as int));
        write_body(out, &bodies[i]);
        proof {
            let next = all.take(i + 1);
            assert(next.drop_last() =~= all.take(i as int));
            assert(out@ =~= start + encode_many(enc, next));
        }
        i = i + 1;
    }
    assert(all.take(all.len() as int) =~= all);
}

fn write_rows(
    out: &mut Vec<u8>,
    seeds: &Vec<[u8; 32]>,
    bodies: &Vec<LimbVec>,
    n: usize,
    size: usize,
)
    requires
        bodies_have_shape(bodies@, n as int, 1, size as int),
        n * 1 * size * 8 <= usize::MAX,
    ensures
        final(out)@ == old(out)@ + rows_codec(n as int, size as int, bodies@.len()).write(
            (seeds_view(seeds@), bodies_view(bodies@)),
        ),
{
    let ghost start = out@;
    write_u64(out, seeds.len() as u64);
    write_seeds(out, seeds);
    write_bodies(out, bodies, n, 1, size);
    assert(out@ =~= start + rows_codec(n as int, size as int, bodies@.len()).write(
        (seeds_view(seeds@), bodies_view(bodies@)),
    ));
}

fn write_auto_key(out: &mut Vec<u8>, key: &AutoKey, n: usize, size: usize)
    requires
        key.has_shape(n as int, size as int),
        n * 1 * size * 8 <= usize::MAX,
    ensures
        final(out)@ == old(out)@ + auto_key_codec(n as int, size as int).write(key.content()),
{
    let ghost start = out@;
    write_i64(out, key.p);
    write_rows(out, &key.seeds, &key.bodies, n, size);
    assert(out@ =~= start + auto_key_codec(n as int, size as int).write(key.content()));
}

fn write_compressed_key(out: &mut Vec<u8>, key: &CompressedKey, n: usize, size: usize)
    requires
        key.key.has_shape(n as int, size as int),
        n * 1 * size * 8 <= usize::MAX,
    ensures
        final(out)@ == old(out)@ + key_codec(n as int, size as int).write(key.content()),
{
    let ghost start = out@;
    write_i64(out, key.stride);
    write_auto_key(out, &key.key, n, size);
    assert(out@ =~= start + key_codec(n as int, size as int).write(key.content()));
}

fn write_blocks(out: &mut Vec<u8>, blocks: &Vec<GlweCompressed>, n: usize, size: usize)
    requires
        blocks_have_shape(blocks@, n as int, size as int),
        n * 1 * size * 8 <= usize::MAX,
    ensures
        final(out)@ == old(out)@ + blocks_codec(n as int, size as int, blocks@.len()).write(
            blocks_view(blocks@),
        ),
{
    let ghost start = out@;
    write_u64(out, blocks.len() as u64);
    let ghost head = out@;
    let ghost enc = glwe_compressed_codec(n as int, size as int).enc;
    let ghost all = blocks_view(blocks@);
    let mut i: usize = 0;
    proof {
        assert(all.take(0) =~= Seq::<GlweView>::empty());
        assert(head + encode_many(enc, all.take(0)) =~= head);
    }
    while i < blocks.len()
        invariant
            i <= blocks@.len(),
            blocks_have_shape(blocks@, n as int, size as int),
            n * 1 * size * 8 <= usize::MAX,
            enc == glwe_compressed_codec(n as int, size as int).enc,
            all == blocks_view(blocks@),
            out@ == head + encode_many(enc, all.take(i as int)),
        decreases blocks@.len() - i,
    {
        assert(has_limb_shape(blocks@[i as int].body, n as int, 1, size as int));
        write_glwe_compressed(out, &blocks[i]);
        proof {
            let next = all.take(i + 1);
            assert(next.drop_last() =~= all.take(i as int));
            assert(out@ =~= head + encode_many(enc, next));
        }
        i = i + 1;
    }
    assert(all.take(all.len() as int) =~= all);
    assert(out@ =~= start + blocks_codec(n as int, size as int, blocks@.len()).write(all));
}

fn write_glwes(out: &mut Vec<u8>, glwes: &Vec<LimbVec>, n: usize, size: usize)
    requires
        bodies_have_shape(glwes@, n as int, 2, size as int),
        n * 2 * size * 8 <= usize::MAX,
    ensures
        final(out)@ == old(out)@ + glwes_codec(n as int, size as int, glwes@.len()).write(
            bodies_view(glwes@),
        ),
{
    let ghost start = out@;
    write_u64(out, glwes.len() as u64);
    write_bodies(out, glwes, n, 2, size);
    assert(out@ =~= start + glwes_codec(n as int, size as int, glwes@.len()).write(
        bodies_view(glwes@),
    ));
}

fn write_interpolation(q: &InterpolationQuery, n: usize, size: usize) -> (r: Vec<u8>)
    requires
        q.has_shape(n as int, size as int, q.blocks@.len() as int),
        n * 1 * size * 8 <= usize::MAX,
    ensures
        r@ == interpolation_codec(n as int, size as int, q.blocks@.len()).write(q.content()),
{
    let ghost c0 = blocks_codec(n as int, size as int, q.blocks@.len()).write(blocks_view(q.blocks@));
    let ghost c1 = auto_key_codec(n as int, size as int).write(q.key_g.content());
    let ghost c2 = auto_key_codec(n as int, size as int).write(q.key_h.content());
    let ghost c3 = rows_codec(n as int, size as int, 6).write(q.root.content());
    let mut out: Vec<u8> = Vec::new();
    out.push(TAG_INTERPOLATION);
    write_blocks(&mut out, &q.blocks, n, size);
    write_auto_key(&mut out, &q.key_g, n, size);
    write_auto_key(&mut out, &q.key_h, n, size);
    write_rows(&mut out, &q.root.seeds, &q.root.bodies, n, size);
    assert(out@ =~= seq![TAG_INTERPOLATION] + (c0 + (c1 + (c2 + c3))));
    out
}

fn write_recursion(q: &RecursionQuery, n: usize, size: usize) -> (r: Vec<u8>)
    requires
        q.has_shape(n as int, size as int, q.src0@.len() as int, q.src1@.len() as int),
        n * 1 * size * 8 <= usize::MAX,
    ensures
        r@ == recursion_codec(n as int, size as int, q.src0@.len(), q.src1@.len()).write(
            q.content(),
        ),
{
    let ghost c0 = blocks_codec(n as int, size as int, q.src0@.len()).write(blocks_view(q.src0@));
    let ghost c1 = blocks_codec(n as int, size as int, q.src1@.len()).write(blocks_view(q.src1@));
    let ghost c2 = key_codec(n as int, size as int).write(q.gamma0.content());
    let ghost c3 = key_codec(n as int, size as int).write(q.gamma1.content());
    let ghost c4 = key_codec(n as int, size as int).write(q.gamma2.content());
    let mut out: Vec<u8> = Vec::new();
    out.push(TAG_RECURSION);
    write_blocks(&mut out, &q.src0, n, size);
    write_blocks(&mut out, &q.src1, n, size);
    write_compressed_key(&mut out, &q.gamma0, n, size);
    write_compressed_key(&mut out, &q.gamma1, n, size);
    write_compressed_key(&mut out, &q.gamma2, n, size);
    assert(out@ =~= seq![TAG_RECURSION] + (c0 + (c1 + (c2 + (c3 + c4)))));
    out
}

// ---------------------------------------------------------------------------
// Reading
// ---------------------------------------------------------------------------

fn read_word(bytes: &[u8], at: usize) -> (r: Result<(i64, usize), WireError>)
    requires
        at <= bytes@.len(),
    ensures
        match r {
            Ok((x, n)) => word_codec().read(bytes@, at as int) == Parsed::Done(x, n as int) && n
                <= bytes@.len(),
            Err(e) => fails_as(e, word_codec().read(bytes@, at as int)),
        },
{
    let total: usize = bytes.len();
    if total - at < 8 {
        return Err(WireError::unexpected_eof());
    }
    Ok((read_i64(bytes, at), at + 8))
}

fn read_coeffs(bytes: &[u8], at: usize, count: usize) -> (r: Result<(Vec<i64>, usize), WireError>)
    requires
        at <= bytes@.len(),
    ensures
        match r {
            Ok((v, n)) => parse_many(bytes@, at as int, word_codec().parse, count as nat)
                == Parsed::Done(v@, n as int) && n <= bytes@.len() && v@.len() == count,
            Err(e) => fails_as(
                e,
                parse_many(bytes@, at as int, word_codec().parse, count as nat),
            ),
        },
{
    let mut out: Vec<i64> = Vec::new();
    let mut cur: usize = at;
    let ghost item = word_codec().parse;
    while out.len() < count
        invariant
            out@.len() <= count,
            at <= bytes@.len(),
            cur <= bytes@.len(),
            item == word_codec().parse,
            parse_many(bytes@, at as int, item, out@.len()) == Parsed::Done(out@, cur as int),
        decreases count - out@.len(),
    {
        match read_word(bytes, cur) {
            Ok((x, n)) => {
                out.push(x);
                cur = n;
            },
            Err(e) => {
                proof {
                    lemma_many_stops(bytes@, at as int, item, out@.len() + 1, count as nat);
                }
                return Err(e);
            },
        }
    }
    Ok((out, cur))
}

fn limb_header_bytes(out: &mut Vec<u8>, n: usize, cols: usize, size: usize, count: usize)
    requires
        count == n * cols * size,
        count * 8 <= usize::MAX,
    ensures
        final(out)@ == old(out)@ + limb_header(n as int, cols as int, size as int),
{
    let ghost start = out@;
    write_u64(out, n as u64);
    write_u64(out, cols as u64);
    write_u64(out, size as u64);
    write_u64(out, size as u64);
    let bytes: usize = count * 8;
    write_u64(out, bytes as u64);
    assert(out@ =~= start + limb_header(n as int, cols as int, size as int));
}

/// Number of coefficients of a shape.
fn coefficient_count(n: usize, cols: usize, size: usize) -> (r: usize)
    requires
        n * cols * size * 8 <= usize::MAX,
        size >= 1,
    ensures
        r == n * cols * size,
{
    proof {
        assert(n * cols <= n * cols * size) by (nonlinear_arith)
            requires
                size >= 1,
                n * cols >= 0,
        ;
        assert(n * cols >= 0) by (nonlinear_arith)
            requires
                n >= 0,
                cols >= 0,
        ;
    }
    n * cols * size
}

fn read_body(bytes: &[u8], at: usize, n: usize, cols: usize, size: usize) -> (r: Result<
    (LimbVec, usize),
    WireError,
>)
    requires
        at <= bytes@.len(),
        n * cols * size * 8 <= usize::MAX,
        size >= 1,
    ensures
        match r {
            Ok((v, e)) => body_codec(n as int, cols as int, size as int).read(bytes@, at as int)
                == Parsed::Done(v.data@, e as int) && e <= bytes@.len() && has_limb_shape(
                v,
                n as int,
                cols as int,
                size as int,
            ),
            Err(e) => fails_as(
                e,
                body_codec(n as int, cols as int, size as int).read(bytes@, at as int),
            ),
        },
{
    let count: usize = coefficient_count(n, cols, size);
    let mut lit: Vec<u8> = Vec::new();
    write_u32(&mut lit, 63);
    limb_header_bytes(&mut lit, n, cols, size, count);
    assert(lit@ =~= body_header(n as int, cols as int, size as int));
    match expect_bytes(bytes, at, &lit) {
        Err(e) => Err(e),
        Ok(start) => match read_coeffs(bytes, start, count) {
            Err(e) => Err(e),
            Ok((data, end)) => Ok((LimbVec { n, cols, size, data }, end)),
        },
    }
}

fn read_seed(bytes: &[u8], at: usize) -> (r: Result<([u8; 32], usize), WireError>)
    requires
        at <= bytes@.len(),
    ensures
        match r {
            Ok((s, n)) => bytes_codec(32).read(bytes@, at as int) == Parsed::Done(s@, n as int) && n
                <= bytes@.len(),
            Err(e) => fails_as(e, bytes_codec(32).read(bytes@, at as int)),
        },
{
    let total: usize = bytes.len();
    if total - at < 32 {
        return Err(WireError::unexpected_eof());
    }
    let mut seed: [u8; 32] = [0u8; 32];
    let mut i: usize = 0;
    while i < 32
        invariant
            i <= 32,
            total == bytes@.len(),
            at + 32 <= total,
            seed@.len() == 32,
            forall|j: int| 0 <= j < i ==> #[trigger] seed@[j] == bytes@[at + j],
        decreases 32 - i,
    {
        seed[i] = bytes[at + i];
        i = i + 1;
    }
    assert(seed@ =~= bytes@.subrange(at as int, at + 32));
    Ok((seed, at + 32))
}

fn read_glwe_compressed(bytes: &[u8], at: usize, n: usize, size: usize) -> (r: Result<
    (GlweCompressed, usize),
    WireError,
>)
    requires
        at <= bytes@.len(),
        n * 1 * size * 8 <= usize::MAX,
        size >= 1,
    ensures
        match r {
            Ok((v, e)) => glwe_compressed_codec(n as int, size as int).read(bytes@, at as int)
                == Parsed::Done(v.content(), e as int) && e <= bytes@.len() && has_limb_shape(
                v.body,
                n as int,
                1,
                size as int,
            ),
            Err(e) => fails_as(
                e,
                glwe_compressed_codec(n as int, size as int).read(bytes@, at as int),
            ),
        },
{
    let count: usize = coefficient_count(n, 1, size);
    let mut head: Vec<u8> = Vec::new();
    write_u32(&mut head, 63);
    write_u32(&mut head, 1);
    assert(head@ =~= le_bytes(63, 4) + le_bytes(1, 4));
    let mut lit: Vec<u8> = Vec::new();
    limb_header_bytes(&mut lit, n, 1, size, count);
    assert(lit@ =~= limb_header(n as int, 1, size as int));
    let start: usize = match expect_bytes(bytes, at, &head) {
        Err(e) => {
            return Err(e);
        },
        Ok(start) => start,
    };
    let (seed, mid): ([u8; 32], usize) = match read_seed(bytes, start) {
        Err(e) => {
            return Err(e);
        },
        Ok(x) => x,
    };
    let mid2: usize = match expect_bytes(bytes, mid, &lit) {
        Err(e) => {
            return Err(e);
        },
        Ok(x) => x,
    };
    match read_coeffs(bytes, mid2, count) {
        Err(e) => Err(e),
        Ok((data, end)) => {
            let body = LimbVec { n, cols: 1, size, data };
            Ok((GlweCompressed { seed, body }, end))
        },
    }
}

fn read_seeds(bytes: &[u8], at: usize, count: u64) -> (r: Result<
    (Vec<[u8; 32]>, usize),
    WireError,
>)
    requires
        at <= bytes@.len(),
    ensures
        match r {
            Ok((v, n)) => parse_many(bytes@, at as int, bytes_codec(32).parse, count as nat)
                == Parsed::Done(seeds_view(v@), n as int) && n <= bytes@.len() && v@.len() == count,
            Err(e) => fails_as(
                e,
                parse_many(bytes@, at as int, bytes_codec(32).parse, count as nat),
            ),
        },
{
    let mut out: Vec<[u8; 32]> = Vec::new();
    let mut cur: usize = at;
    let ghost item = bytes_codec(32).parse;
    assert(seeds_view(out@) =~= Seq::<Seq<u8>>::empty());
    while (out.len() as u64) < count
        invariant
            out@.len() <= count,
            at <= bytes@.len(),
            cur <= bytes@.len(),
            item == bytes_codec(32).parse,
            parse_many(bytes@, at as int, item, out@.len()) == Parsed::Done(
                seeds_view(out@),
                cur as int,
            ),
        decreases count - out@.len(),
    {
        match read_seed(bytes, cur) {
            Ok((x, n)) => {
                let ghost before = seeds_view(out@);
                out.push(x);
                cur = n;
                assert(seeds_view(out@) =~= before.push(x@));
            },
            Err(e) => {
                proof {
                    lemma_many_stops(bytes@, at as int, item, out@.len() + 1, count as nat);
                }
                return Err(e);
            },
        }
    }
    Ok((out, cur))
}

fn read_bodies(
    bytes: &[u8],
    at: usize,
    n: usize,
    cols: usize,
    size: usize,
    count: u64,
) -> (r: Result<(Vec<LimbVec>, usize), WireError>)
    requires
        at <= bytes@.len(),
        n * cols * size * 8 <= usize::MAX,
        size >= 1,
    ensures
        ({
            let p = parse_many(
                bytes@,
                at as int,
                body_codec(n as int, cols as int, size as int).parse,
                count as nat,
            );
            match r {
                Ok((v, e)) => p == Parsed::Done(bodies_view(v@), e as int) && e <= bytes@.len()
                    && v@.len() == count && bodies_have_shape(
                    v@,
                    n as int,
                    cols as int,
                    size as int,
                ),
                Err(e) => fails_as(e, p),
            }
        }),
{
    let mut out: Vec<LimbVec> = Vec::new();
    let mut cur: usize = at;
    let ghost item = body_codec(n as int, cols as int, size as int).parse;
    assert(bodies_view(out@) =~= Seq::<Seq<i64>>::empty());
    while (out.len() as u64) < count
        invariant
            out@.len() <= count,
            at <= bytes@.len(),
            cur <= bytes@.len(),
            n * cols * size * 8 <= usize::MAX,
            size >= 1,
            item == body_codec(n as int, cols as int, size as int).parse,
            bodies_have_shape(out@, n as int, cols as int, size as int),
            parse_many(bytes@, at as int, item, out@.len()) == Parsed::Done(
                bodies_view(out@),
                cur as int,
            ),
        decreases count - out@.len(),
    {
        match read_body(bytes, cur, n, cols, size) {
            Ok((x, e)) => {
                let ghost before = bodies_view(out@);
                out.push(x);
                cur = e;
                assert(bodies_view(out@) =~= before.push(x.data@));
            },
            Err(e) => {
                proof {
                    lemma_many_stops(bytes@, at as int, item, out@.len() + 1, count as nat);
                }
                return Err(e);
            },
        }
    }
    Ok((out, cur))
}

fn read_blocks(bytes: &[u8], at: usize, n: usize, size: usize, count: u64) -> (r: Result<
    (Vec<GlweCompressed>, usize),
    WireError,
>)
    requires
        at <= bytes@.len(),
        n * 1 * size * 8 <= usize::MAX,
        size >= 1,
    ensures
        match r {
            Ok((v, e)) => blocks_codec(n as int, size as int, count as nat).read(bytes@, at as int)
                == Parsed::Done(blocks_view(v@), e as int) && e <= bytes@.len() && v@.len() == count
                && blocks_have_shape(v@, n as int, size as int),
            Err(e) => fails_as(
                e,
                blocks_codec(n as int, size as int, count as nat).read(bytes@, at as int),
            ),
        },
{
    let mut lit: Vec<u8> = Vec::new();
    write_u64(&mut lit, count);
    assert(lit@ =~= le_bytes(count as int, 8));
    let start: usize = match expect_bytes(bytes, at, &lit) {
        Err(e) => {
            return Err(e);
        },
        Ok(x) => x,
    };
    let mut out: Vec<GlweCompressed> = Vec::new();
    let mut cur: usize = start;
    let ghost item = glwe_compressed_codec(n as int, size as int).parse;
    assert(blocks_view(out@) =~= Seq::<GlweView>::empty());
    while (out.len() as u64) < count
        invariant
            out@.len() <= count,
            start <= bytes@.len(),
            cur <= bytes@.len(),
            n * 1 * size * 8 <= usize::MAX,
            size >= 1,
            expect(bytes@, at as int, le_bytes(count as int, 8)) == Parsed::Done((), start as int),
            item == glwe_compressed_codec(n as int, size as int).parse,
            blocks_have_shape(out@, n as int, size as int),
            parse_many(bytes@, start as int, item, out@.len()) == Parsed::Done(
                blocks_view(out@),
                cur as int,
            ),
        decreases count - out@.len(),
    {
        match read_glwe_compressed(bytes, cur, n, size) {
            Ok((x, e)) => {
                let ghost before = blocks_view(out@);
                out.push(x);
                cur = e;
                assert(blocks_view(out@) =~= before.push(x.content()));
            },
            Err(e) => {
                proof {
                    lemma_many_stops(bytes@, start as int, item, out@.len() + 1, count as nat);
                }
                return Err(e);
            },
        }
    }
    Ok((out, cur))
}

fn read_glwes(bytes: &[u8], at: usize, n: usize, size: usize, count: u64) -> (r: Result<
    (Vec<LimbVec>, usize),
    WireError,
>)
    requires
        at <= bytes@.len(),
        n * 2 * size * 8 <= usize::MAX,
        size >= 1,
    ensures
        match r {
            Ok((v, e)) => glwes_codec(n as int, size as int, count as nat).read(bytes@, at as int)
                == Parsed::Done(bodies_view(v@), e as int) && e <= bytes@.len() && v@.len() == count
                && bodies_have_shape(v@, n as int, 2, size as int),
            Err(e) => fails_as(
                e,
                glwes_codec(n as int, size as int, count as nat).read(bytes@, at as int),
            ),
        },
{
    let mut lit: Vec<u8> = Vec::new();
    write_u64(&mut lit, count);
    assert(lit@ =~= le_bytes(count as int, 8));
    match expect_bytes(bytes, at, &lit) {
        Err(e) => Err(e),
        Ok(start) => read_bodies(bytes, start, n, 2, size, count),
    }
}

fn read_rows(bytes: &[u8], at: usize, n: usize, size: usize, count: usize) -> (r: Result<
    (Vec<[u8; 32]>, Vec<LimbVec>, usize),
    WireError,
>)
    requires
        at <= bytes@.len(),
        n * 1 * size * 8 <= usize::MAX,
        size >= 1,
    ensures
        match r {
            Ok((s, v, e)) => rows_codec(n as int, size as int, count as nat).read(bytes@, at as int)
                == Parsed::Done((seeds_view(s@), bodies_view(v@)), e as int) && e <= bytes@.len()
                && v@.len() == count && bodies_have_shape(
                v@,
                n as int,
                1,
                size as int,
            ),
            Err(e) => fails_as(
                e,
                rows_codec(n as int, size as int, count as nat).read(bytes@, at as int),
            ),
        },
{
    let (seeds, start): (u64, usize) = match read_u64(bytes, at) {
        Err(e) => {
            return Err(e);
        },
        Ok(x) => x,
    };
    match read_seeds(bytes, start, seeds) {
        Err(e) => Err(e),
        Ok((seeds, mid)) => match read_bodies(bytes, mid, n, 1, size, count as u64) {
            Err(e) => Err(e),
            Ok((bodies, end)) => Ok((seeds, bodies, end)),
        },
    }
}

fn read_auto_key(bytes: &[u8], at: usize, n: usize, size: usize) -> (r: Result<
    (AutoKey, usize),
    WireError,
>)
    requires
        at <= bytes@.len(),
        n * 1 * size * 8 <= usize::MAX,
        size >= 1,
    ensures
        match r {
            Ok((k, e)) => auto_key_codec(n as int, size as int).read(bytes@, at as int)
                == Parsed::Done(k.content(), e as int) && e <= bytes@.len() && k.has_shape(
                n as int,
                size as int,
            ),
            Err(e) => fails_as(e, auto_key_codec(n as int, size as int).read(bytes@, at as int)),
        },
{
    match read_word(bytes, at) {
        Err(e) => Err(e),
        Ok((p, mid)) => match read_rows(bytes, mid, n, size, 3) {
            Err(e) => Err(e),
            Ok((seeds, bodies, end)) => Ok((AutoKey { p, seeds, bodies }, end)),
        },
    }
}

fn read_compressed_key(bytes: &[u8], at: usize, n: usize, size: usize) -> (r: Result<
    (CompressedKey, usize),
    WireError,
>)
    requires
        at <= bytes@.len(),
        n * 1 * size * 8 <= usize::MAX,
        size >= 1,
    ensures
        match r {
            Ok((k, e)) => key_codec(n as int, size as int).read(bytes@, at as int) == Parsed::Done(
                k.content(),
                e as int,
            ) && e <= bytes@.len() && k.key.has_shape(n as int, size as int),
            Err(e) => fails_as(e, key_codec(n as int, size as int).read(bytes@, at as int)),
        },
{
    match read_word(bytes, at) {
        Err(e) => Err(e),
        Ok((stride, mid)) => match read_auto_key(bytes, mid, n, size) {
            Err(e) => Err(e),
            Ok((key, end)) => Ok((CompressedKey { stride, key }, end)),
        },
    }
}

fn read_interpolation(bytes: &[u8], n: usize, size: usize, blocks: u64) -> (r: Result<
    (InterpolationQuery, usize),
    WireError,
>)
    requires
        n * 1 * size * 8 <= usize::MAX,
        size >= 1,
    ensures
        match r {
            Ok((q, end)) => interpolation_codec(n as int, size as int, blocks as nat).read(
                bytes@,
                0,
            ) == Parsed::Done(q.content(), end as int) && q.has_shape(
                n as int,
                size as int,
                blocks as int,
            ),
            Err(e) => fails_as(
                e,
                interpolation_codec(n as int, size as int, blocks as nat).read(bytes@, 0),
            ),
        },
{
    let mut lit: Vec<u8> = Vec::new();
    lit.push(TAG_INTERPOLATION);
    assert(lit@ =~= seq![TAG_INTERPOLATION]);
    let a: usize = match expect_bytes(bytes, 0, &lit) {
        Err(e) => {
            return Err(e);
        },
        Ok(x) => x,
    };
    let (blocks, b): (Vec<GlweCompressed>, usize) = match read_blocks(bytes, a, n, size, blocks) {
        Err(e) => {
            return Err(e);
        },
        Ok(x) => x,
    };
    let (key_g, c): (AutoKey, usize) = match read_auto_key(bytes, b, n, size) {
        Err(e) => {
            return Err(e);
        },
        Ok(x) => x,
    };
    let (key_h, d): (AutoKey, usize) = match read_auto_key(bytes, c, n, size) {
        Err(e) => {
            return Err(e);
        },
        Ok(x) => x,
    };
    match read_rows(bytes, d, n, size, 6) {
        Err(e) => Err(e),
        Ok((seeds, bodies, end)) => {
            let root = GgswCompressed { seeds, bodies };
            Ok((InterpolationQuery { blocks, key_g, key_h, root }, end))
        },
    }
}

/// The three keys of a recursion query.
fn read_keys(bytes: &[u8], at: usize, n: usize, size: usize) -> (r: Result<
    ((CompressedKey, CompressedKey, CompressedKey), usize),
    WireError,
>)
    requires
        at <= bytes@.len(),
        n * 1 * size * 8 <= usize::MAX,
        size >= 1,
    ensures
        ({
            let k = key_codec(n as int, size as int);
            let p = pair_codec(k, pair_codec(k, k)).read(bytes@, at as int);
            match r {
                Ok(((x, y, z), end)) => p == Parsed::Done(
                    (x.content(), (y.content(), z.content())),
                    end as int,
                ) && end <= bytes@.len() && x.key.has_shape(n as int, size as int)
                    && y.key.has_shape(n as int, size as int) && z.key.has_shape(
                    n as int,
                    size as int,
                ),
                Err(e) => fails_as(e, p),
            }
        }),
{
    match read_compressed_key(bytes, at, n, size) {
        Err(e) => Err(e),
        Ok((x, b)) => match read_compressed_key(bytes, b, n, size) {
            Err(e) => Err(e),
            Ok((y, c)) => match read_compressed_key(bytes, c, n, size) {
                Err(e) => Err(e),
                Ok((z, end)) => Ok(((x, y, z), end)),
            },
        },
    }
}

/// The counts of a recursion query: those that are expected, else those that its length
/// words declare.
pub open spec fn query_counts(b: Seq<u8>, n: int, size: int, expected: Option<(nat, nat)>) -> (
    nat,
    nat,
) {
    match expected {
        Some(counts) => counts,
        None => (
            declared(b, 1),
            match blocks_codec(n, size, declared(b, 1)).read(b, 1) {
                Parsed::Done(_, end) => declared(b, end),
                _ => 0,
            },
        ),
    }
}

/// Counts as numbers.
pub open spec fn counts_view(expected: Option<(u64, u64)>) -> Option<(nat, nat)> {
    match expected {
        Some((a, b)) => Some((a as nat, b as nat)),
        None => None,
    }
}

fn read_recursion(bytes: &[u8], n: usize, size: usize, expected: Option<(u64, u64)>) -> (r: Result<
    (RecursionQuery, usize),
    WireError,
>)
    requires
        n * 1 * size * 8 <= usize::MAX,
        size >= 1,
    ensures
        ({
            let counts = query_counts(bytes@, n as int, size as int, counts_view(expected));
            let p = recursion_codec(n as int, size as int, counts.0, counts.1).read(bytes@, 0);
            match r {
                Ok((q, end)) => p == Parsed::Done(q.content(), end as int) && q.has_shape(
                    n as int,
                    size as int,
                    counts.0 as int,
                    counts.1 as int,
                ),
                Err(e) => fails_as(e, p),
            }
        }),
{
    let mut lit: Vec<u8> = Vec::new();
    lit.push(TAG_RECURSION);
    assert(lit@ =~= seq![TAG_RECURSION]);
    let a: usize = match expect_bytes(bytes, 0, &lit) {
        Err(e) => {
            return Err(e);
        },
        Ok(x) => x,
    };
    let blocks0: u64 = match expected {
        Some((x, _)) => x,
        None => declared_count(bytes, a),
    };
    let (src0, b): (Vec<GlweCompressed>, usize) = match read_blocks(bytes, a, n, size, blocks0) {
        Err(e) => {
            return Err(e);
        },
        Ok(x) => x,
    };
    let blocks1: u64 = match expected {
        Some((_, x)) => x,
        None => declared_count(bytes, b),
    };
    let (src1, c): (Vec<GlweCompressed>, usize) = match read_blocks(bytes, b, n, size, blocks1) {
        Err(e) => {
            return Err(e);
        },
        Ok(x) => x,
    };
    match read_keys(bytes, c, n, size) {
        Err(e) => Err(e),
        Ok(((gamma0, gamma1, gamma2), end)) => {
            Ok((RecursionQuery { src0, src1, gamma0, gamma1, gamma2 }, end))
        },
    }
}

// ---------------------------------------------------------------------------
// Queries
// ---------------------------------------------------------------------------

impl Query {
    /// The query has the shape that configuration and layout ask for.
    pub open spec fn has_shape<P: Payload<[u8; 32]>>(
        self,
        config: Config<P>,
        layout: DatabaseLayout<P>,
    ) -> bool {
        let n = config.n as int;
        let size = spec_transmitted_limbs(config.k as int);
        match self {
            Query::Interpolation(q) => config.collapse is Interpolation && q.has_shape(
                n,
                size,
                config.spec_src0_blocks(layout),
            ),
            Query::Recursion(q) => config.collapse is Recursion && q.has_shape(
                n,
                size,
                config.spec_src0_blocks(layout),
                config.spec_src1_blocks(layout),
            ),
        }
    }

    /// The query's ciphertexts, however many, are those of the configured ring and
    /// precision.
    pub open spec fn holds_ciphertexts<P: Payload<[u8; 32]>>(self, config: Config<P>) -> bool {
        let n = config.n as int;
        let size = spec_transmitted_limbs(config.k as int);
        match self {
            Query::Interpolation(q) => q.has_shape(n, size, q.blocks@.len() as int),
            Query::Recursion(q) => q.has_shape(
                n,
                size,
                q.src0@.len() as int,
                q.src1@.len() as int,
            ),
        }
    }

    /// Bytes of the query.
    pub open spec fn wire<P: Payload<[u8; 32]>>(self, config: Config<P>) -> Seq<u8> {
        let n = config.n as int;
        let size = spec_transmitted_limbs(config.k as int);
        match self {
            Query::Interpolation(q) => interpolation_codec(n, size, q.blocks@.len()).write(
                q.content(),
            ),
            Query::Recursion(q) => recursion_codec(n, size, q.src0@.len(), q.src1@.len()).write(
                q.content(),
            ),
        }
    }

    /// Blocks of an interpolation query in the bytes: as many as the layout has where that
    /// construction is configured, else as many as the length word declares.
    pub open spec fn interpolation_count<P: Payload<[u8; 32]>>(
        b: Seq<u8>,
        config: Config<P>,
        layout: DatabaseLayout<P>,
    ) -> nat {
        match config.collapse {
            Collapse::Interpolation => config.spec_src0_blocks(layout) as nat,
            Collapse::Recursion { .. } => declared(b, 1),
        }
    }

    /// Counts of a recursion query in the bytes, found in the same way.
    pub open spec fn recursion_counts<P: Payload<[u8; 32]>>(
        b: Seq<u8>,
        config: Config<P>,
        layout: DatabaseLayout<P>,
    ) -> (nat, nat) {
        query_counts(
            b,
            config.n as int,
            spec_transmitted_limbs(config.k as int),
            match config.collapse {
                Collapse::Interpolation => None,
                Collapse::Recursion { .. } => Some(
                    (
                        config.spec_src0_blocks(layout) as nat,
                        config.spec_src1_blocks(layout) as nat,
                    ),
                ),
            },
        )
    }

    /// The bytes up to `end` are read as this query.
    pub open spec fn is_read<P: Payload<[u8; 32]>>(
        self,
        b: Seq<u8>,
        end: int,
        config: Config<P>,
        layout: DatabaseLayout<P>,
    ) -> bool {
        let n = config.n as int;
        let size = spec_transmitted_limbs(config.k as int);
        match self {
            Query::Interpolation(q) => interpolation_codec(
                n,
                size,
                Query::interpolation_count(b, config, layout),
            ).read(b, 0) == Parsed::Done(q.content(), end),
            Query::Recursion(q) => {
                let counts = Query::recursion_counts(b, config, layout);
                recursion_codec(n, size, counts.0, counts.1).read(b, 0) == Parsed::Done(
                    q.content(),
                    end,
                )
            },
        }
    }

    /// Why the bytes are no query of the construction that their tag names.
    pub open spec fn is_rejected<P: Payload<[u8; 32]>>(
        b: Seq<u8>,
        e: WireError,
        config: Config<P>,
        layout: DatabaseLayout<P>,
    ) -> bool {
        let n = config.n as int;
        let size = spec_transmitted_limbs(config.k as int);
        if b.len() >= 1 && b[0] == TAG_RECURSION {
            let counts = Query::recursion_counts(b, config, layout);
            fails_as(e, recursion_codec(n, size, counts.0, counts.1).read(b, 0))
        } else {
            fails_as(
                e,
                interpolation_codec(
                    n,
                    size,
                    Query::interpolation_count(b, config, layout),
                ).read(b, 0),
            )
        }
    }

    /// Whether the query has the shape that the parameters and the layout give it.
    pub fn fits<P: Payload<[u8; 32]>>(&self, params: &Parameters<P>, layout: DatabaseLayout<P>) -> (r:
        bool)
        requires
            params.wf(),
            params.params.spec_query_bytes(layout) <= usize::MAX,
        ensures
            r == self.has_shape(params.params, layout),
    {
        let n: usize = params.n();
        let size: usize = params.size_at(TRANSMIT_BASE2K);
        proof {
            lemma_machine_shape(params.params, layout);
        }
        let blocks: usize = layout.column_blocks(n);
        match (self, params.collapse()) {
            (Query::Interpolation(q), Collapse::Interpolation) => q.fits(n, size, blocks),
            (Query::Recursion(q), Collapse::Recursion { gamma0: height, .. }) => {
                let batches: usize = layout.grid_rows_for(height);
                q.fits(n, size, blocks, div_ceil(batches, n))
            },
            _ => false,
        }
    }

    /// Serializes the query.
    pub fn write_to<P: Payload<[u8; 32]>>(&self, params: &Parameters<P>) -> (r: Vec<u8>)
        requires
            params.wf(),
            params.params.n * 1 * spec_transmitted_limbs(params.params.k as int) * 8 <= usize::MAX,
            self.holds_ciphertexts(params.params),
        ensures
            r@ == self.wire(params.params),
    {
        let n: usize = params.n();
        let size: usize = params.size_at(TRANSMIT_BASE2K);
        match self {
            Query::Interpolation(q) => write_interpolation(q, n, size),
            Query::Recursion(q) => write_recursion(q, n, size),
        }
    }

    /// Reads a query of the construction that its tag names from the front of `bytes`, and
    /// says where it ends. Of the configured construction it has the lengths that the
    /// layout gives it; whether a server answers one of the other construction, the server
    /// says.
    pub fn read_from<P: Payload<[u8; 32]>>(
        bytes: &[u8],
        params: &Parameters<P>,
        layout: DatabaseLayout<P>,
    ) -> (r: Result<(Query, usize), WireError>)
        requires
            params.wf(),
            params.params.spec_query_bytes(layout) <= usize::MAX,
        ensures
            match r {
                Ok((q, end)) => {
                    &&& q.is_read(bytes@, end as int, params.params, layout)
                    &&& q.holds_ciphertexts(params.params)
                    &&& q.spec_kind() == params.params.collapse.spec_kind() ==> q.has_shape(
                        params.params,
                        layout,
                    )
                },
                Err(e) => Query::is_rejected(bytes@, e, params.params, layout),
            },
    {
        let n: usize = params.n();
        let size: usize = params.size_at(TRANSMIT_BASE2K);
        proof {
            lemma_machine_shape(params.params, layout);
        }
        let blocks: u64 = layout.column_blocks(n) as u64;
        if bytes.len() >= 1 && bytes[0] == TAG_RECURSION {
            let expected: Option<(u64, u64)> = match params.collapse() {
                Collapse::Interpolation => None,
                Collapse::Recursion { gamma0: height, .. } => {
                    let batches: usize = layout.grid_rows_for(height);
                    Some((blocks, div_ceil(batches, n) as u64))
                },
            };
            match read_recursion(bytes, n, size, expected) {
                Err(e) => Err(e),
                Ok((q, end)) => Ok((Query::Recursion(q), end)),
            }
        } else {
            let count: u64 = match params.collapse() {
                Collapse::Interpolation => blocks,
                Collapse::Recursion { .. } => declared_count(bytes, 1),
            };
            match read_interpolation(bytes, n, size, count) {
                Err(e) => Err(e),
                Ok((q, end)) => Ok((Query::Interpolation(q), end)),
            }
        }
    }
}

/// Messages that fit the machine have limb vectors that fit it.
proof fn lemma_machine_shape<P: Payload<[u8; 32]>>(config: Config<P>, layout: DatabaseLayout<P>)
    requires
        config.valid(),
        config.spec_query_bytes(layout) <= usize::MAX,
    ensures
        config.n >= 4,
        config.spec_column_height() >= 1,
        spec_transmitted_limbs(config.k as int) >= 1,
        0 <= config.n * 1 * spec_transmitted_limbs(config.k as int) * 8 <= usize::MAX,
        config.spec_src0_blocks(layout) >= 0,
        config.spec_src1_blocks(layout) >= 0,
{
    config.lemma_query_parts(layout);
    crate::parameters::lemma_wire_sizes(config.n as int, config.k as int);
}

/// Contents of a well-shaped query belong to the format, and take the query size if every
/// row has its seed.
proof fn lemma_query_accepted<P: Payload<[u8; 32]>>(
    q: Query,
    config: Config<P>,
    layout: DatabaseLayout<P>,
)
    requires
        config.valid(),
        config.spec_query_bytes(layout) <= usize::MAX,
        q.has_shape(config, layout),
    ensures
        ({
            let n = config.n as int;
            let size = spec_transmitted_limbs(config.k as int);
            let blocks0 = config.spec_src0_blocks(layout) as nat;
            let blocks1 = config.spec_src1_blocks(layout) as nat;
            match q {
                Query::Interpolation(x) => {
                    &&& interpolation_codec(n, size, blocks0).accepts(x.content())
                    &&& interpolation_codec(n, size, blocks0).agrees()
                },
                Query::Recursion(x) => {
                    &&& recursion_codec(n, size, blocks0, blocks1).accepts(x.content())
                    &&& recursion_codec(n, size, blocks0, blocks1).agrees()
                },
            }
        }),
        q.is_seeded() ==> q.wire(config).len() == config.spec_query_bytes(layout),
{
    let n = config.n as int;
    let size = spec_transmitted_limbs(config.k as int);
    let blocks0 = config.spec_src0_blocks(layout) as nat;
    let blocks1 = config.spec_src1_blocks(layout) as nat;
    lemma_machine_shape(config, layout);
    match q {
        Query::Interpolation(x) => {
            law_interpolation_codec(n, size, blocks0);
            lemma_blocks_accepted(x.blocks@, n, size);
            lemma_auto_key_accepted(x.key_g, n, size);
            lemma_auto_key_accepted(x.key_h, n, size);
            assert(x.root.seeds@.len() == x.root.seeds.len());
            lemma_rows_accepted(x.root.seeds@, x.root.bodies@, n, size);
            assert(interpolation_codec(n, size, blocks0).accepts(x.content()));
        },
        Query::Recursion(x) => {
            law_recursion_codec(n, size, blocks0, blocks1);
            lemma_blocks_accepted(x.src0@, n, size);
            lemma_blocks_accepted(x.src1@, n, size);
            lemma_auto_key_accepted(x.gamma0.key, n, size);
            lemma_auto_key_accepted(x.gamma1.key, n, size);
            lemma_auto_key_accepted(x.gamma2.key, n, size);
            assert(recursion_codec(n, size, blocks0, blocks1).accepts(x.content()));
        },
    }
}

proof fn lemma_body_accepted(v: LimbVec, n: int, cols: int, size: int)
    requires
        has_limb_shape(v, n, cols, size),
    ensures
        body_codec(n, cols, size).accepts(v.data@),
        coeffs_codec(n, cols, size).accepts(v.data@),
{
    assert forall|i: int| 0 <= i < v.data@.len() implies word_codec().accepts(
        #[trigger] v.data@[i],
    ) by {}
}

proof fn lemma_bodies_accepted(bodies: Seq<LimbVec>, n: int, cols: int, size: int)
    requires
        bodies_have_shape(bodies, n, cols, size),
    ensures
        many_codec(body_codec(n, cols, size), bodies.len()).accepts(bodies_view(bodies)),
{
    let all = bodies_view(bodies);
    assert forall|i: int| 0 <= i < all.len() implies body_codec(n, cols, size).accepts(
        #[trigger] all[i],
    ) by {
        assert(has_limb_shape(bodies[i], n, cols, size));
        lemma_body_accepted(bodies[i], n, cols, size);
    }
}

proof fn lemma_rows_accepted(seeds: Seq<[u8; 32]>, bodies: Seq<LimbVec>, n: int, size: int)
    requires
        seeds.len() <= u64::MAX,
        bodies_have_shape(bodies, n, 1, size),
    ensures
        rows_codec(n, size, bodies.len()).accepts((seeds_view(seeds), bodies_view(bodies))),
{
    lemma_bodies_accepted(bodies, n, 1, size);
    let all = seeds_view(seeds);
    assert forall|i: int| 0 <= i < all.len() implies bytes_codec(32).accepts(#[trigger] all[i]) by {
        assert(seeds[i]@.len() == 32);
    }
}

proof fn lemma_auto_key_accepted(key: AutoKey, n: int, size: int)
    requires
        key.has_shape(n, size),
    ensures
        auto_key_codec(n, size).accepts(key.content()),
{
    assert(key.seeds@.len() == key.seeds.len());
    lemma_rows_accepted(key.seeds@, key.bodies@, n, size);
}

proof fn lemma_blocks_accepted(blocks: Seq<GlweCompressed>, n: int, size: int)
    requires
        blocks_have_shape(blocks, n, size),
    ensures
        blocks_codec(n, size, blocks.len()).accepts(blocks_view(blocks)),
{
    let all = blocks_view(blocks);
    assert forall|i: int| 0 <= i < all.len() implies glwe_compressed_codec(n, size).accepts(
        #[trigger] all[i],
    ) by {
        assert(has_limb_shape(blocks[i].body, n, 1, size));
        lemma_body_accepted(blocks[i].body, n, 1, size);
        assert(blocks[i].seed@.len() == 32);
    }
}

/// A written query reads back, whatever follows it. If every row has its seed, it ends
/// where its size says.
pub proof fn law_query_reads_back<P: Payload<[u8; 32]>>(
    q: Query,
    config: Config<P>,
    layout: DatabaseLayout<P>,
    rest: Seq<u8>,
)
    requires
        config.valid(),
        config.spec_query_bytes(layout) <= usize::MAX,
        q.has_shape(config, layout),
    ensures
        q.is_read(q.wire(config) + rest, q.wire(config).len() as int, config, layout),
        q.is_seeded() ==> q.wire(config).len() == config.spec_query_bytes(layout),
{
    lemma_query_accepted(q, config, layout);
    let n = config.n as int;
    let size = spec_transmitted_limbs(config.k as int);
    let blocks0 = config.spec_src0_blocks(layout) as nat;
    let blocks1 = config.spec_src1_blocks(layout) as nat;
    let none = Seq::<u8>::empty();
    assert(none + q.wire(config) + rest =~= q.wire(config) + rest);
    match q {
        Query::Interpolation(x) => {
            interpolation_codec(n, size, blocks0).law_reads_back(none, x.content(), rest);
        },
        Query::Recursion(x) => {
            recursion_codec(n, size, blocks0, blocks1).law_reads_back(none, x.content(), rest);
        },
    }
}

/// A query that was read is written back as the bytes that it was read from.
pub proof fn law_query_writes_back<P: Payload<[u8; 32]>>(
    b: Seq<u8>,
    end: int,
    q: Query,
    config: Config<P>,
    layout: DatabaseLayout<P>,
)
    requires
        config.valid(),
        config.spec_query_bytes(layout) <= usize::MAX,
        q.has_shape(config, layout),
        q.is_read(b, end, config, layout),
    ensures
        end <= b.len(),
        b.subrange(0, end) == q.wire(config),
        q.is_seeded() ==> end == config.spec_query_bytes(layout),
{
    let n = config.n as int;
    let size = spec_transmitted_limbs(config.k as int);
    let blocks0 = config.spec_src0_blocks(layout) as nat;
    let blocks1 = config.spec_src1_blocks(layout) as nat;
    lemma_query_accepted(q, config, layout);
    match q {
        Query::Interpolation(x) => {
            interpolation_codec(n, size, blocks0).law_writes_back(b, 0, x.content(), end);
        },
        Query::Recursion(x) => {
            recursion_codec(n, size, blocks0, blocks1).law_writes_back(b, 0, x.content(), end);
        },
    }
}

proof fn lemma_declared(b: Seq<u8>, before: Seq<u8>, count: nat, after: Seq<u8>)
    requires
        count <= u64::MAX,
        b == before + le_bytes(count as int, 8) + after,
    ensures
        declared(b, before.len() as int) == count,
{
    law_u64_reads_back(before, count as u64, after);
}

/// Two lists behind their lengths, behind a tag.
proof fn lemma_two_counts(
    b: Seq<u8>,
    tag: Seq<u8>,
    count0: nat,
    body0: Seq<u8>,
    count1: nat,
    after: Seq<u8>,
)
    requires
        count0 <= u64::MAX,
        count1 <= u64::MAX,
        b == tag + (le_bytes(count0 as int, 8) + body0) + (le_bytes(count1 as int, 8) + after),
    ensures
        declared(b, tag.len() as int) == count0,
        declared(b, (tag.len() + (le_bytes(count0 as int, 8) + body0).len()) as int) == count1,
{
    let first = le_bytes(count0 as int, 8) + body0;
    let rest = body0 + (le_bytes(count1 as int, 8) + after);
    assert(b =~= tag + le_bytes(count0 as int, 8) + rest);
    lemma_declared(b, tag, count0, rest);
    assert(b =~= (tag + first) + le_bytes(count1 as int, 8) + after);
    lemma_declared(b, tag + first, count1, after);
}

/// An interpolation query is read with the count that it was written with.
proof fn lemma_free_interpolation(x: InterpolationQuery, n: int, size: int, rest: Seq<u8>)
    requires
        n * 1 * size >= 0,
        x.has_shape(n, size, x.blocks@.len() as int),
    ensures
        ({
            let c = interpolation_codec(n, size, x.blocks@.len());
            let b = c.write(x.content()) + rest;
            &&& declared(b, 1) == x.blocks@.len()
            &&& c.read(b, 0) == Parsed::Done(x.content(), c.write(x.content()).len() as int)
        }),
{
    let count = x.blocks.len() as nat;
    let c = interpolation_codec(n, size, count);
    let b = c.write(x.content()) + rest;
    let tag = seq![TAG_INTERPOLATION];
    let first = blocks_codec(n, size, count).write(blocks_view(x.blocks@));
    let body = encode_many(glwe_compressed_codec(n, size).enc, blocks_view(x.blocks@));
    let keys = auto_key_codec(n, size).write(x.key_g.content()) + (auto_key_codec(n, size).write(
        x.key_h.content(),
    ) + rows_codec(n, size, 6).write(x.root.content()));
    assert(c.write(x.content()) =~= tag + (first + keys));
    assert(first =~= le_bytes(count as int, 8) + body);
    assert(b =~= tag + le_bytes(count as int, 8) + (body + keys + rest));
    lemma_declared(b, tag, count, body + keys + rest);
    law_interpolation_codec(n, size, count);
    lemma_blocks_accepted(x.blocks@, n, size);
    lemma_auto_key_accepted(x.key_g, n, size);
    lemma_auto_key_accepted(x.key_h, n, size);
    assert(x.root.seeds@.len() == x.root.seeds.len());
    lemma_rows_accepted(x.root.seeds@, x.root.bodies@, n, size);
    assert(c.accepts(x.content()));
    let none = Seq::<u8>::empty();
    assert(none + c.write(x.content()) + rest =~= b);
    c.law_reads_back(none, x.content(), rest);
}

/// The counts of a recursion query are those that it was written with.
proof fn lemma_free_counts(x: RecursionQuery, n: int, size: int, rest: Seq<u8>)
    requires
        n * 1 * size >= 0,
        x.has_shape(n, size, x.src0@.len() as int, x.src1@.len() as int),
    ensures
        query_counts(
            recursion_codec(n, size, x.src0@.len(), x.src1@.len()).write(x.content()) + rest,
            n,
            size,
            None,
        ) == (x.src0@.len(), x.src1@.len()),
{
    let count0 = x.src0.len() as nat;
    let count1 = x.src1.len() as nat;
    let c = recursion_codec(n, size, count0, count1);
    let b = c.write(x.content()) + rest;
    let tag = seq![TAG_RECURSION];
    let first = blocks_codec(n, size, count0).write(blocks_view(x.src0@));
    let second = blocks_codec(n, size, count1).write(blocks_view(x.src1@));
    let body0 = encode_many(glwe_compressed_codec(n, size).enc, blocks_view(x.src0@));
    let body1 = encode_many(glwe_compressed_codec(n, size).enc, blocks_view(x.src1@));
    let k = key_codec(n, size);
    let keys = k.write(x.gamma0.content()) + (k.write(x.gamma1.content()) + k.write(
        x.gamma2.content(),
    ));
    let after = body1 + keys + rest;
    assert(first == le_bytes(count0 as int, 8) + body0);
    assert(second == le_bytes(count1 as int, 8) + body1);
    assert(c.write(x.content()) == tag + (first + (second + keys)));
    assert(b =~= tag + first + (le_bytes(count1 as int, 8) + after));
    lemma_two_counts(b, tag, count0, body0, count1, after);
    lemma_first_list(x.src0@, n, size, b, tag, le_bytes(count1 as int, 8) + after);
}

/// A list behind a tag is read.
proof fn lemma_first_list(
    list: Seq<GlweCompressed>,
    n: int,
    size: int,
    b: Seq<u8>,
    tag: Seq<u8>,
    after: Seq<u8>,
)
    requires
        n * 1 * size >= 0,
        blocks_have_shape(list, n, size),
        b == tag + blocks_codec(n, size, list.len()).write(blocks_view(list)) + after,
    ensures
        blocks_codec(n, size, list.len()).read(b, tag.len() as int) == Parsed::Done(
            blocks_view(list),
            (tag.len() + blocks_codec(n, size, list.len()).write(blocks_view(list)).len()) as int,
        ),
{
    let c = blocks_codec(n, size, list.len());
    lemma_blocks_accepted(list, n, size);
    lemma_blocks_codec(n, size, list.len());
    assert(c.accepts(blocks_view(list)));
    c.law_reads_back(tag, blocks_view(list), after);
}

/// A recursion query is read back.
proof fn lemma_free_recursion(x: RecursionQuery, n: int, size: int, rest: Seq<u8>)
    requires
        n * 1 * size >= 0,
        x.has_shape(n, size, x.src0@.len() as int, x.src1@.len() as int),
    ensures
        ({
            let c = recursion_codec(n, size, x.src0@.len(), x.src1@.len());
            c.read(c.write(x.content()) + rest, 0) == Parsed::Done(
                x.content(),
                c.write(x.content()).len() as int,
            )
        }),
{
    let count0 = x.src0@.len();
    let count1 = x.src1@.len();
    let c = recursion_codec(n, size, count0, count1);
    law_recursion_codec(n, size, count0, count1);
    lemma_blocks_accepted(x.src0@, n, size);
    lemma_blocks_accepted(x.src1@, n, size);
    lemma_auto_key_accepted(x.gamma0.key, n, size);
    lemma_auto_key_accepted(x.gamma1.key, n, size);
    lemma_auto_key_accepted(x.gamma2.key, n, size);
    assert(c.accepts(x.content()));
    let none = Seq::<u8>::empty();
    assert(none + c.write(x.content()) + rest =~= c.write(x.content()) + rest);
    c.law_reads_back(none, x.content(), rest);
}

/// A query of the construction that is not configured reads back as well, with as many
/// ciphertexts as it was written with.
pub proof fn law_other_query_reads_back<P: Payload<[u8; 32]>>(
    q: Query,
    config: Config<P>,
    layout: DatabaseLayout<P>,
    rest: Seq<u8>,
)
    requires
        config.valid(),
        config.spec_query_bytes(layout) <= usize::MAX,
        q.holds_ciphertexts(config),
        q.spec_kind() != config.collapse.spec_kind(),
    ensures
        q.is_read(q.wire(config) + rest, q.wire(config).len() as int, config, layout),
{
    let n = config.n as int;
    let size = spec_transmitted_limbs(config.k as int);
    lemma_machine_shape(config, layout);
    match q {
        Query::Interpolation(x) => {
            lemma_free_interpolation(x, n, size, rest);
        },
        Query::Recursion(x) => {
            lemma_free_counts(x, n, size, rest);
            lemma_free_recursion(x, n, size, rest);
        },
    }
}

/// What stands behind a literal is read only where the literal stands.
proof fn lemma_tagged<T>(tag: u8, c: Codec<T>, b: Seq<u8>)
    requires
        after_codec(seq![tag], c).read(b, 0) is Done,
    ensures
        b.len() >= 1,
        b[0] == tag,
{
    assert(expect(b, 0, seq![tag]) is Done);
    assert(b.subrange(0, 1)[0] == seq![tag][0]);
}

/// Bytes that are read as a query are not rejected, and are read as no other query.
pub proof fn law_query_is_read_or_rejected<P: Payload<[u8; 32]>>(
    b: Seq<u8>,
    q: Query,
    end: int,
    config: Config<P>,
    layout: DatabaseLayout<P>,
)
    requires
        q.is_read(b, end, config, layout),
    ensures
        forall|e: WireError| !Query::is_rejected(b, e, config, layout),
        forall|v: Query, other: int| #[trigger]
            v.is_read(b, other, config, layout) ==> other == end && match (q, v) {
                (Query::Interpolation(x), Query::Interpolation(y)) => x.content() == y.content(),
                (Query::Recursion(x), Query::Recursion(y)) => x.content() == y.content(),
                _ => false,
            },
{
    let n = config.n as int;
    let size = spec_transmitted_limbs(config.k as int);
    let count = Query::interpolation_count(b, config, layout);
    let counts = Query::recursion_counts(b, config, layout);
    let c = interpolation_codec(n, size, count);
    let d = recursion_codec(n, size, counts.0, counts.1);
    let key = auto_key_codec(n, size);
    let k = key_codec(n, size);
    let c_inner = pair_codec(
        blocks_codec(n, size, count),
        pair_codec(key, pair_codec(key, rows_codec(n, size, 6))),
    );
    let d_inner = pair_codec(
        blocks_codec(n, size, counts.0),
        pair_codec(blocks_codec(n, size, counts.1), pair_codec(k, pair_codec(k, k))),
    );
    if c.read(b, 0) is Done {
        lemma_tagged(TAG_INTERPOLATION, c_inner, b);
    }
    if d.read(b, 0) is Done {
        lemma_tagged(TAG_RECURSION, d_inner, b);
    }
}

/// A query of the construction that is not configured is written back as the bytes that it
/// was read from.
pub proof fn lemma_other_query_writes_back<P: Payload<[u8; 32]>>(
    b: Seq<u8>,
    end: int,
    q: Query,
    config: Config<P>,
    layout: DatabaseLayout<P>,
)
    requires
        config.valid(),
        config.spec_query_bytes(layout) <= usize::MAX,
        q.spec_kind() != config.collapse.spec_kind(),
        q.is_read(b, end, config, layout),
    ensures
        end <= b.len(),
        b.subrange(0, end) == q.wire(config),
{
    let n = config.n as int;
    let size = spec_transmitted_limbs(config.k as int);
    lemma_machine_shape(config, layout);
    match q {
        Query::Interpolation(x) => {
            let count = Query::interpolation_count(b, config, layout);
            let c = interpolation_codec(n, size, count);
            law_interpolation_codec(n, size, count);
            c.law_writes_back(b, 0, x.content(), end);
            assert(blocks_codec(n, size, count).accepts(blocks_view(x.blocks@)));
            assert(blocks_view(x.blocks@).len() == x.blocks@.len());
        },
        Query::Recursion(x) => {
            let counts = Query::recursion_counts(b, config, layout);
            let c = recursion_codec(n, size, counts.0, counts.1);
            law_recursion_codec(n, size, counts.0, counts.1);
            c.law_writes_back(b, 0, x.content(), end);
            assert(blocks_codec(n, size, counts.0).accepts(blocks_view(x.src0@)));
            assert(blocks_codec(n, size, counts.1).accepts(blocks_view(x.src1@)));
            assert(blocks_view(x.src0@).len() == x.src0@.len());
            assert(blocks_view(x.src1@).len() == x.src1@.len());
        },
    }
}

// ---------------------------------------------------------------------------
// Responses
// ---------------------------------------------------------------------------

impl Response {
    /// The response has the shape that the configuration asks for. Packed ciphertexts
    /// have 32 bits, which fit one limb.
    pub open spec fn has_shape<P: Payload<[u8; 32]>>(self, config: Config<P>) -> bool {
        let n = config.n as int;
        match self {
            Response::Interpolation(r) => config.collapse is Interpolation && has_limb_shape(
                r.selected,
                n,
                2,
                spec_transmitted_limbs(config.k as int),
            ),
            Response::Recursion(r) => config.collapse is Recursion && r.has_shape(
                n,
                spec_transmitted_limbs(32),
                config.spec_resp1_len(),
                config.spec_resp2_len(),
            ),
        }
    }

    /// The response's ciphertexts, however many, are those of the configured ring and
    /// precision.
    pub open spec fn holds_ciphertexts<P: Payload<[u8; 32]>>(self, config: Config<P>) -> bool {
        let n = config.n as int;
        match self {
            Response::Interpolation(r) => has_limb_shape(
                r.selected,
                n,
                2,
                spec_transmitted_limbs(config.k as int),
            ),
            Response::Recursion(r) => r.has_shape(
                n,
                spec_transmitted_limbs(32),
                r.resp1@.len() as int,
                r.resp2@.len() as int,
            ),
        }
    }

    /// Bytes of the response.
    pub open spec fn wire<P: Payload<[u8; 32]>>(self, config: Config<P>) -> Seq<u8> {
        let n = config.n as int;
        match self {
            Response::Interpolation(r) => selected_codec(
                n,
                spec_transmitted_limbs(config.k as int),
            ).write(r.selected.data@),
            Response::Recursion(r) => recursion_response_codec(
                n,
                spec_transmitted_limbs(32),
                r.resp1@.len(),
                r.resp2@.len(),
            ).write(r.content()),
        }
    }

    /// Counts of a recursion response in the bytes: those of the configuration where that
    /// construction is configured, else those that its length words declare.
    pub open spec fn recursion_counts<P: Payload<[u8; 32]>>(b: Seq<u8>, config: Config<P>) -> (
        nat,
        nat,
    ) {
        response_counts(
            b,
            config.n as int,
            match config.collapse {
                Collapse::Interpolation => None,
                Collapse::Recursion { .. } => Some(
                    (config.spec_resp1_len() as nat, config.spec_resp2_len() as nat),
                ),
            },
        )
    }

    /// The bytes up to `end` are read as this response.
    pub open spec fn is_read<P: Payload<[u8; 32]>>(
        self,
        b: Seq<u8>,
        end: int,
        config: Config<P>,
    ) -> bool {
        let n = config.n as int;
        match self {
            Response::Interpolation(r) => selected_codec(
                n,
                spec_transmitted_limbs(config.k as int),
            ).read(b, 0) == Parsed::Done(r.selected.data@, end),
            Response::Recursion(r) => {
                let counts = Response::recursion_counts(b, config);
                recursion_response_codec(n, spec_transmitted_limbs(32), counts.0, counts.1).read(
                    b,
                    0,
                ) == Parsed::Done(r.content(), end)
            },
        }
    }

    /// Why the bytes are no response of the construction that their tag names.
    pub open spec fn is_rejected<P: Payload<[u8; 32]>>(
        b: Seq<u8>,
        e: WireError,
        config: Config<P>,
    ) -> bool {
        let n = config.n as int;
        if b.len() >= 1 && b[0] == TAG_RECURSION {
            let counts = Response::recursion_counts(b, config);
            fails_as(
                e,
                recursion_response_codec(n, spec_transmitted_limbs(32), counts.0, counts.1).read(
                    b,
                    0,
                ),
            )
        } else {
            fails_as(e, selected_codec(n, spec_transmitted_limbs(config.k as int)).read(b, 0))
        }
    }

    /// Whether the response has the shape that the parameters give it.
    pub fn fits<P: Payload<[u8; 32]>>(&self, params: &Parameters<P>) -> (r: bool)
        requires
            params.wf(),
            params.params.spec_response_bytes() <= usize::MAX,
        ensures
            r == self.has_shape(params.params),
    {
        let n: usize = params.n();
        proof {
            lemma_response_machine_shape(params.params);
        }
        match (self, params.collapse()) {
            (Response::Interpolation(x), Collapse::Interpolation) => x.fits(
                n,
                params.size_at(TRANSMIT_BASE2K),
            ),
            (Response::Recursion(x), Collapse::Recursion { gamma0, gamma1, gamma2 }) => {
                let tau: usize = params.tau();
                let len1: usize = div_ceil(n * tau, gamma1);
                let len2: usize = div_ceil(gamma0 * tau, gamma2);
                x.fits(n, 1, len1, len2)
            },
            _ => false,
        }
    }

    /// Serializes the response.
    pub fn write_to<P: Payload<[u8; 32]>>(&self, params: &Parameters<P>) -> (r: Vec<u8>)
        requires
            params.wf(),
            params.params.n * 2 * spec_transmitted_limbs(params.params.k as int) * 8 <= usize::MAX,
            self.holds_ciphertexts(params.params),
        ensures
            r@ == self.wire(params.params),
    {
        let n: usize = params.n();
        proof {
            crate::parameters::lemma_wire_sizes(params.params.n as int, params.params.k as int);
            let limbs = spec_transmitted_limbs(params.params.k as int);
            assert(n * 2 * 1 * 8 <= n * 2 * limbs * 8) by (nonlinear_arith)
                requires
                    limbs >= 1,
                    n >= 0,
            ;
        }
        let mut out: Vec<u8> = Vec::new();
        match self {
            Response::Interpolation(r) => {
                out.push(TAG_INTERPOLATION);
                write_body(&mut out, &r.selected);
                assert(out@ =~= self.wire(params.params));
            },
            Response::Recursion(r) => {
                let ghost c1 = glwes_codec(n as int, 1, r.resp1@.len()).write(
                    bodies_view(r.resp1@),
                );
                let ghost c2 = glwes_codec(n as int, 1, r.resp2@.len()).write(
                    bodies_view(r.resp2@),
                );
                out.push(TAG_RECURSION);
                write_glwes(&mut out, &r.resp1, n, 1);
                write_glwes(&mut out, &r.resp2, n, 1);
                assert(out@ =~= seq![TAG_RECURSION] + (c1 + c2));
            },
        }
        out
    }

    /// Reads a response of the construction that its tag names from the front of `bytes`,
    /// and says where it ends. Of the configured construction it has the lengths that the
    /// configuration gives it; whether a client decodes one of the other construction, the
    /// client says.
    pub fn read_from<P: Payload<[u8; 32]>>(bytes: &[u8], params: &Parameters<P>) -> (r: Result<
        (Response, usize),
        WireError,
    >)
        requires
            params.wf(),
            params.params.spec_response_bytes() <= usize::MAX,
            params.params.n * 2 * spec_transmitted_limbs(params.params.k as int) * 8 <= usize::MAX,
        ensures
            match r {
                Ok((v, end)) => {
                    &&& v.is_read(bytes@, end as int, params.params)
                    &&& v.holds_ciphertexts(params.params)
                    &&& v.spec_kind() == params.params.collapse.spec_kind() ==> v.has_shape(
                        params.params,
                    )
                },
                Err(e) => Response::is_rejected(bytes@, e, params.params),
            },
    {
        let n: usize = params.n();
        proof {
            lemma_response_machine_shape(params.params);
            let limbs = spec_transmitted_limbs(params.params.k as int);
            assert(n * 2 * 1 * 8 <= n * 2 * limbs * 8) by (nonlinear_arith)
                requires
                    limbs >= 1,
                    n >= 0,
            ;
        }
        if bytes.len() >= 1 && bytes[0] == TAG_RECURSION {
            let expected: Option<(u64, u64)> = match params.collapse() {
                Collapse::Interpolation => None,
                Collapse::Recursion { gamma0, gamma1, gamma2 } => {
                    let tau: usize = params.tau();
                    let len1: usize = div_ceil(n * tau, gamma1);
                    let len2: usize = div_ceil(gamma0 * tau, gamma2);
                    Some((len1 as u64, len2 as u64))
                },
            };
            match read_recursion_response(bytes, n, expected) {
                Err(e) => Err(e),
                Ok((r, end)) => Ok((Response::Recursion(r), end)),
            }
        } else {
            let size: usize = params.size_at(TRANSMIT_BASE2K);
            match read_selected(bytes, n, size) {
                Err(e) => Err(e),
                Ok((selected, end)) => {
                    Ok((Response::Interpolation(InterpolationResponse { selected }), end))
                },
            }
        }
    }
}

fn read_selected(bytes: &[u8], n: usize, size: usize) -> (r: Result<(LimbVec, usize), WireError>)
    requires
        n * 2 * size * 8 <= usize::MAX,
        size >= 1,
    ensures
        match r {
            Ok((v, end)) => selected_codec(n as int, size as int).read(bytes@, 0) == Parsed::Done(
                v.data@,
                end as int,
            ) && has_limb_shape(v, n as int, 2, size as int),
            Err(e) => fails_as(e, selected_codec(n as int, size as int).read(bytes@, 0)),
        },
{
    let mut lit: Vec<u8> = Vec::new();
    lit.push(TAG_INTERPOLATION);
    assert(lit@ =~= seq![TAG_INTERPOLATION]);
    match expect_bytes(bytes, 0, &lit) {
        Err(e) => Err(e),
        Ok(at) => read_body(bytes, at, n, 2, size),
    }
}

/// The counts of a recursion response: those that are expected, else those that its length
/// words declare.
pub open spec fn response_counts(b: Seq<u8>, n: int, expected: Option<(nat, nat)>) -> (nat, nat) {
    match expected {
        Some(counts) => counts,
        None => (
            declared(b, 1),
            match glwes_codec(n, spec_transmitted_limbs(32), declared(b, 1)).read(b, 1) {
                Parsed::Done(_, end) => declared(b, end),
                _ => 0,
            },
        ),
    }
}

fn read_recursion_response(bytes: &[u8], n: usize, expected: Option<(u64, u64)>) -> (r: Result<
    (RecursionResponse, usize),
    WireError,
>)
    requires
        n * 2 * 1 * 8 <= usize::MAX,
        spec_transmitted_limbs(32) == 1,
    ensures
        ({
            let counts = response_counts(bytes@, n as int, counts_view(expected));
            let p = recursion_response_codec(n as int, 1, counts.0, counts.1).read(bytes@, 0);
            match r {
                Ok((v, end)) => p == Parsed::Done(v.content(), end as int) && v.has_shape(
                    n as int,
                    1,
                    counts.0 as int,
                    counts.1 as int,
                ),
                Err(e) => fails_as(e, p),
            }
        }),
{
    let mut lit: Vec<u8> = Vec::new();
    lit.push(TAG_RECURSION);
    assert(lit@ =~= seq![TAG_RECURSION]);
    let at: usize = match expect_bytes(bytes, 0, &lit) {
        Err(e) => {
            return Err(e);
        },
        Ok(x) => x,
    };
    let len1: u64 = match expected {
        Some((x, _)) => x,
        None => declared_count(bytes, at),
    };
    let (resp1, mid): (Vec<LimbVec>, usize) = match read_glwes(bytes, at, n, 1, len1) {
        Err(e) => {
            return Err(e);
        },
        Ok(x) => x,
    };
    let len2: u64 = match expected {
        Some((_, x)) => x,
        None => declared_count(bytes, mid),
    };
    match read_glwes(bytes, mid, n, 1, len2) {
        Err(e) => Err(e),
        Ok((resp2, end)) => Ok((RecursionResponse { resp1, resp2 }, end)),
    }
}

proof fn lemma_response_machine_shape<P: Payload<[u8; 32]>>(config: Config<P>)
    requires
        config.valid(),
        config.spec_response_bytes() <= usize::MAX,
    ensures
        config.n >= 4,
        spec_transmitted_limbs(32) == 1,
        spec_transmitted_limbs(config.k as int) >= 1,
        config.n * 2 * spec_transmitted_limbs(config.k as int) >= 0,
        config.n * 2 * 1 >= 0,
        config.collapse is Interpolation ==> config.n * 2 * spec_transmitted_limbs(config.k as int)
            * 8 <= usize::MAX,
        config.collapse is Recursion ==> config.n * 2 * 1 * 8 <= usize::MAX,
        config.spec_resp1_len() >= 0,
        config.spec_resp2_len() >= 0,
        spec_glwe_bytes(config.n as int, 32) == 44 + config.n * 2 * 1 * 8,
{
    config.lemma_response_parts();
    let n = config.n as int;
    let k = config.k as int;
    crate::parameters::lemma_wire_sizes(n, k);
    crate::parameters::lemma_wire_sizes(n, 32);
    let s = spec_transmitted_limbs(k);
    assert(n * 2 * s >= 0) by (nonlinear_arith)
        requires
            n >= 0,
            s >= 0,
    ;
    if config.collapse is Recursion {
        let a = config.spec_resp1_len();
        let b = config.spec_resp2_len();
        let c = spec_glwe_bytes(n, 32);
        assert(a * c >= c) by (nonlinear_arith)
            requires
                a >= 1,
                c >= 0,
        ;
        assert(b * c >= 0) by (nonlinear_arith)
            requires
                b >= 1,
                c >= 0,
        ;
    }
}

proof fn lemma_response_accepted<P: Payload<[u8; 32]>>(v: Response, config: Config<P>)
    requires
        config.valid(),
        config.spec_response_bytes() <= usize::MAX,
        v.has_shape(config),
    ensures
        ({
            let n = config.n as int;
            let len = config.spec_response_bytes();
            match v {
                Response::Interpolation(r) => {
                    let c = selected_codec(n, spec_transmitted_limbs(config.k as int));
                    c.accepts(r.selected.data@) && c.consistent(len)
                },
                Response::Recursion(r) => {
                    let c = recursion_response_codec(
                        n,
                        spec_transmitted_limbs(32),
                        config.spec_resp1_len() as nat,
                        config.spec_resp2_len() as nat,
                    );
                    c.accepts(r.content()) && c.consistent(len)
                },
            }
        }),
        v.wire(config).len() == config.spec_response_bytes(),
{
    let n = config.n as int;
    lemma_response_machine_shape(config);
    match v {
        Response::Interpolation(r) => {
            let size = spec_transmitted_limbs(config.k as int);
            law_selected_codec(n, size);
            lemma_body_accepted(r.selected, n, 2, size);
            assert(selected_codec(n, size).accepts(r.selected.data@));
        },
        Response::Recursion(r) => {
            let len1 = config.spec_resp1_len() as nat;
            let len2 = config.spec_resp2_len() as nat;
            law_recursion_response_codec(n, 1, len1, len2);
            lemma_bodies_accepted(r.resp1@, n, 2, 1);
            lemma_bodies_accepted(r.resp2@, n, 2, 1);
            assert(recursion_response_codec(n, 1, len1, len2).accepts(r.content()));
        },
    }
}

/// A written response reads back, whatever follows it, and ends where its size says.
pub proof fn law_response_reads_back<P: Payload<[u8; 32]>>(
    v: Response,
    config: Config<P>,
    rest: Seq<u8>,
)
    requires
        config.valid(),
        config.spec_response_bytes() <= usize::MAX,
        v.has_shape(config),
    ensures
        v.wire(config).len() == config.spec_response_bytes(),
        v.is_read(v.wire(config) + rest, config.spec_response_bytes(), config),
{
    lemma_response_accepted(v, config);
    let n = config.n as int;
    let len = config.spec_response_bytes();
    let none = Seq::<u8>::empty();
    assert(none + v.wire(config) + rest =~= v.wire(config) + rest);
    match v {
        Response::Interpolation(r) => {
            let c = selected_codec(n, spec_transmitted_limbs(config.k as int));
            c.law_reads_back(none, r.selected.data@, rest);
        },
        Response::Recursion(r) => {
            let c = recursion_response_codec(
                n,
                spec_transmitted_limbs(32),
                config.spec_resp1_len() as nat,
                config.spec_resp2_len() as nat,
            );
            c.law_reads_back(none, r.content(), rest);
        },
    }
}

/// A recursion response is read with the counts that it was written with.
proof fn lemma_free_response(r: RecursionResponse, n: int, rest: Seq<u8>)
    requires
        n * 2 * 1 >= 0,
        spec_transmitted_limbs(32) == 1,
        r.has_shape(n, 1, r.resp1@.len() as int, r.resp2@.len() as int),
    ensures
        ({
            let c = recursion_response_codec(n, 1, r.resp1@.len(), r.resp2@.len());
            let b = c.write(r.content()) + rest;
            &&& response_counts(b, n, None) == (r.resp1@.len(), r.resp2@.len())
            &&& c.read(b, 0) == Parsed::Done(r.content(), c.write(r.content()).len() as int)
        }),
{
    let count1 = r.resp1.len() as nat;
    let count2 = r.resp2.len() as nat;
    let c = recursion_response_codec(n, 1, count1, count2);
    let b = c.write(r.content()) + rest;
    let tag = seq![TAG_RECURSION];
    let c1 = glwes_codec(n, 1, count1);
    let c2 = glwes_codec(n, 1, count2);
    let first = c1.write(bodies_view(r.resp1@));
    let second = c2.write(bodies_view(r.resp2@));
    let body1 = encode_many(body_codec(n, 2, 1).enc, bodies_view(r.resp1@));
    let body2 = encode_many(body_codec(n, 2, 1).enc, bodies_view(r.resp2@));
    let l = 44 + n * 2 * 1 * 8;
    lemma_glwes_codec(n, 1, count1);
    law_recursion_response_codec(n, 1, count1, count2);
    lemma_bodies_accepted(r.resp1@, n, 2, 1);
    lemma_bodies_accepted(r.resp2@, n, 2, 1);
    assert(c1.accepts(bodies_view(r.resp1@)));
    assert(c.accepts(r.content()));
    assert(c.write(r.content()) =~= tag + (first + second));
    assert(first =~= le_bytes(count1 as int, 8) + body1);
    assert(second =~= le_bytes(count2 as int, 8) + body2);
    assert(b =~= tag + first + (le_bytes(count2 as int, 8) + (body2 + rest)));
    lemma_two_counts(b, tag, count1, body1, count2, body2 + rest);
    assert(b =~= tag + first + (second + rest));
    c1.law_reads_back(tag, bodies_view(r.resp1@), second + rest);
    assert(first.len() == 8 + count1 * l);
    let none = Seq::<u8>::empty();
    let len = 1 + 16 + count1 * l + count2 * l;
    assert(none + c.write(r.content()) + rest =~= b);
    c.law_reads_back(none, r.content(), rest);
    assert(c.write(r.content()).len() == len);
}

/// A response of the construction that is not configured reads back as well, with as many
/// ciphertexts as it was written with.
pub proof fn law_other_response_reads_back<P: Payload<[u8; 32]>>(
    v: Response,
    config: Config<P>,
    rest: Seq<u8>,
)
    requires
        config.valid(),
        config.spec_response_bytes() <= usize::MAX,
        v.holds_ciphertexts(config),
        v.spec_kind() != config.collapse.spec_kind(),
    ensures
        v.is_read(v.wire(config) + rest, v.wire(config).len() as int, config),
{
    let n = config.n as int;
    let none = Seq::<u8>::empty();
    let b = v.wire(config) + rest;
    lemma_response_machine_shape(config);
    assert(none + v.wire(config) + rest =~= b);
    match v {
        Response::Interpolation(r) => {
            let c = selected_codec(n, spec_transmitted_limbs(config.k as int));
            law_selected_codec(n, spec_transmitted_limbs(config.k as int));
            lemma_body_accepted(r.selected, n, 2, spec_transmitted_limbs(config.k as int));
            assert(c.accepts(r.selected.data@));
            let len = 1 + 44 + n * 2 * spec_transmitted_limbs(config.k as int) * 8;
            c.law_reads_back(none, r.selected.data@, rest);
            assert(c.write(r.selected.data@).len() == len);
        },
        Response::Recursion(r) => {
            lemma_free_response(r, n, rest);
        },
    }
}

/// A response that was read is written back as the bytes that it was read from.
pub proof fn law_response_writes_back<P: Payload<[u8; 32]>>(
    b: Seq<u8>,
    end: int,
    v: Response,
    config: Config<P>,
)
    requires
        config.valid(),
        config.spec_response_bytes() <= usize::MAX,
        v.has_shape(config),
        v.is_read(b, end, config),
    ensures
        end == config.spec_response_bytes(),
        end <= b.len(),
        b.subrange(0, end) == v.wire(config),
{
    let n = config.n as int;
    let len = config.spec_response_bytes();
    lemma_response_accepted(v, config);
    match v {
        Response::Interpolation(r) => {
            let size = spec_transmitted_limbs(config.k as int);
            selected_codec(n, size).law_writes_back(b, 0, r.selected.data@, end);
        },
        Response::Recursion(r) => {
            let len1 = config.spec_resp1_len() as nat;
            let len2 = config.spec_resp2_len() as nat;
            recursion_response_codec(n, 1, len1, len2).law_writes_back(
                b,
                0,
                r.content(),
                end,
            );
        },
    }
}

/// Bytes that are read as a response are not rejected, and are read as no other response.
pub proof fn law_response_is_read_or_rejected<P: Payload<[u8; 32]>>(
    b: Seq<u8>,
    v: Response,
    end: int,
    config: Config<P>,
)
    requires
        v.is_read(b, end, config),
    ensures
        forall|e: WireError| !Response::is_rejected(b, e, config),
        forall|w: Response, other: int| #[trigger]
            w.is_read(b, other, config) ==> other == end && match (v, w) {
                (Response::Interpolation(x), Response::Interpolation(y)) => x.selected.data@
                    == y.selected.data@,
                (Response::Recursion(x), Response::Recursion(y)) => x.content() == y.content(),
                _ => false,
            },
{
    let n = config.n as int;
    let size = spec_transmitted_limbs(config.k as int);
    let packed = spec_transmitted_limbs(32);
    let counts = Response::recursion_counts(b, config);
    let c = selected_codec(n, size);
    let d = recursion_response_codec(n, packed, counts.0, counts.1);
    if c.read(b, 0) is Done {
        lemma_tagged(TAG_INTERPOLATION, body_codec(n, 2, size), b);
    }
    if d.read(b, 0) is Done {
        lemma_tagged(
            TAG_RECURSION,
            pair_codec(glwes_codec(n, packed, counts.0), glwes_codec(n, packed, counts.1)),
            b,
        );
    }
}

/// A response of the construction that is not configured is written back as the bytes that
/// it was read from.
pub proof fn lemma_other_response_writes_back<P: Payload<[u8; 32]>>(
    b: Seq<u8>,
    end: int,
    v: Response,
    config: Config<P>,
)
    requires
        config.valid(),
        config.spec_response_bytes() <= usize::MAX,
        v.spec_kind() != config.collapse.spec_kind(),
        v.is_read(b, end, config),
    ensures
        end <= b.len(),
        b.subrange(0, end) == v.wire(config),
{
    let n = config.n as int;
    lemma_response_machine_shape(config);
    match v {
        Response::Interpolation(r) => {
            let size = spec_transmitted_limbs(config.k as int);
            law_selected_codec(n, size);
            let len = 1 + 44 + n * 2 * size * 8;
            assert(selected_codec(n, size).consistent(len));
            selected_codec(n, size).law_writes_back(b, 0, r.selected.data@, end);
        },
        Response::Recursion(r) => {
            let counts = Response::recursion_counts(b, config);
            let c = recursion_response_codec(n, 1, counts.0, counts.1);
            law_recursion_response_codec(n, 1, counts.0, counts.1);
            c.law_writes_back(b, 0, r.content(), end);
            assert(glwes_codec(n, 1, counts.0).accepts(bodies_view(r.resp1@)));
            assert(glwes_codec(n, 1, counts.1).accepts(bodies_view(r.resp2@)));
            assert(bodies_view(r.resp1@).len() == r.resp1@.len());
            assert(bodies_view(r.resp2@).len() == r.resp2@.len());
        },
    }
}

// ---------------------------------------------------------------------------
// Messages that are cut off
// ---------------------------------------------------------------------------

proof fn lemma_body_cut(n: int, cols: int, size: int)
    requires
        n * cols * size >= 0,
    ensures
        body_codec(n, cols, size).notices_cuts(),
        coeffs_codec(n, cols, size).notices_cuts(),
{
    lemma_word_codec();
    lemma_word_cut();
    lemma_many_cut(word_codec(), (n * cols * size) as nat);
    lemma_after_cut(body_header(n, cols, size), coeffs_codec(n, cols, size));
}

proof fn lemma_blocks_cut(n: int, size: int, count: nat)
    requires
        n * 1 * size >= 0,
    ensures
        blocks_codec(n, size, count).notices_cuts(),
{
    let coeffs = coeffs_codec(n, 1, size);
    let tail = after_codec(limb_header(n, 1, size), coeffs);
    let item = glwe_compressed_codec(n, size);
    lemma_body_cut(n, 1, size);
    lemma_after_cut(limb_header(n, 1, size), coeffs);
    lemma_bytes_codec(32);
    lemma_bytes_cut(32);
    lemma_pair_cut(bytes_codec(32), tail);
    lemma_after_cut(le_bytes(63, 4) + le_bytes(1, 4), pair_codec(bytes_codec(32), tail));
    lemma_glwe_compressed_codec(n, size);
    assert(item.consistent(80 + n * 1 * size * 8));
    lemma_many_cut(item, count);
    lemma_after_cut(le_bytes(count as int, 8), many_codec(item, count));
}

proof fn lemma_rows_cut(n: int, size: int, count: nat)
    requires
        n * 1 * size >= 0,
    ensures
        rows_codec(n, size, count).notices_cuts(),
{
    let body = body_codec(n, 1, size);
    lemma_bytes_codec(32);
    lemma_bytes_cut(32);
    lemma_listed_codec(bytes_codec(32), 32);
    lemma_listed_cut(bytes_codec(32));
    lemma_body_codec(n, 1, size);
    lemma_body_cut(n, 1, size);
    assert(body.consistent(44 + n * 1 * size * 8));
    lemma_many_cut(body, count);
    lemma_pair_cut(listed_codec(bytes_codec(32)), many_codec(body, count));
}

proof fn lemma_keys_cut(n: int, size: int)
    requires
        n * 1 * size >= 0,
    ensures
        auto_key_codec(n, size).notices_cuts(),
        key_codec(n, size).notices_cuts(),
{
    lemma_word_codec();
    lemma_word_cut();
    lemma_rows_cut(n, size, 3);
    lemma_pair_cut(word_codec(), rows_codec(n, size, 3));
    lemma_pair_cut(word_codec(), auto_key_codec(n, size));
}

/// A query that ends too early is rejected for that.
pub proof fn law_cut_query_is_rejected<P: Payload<[u8; 32]>>(
    q: Query,
    config: Config<P>,
    layout: DatabaseLayout<P>,
    m: int,
    e: WireError,
)
    requires
        config.valid(),
        config.spec_query_bytes(layout) <= usize::MAX,
        q.has_shape(config, layout),
        0 <= m < q.wire(config).len(),
    ensures
        Query::is_rejected(q.wire(config).subrange(0, m), e, config, layout) <==> e.kind
            is UnexpectedEof,
        forall|v: Query, end: int| !#[trigger]
            v.is_read(q.wire(config).subrange(0, m), end, config, layout),
{
    let n = config.n as int;
    let size = spec_transmitted_limbs(config.k as int);
    let blocks0 = config.spec_src0_blocks(layout) as nat;
    let blocks1 = config.spec_src1_blocks(layout) as nat;
    let b = q.wire(config).subrange(0, m);
    lemma_query_accepted(q, config, layout);
    lemma_machine_shape(config, layout);
    assert(b.subrange(0, b.len() as int) =~= q.wire(config).subrange(0, b.len() - 0));
    assert(cut_at(b, 0, q.wire(config)));
    let key = auto_key_codec(n, size);
    let k = key_codec(n, size);
    lemma_keys_cut(n, size);
    lemma_auto_key_codec(n, size);
    lemma_key_codec(n, size);
    match q {
        Query::Interpolation(x) => {
            let c = interpolation_codec(n, size, blocks0);
            let root = rows_codec(n, size, 6);
            let list = blocks_codec(n, size, blocks0);
            lemma_rows_cut(n, size, 6);
            lemma_blocks_codec(n, size, blocks0);
            assert(list.consistent(blocks_bytes(n, size, blocks0)));
            lemma_blocks_cut(n, size, blocks0);
            lemma_pair_cut(key, root);
            lemma_pair_cut(key, pair_codec(key, root));
            let keys = pair_codec(key, pair_codec(key, root));
            lemma_pair_cut(list, keys);
            lemma_after_cut(seq![TAG_INTERPOLATION], pair_codec(list, keys));
            assert(notices(c, b, 0, x.content()));
            assert(m >= 1 ==> q.wire(config)[0] == TAG_INTERPOLATION);
            assert(m >= 1 ==> b[0] == TAG_INTERPOLATION);
        },
        Query::Recursion(x) => {
            let c = recursion_codec(n, size, blocks0, blocks1);
            let first = blocks_codec(n, size, blocks0);
            let second = blocks_codec(n, size, blocks1);
            lemma_blocks_codec(n, size, blocks0);
            lemma_blocks_codec(n, size, blocks1);
            assert(first.consistent(blocks_bytes(n, size, blocks0)));
            assert(second.consistent(blocks_bytes(n, size, blocks1)));
            lemma_blocks_cut(n, size, blocks0);
            lemma_blocks_cut(n, size, blocks1);
            lemma_pair_cut(k, k);
            lemma_pair_cut(k, pair_codec(k, k));
            let keys = pair_codec(k, pair_codec(k, k));
            lemma_pair_cut(second, keys);
            lemma_pair_cut(first, pair_codec(second, keys));
            lemma_after_cut(seq![TAG_RECURSION], pair_codec(first, pair_codec(second, keys)));
            assert(notices(c, b, 0, x.content()));
            assert(m >= 1 ==> q.wire(config)[0] == TAG_RECURSION);
            assert(m >= 1 ==> b[0] == TAG_RECURSION);
        },
    }
    let eof = WireError { kind: WireErrorKind::UnexpectedEof };
    assert(Query::is_rejected(b, eof, config, layout));
    assert forall|v: Query, end: int| !#[trigger] v.is_read(b, end, config, layout) by {
        if v.is_read(b, end, config, layout) {
            law_query_is_read_or_rejected(b, v, end, config, layout);
            assert(!Query::is_rejected(b, eof, config, layout));
        }
    }
}

/// A response that ends too early is rejected for that.
pub proof fn law_cut_response_is_rejected<P: Payload<[u8; 32]>>(
    v: Response,
    config: Config<P>,
    m: int,
    e: WireError,
)
    requires
        config.valid(),
        config.spec_response_bytes() <= usize::MAX,
        v.has_shape(config),
        0 <= m < v.wire(config).len(),
    ensures
        Response::is_rejected(v.wire(config).subrange(0, m), e, config) <==> e.kind
            is UnexpectedEof,
        forall|w: Response, end: int| !#[trigger]
            w.is_read(v.wire(config).subrange(0, m), end, config),
{
    let n = config.n as int;
    let b = v.wire(config).subrange(0, m);
    lemma_response_accepted(v, config);
    lemma_response_machine_shape(config);
    assert(b.subrange(0, b.len() as int) =~= v.wire(config).subrange(0, b.len() - 0));
    assert(cut_at(b, 0, v.wire(config)));
    match v {
        Response::Interpolation(r) => {
            let size = spec_transmitted_limbs(config.k as int);
            let c = selected_codec(n, size);
            lemma_body_cut(n, 2, size);
            lemma_after_cut(seq![TAG_INTERPOLATION], body_codec(n, 2, size));
            assert(notices(c, b, 0, r.selected.data@));
            assert(m >= 1 ==> v.wire(config)[0] == TAG_INTERPOLATION);
            assert(m >= 1 ==> b[0] == TAG_INTERPOLATION);
        },
        Response::Recursion(r) => {
            let len1 = config.spec_resp1_len() as nat;
            let len2 = config.spec_resp2_len() as nat;
            let c = recursion_response_codec(n, 1, len1, len2);
            let body = body_codec(n, 2, 1);
            let c1 = glwes_codec(n, 1, len1);
            let c2 = glwes_codec(n, 1, len2);
            let l = 44 + n * 2 * 1 * 8;
            lemma_body_codec(n, 2, 1);
            lemma_body_cut(n, 2, 1);
            assert(body.consistent(l));
            lemma_many_cut(body, len1);
            lemma_many_cut(body, len2);
            lemma_after_cut(le_bytes(len1 as int, 8), many_codec(body, len1));
            lemma_after_cut(le_bytes(len2 as int, 8), many_codec(body, len2));
            lemma_glwes_codec(n, 1, len1);
            assert(c1.consistent(8 + len1 * l));
            lemma_pair_cut(c1, c2);
            lemma_after_cut(seq![TAG_RECURSION], pair_codec(c1, c2));
            assert(notices(c, b, 0, r.content()));
            assert(m >= 1 ==> v.wire(config)[0] == TAG_RECURSION);
            assert(m >= 1 ==> b[0] == TAG_RECURSION);
        },
    }
    let eof = WireError { kind: WireErrorKind::UnexpectedEof };
    assert(Response::is_rejected(b, eof, config));
    assert forall|w: Response, end: int| !#[trigger] w.is_read(b, end, config) by {
        if w.is_read(b, end, config) {
            law_response_is_read_or_rejected(b, w, end, config);
            assert(!Response::is_rejected(b, eof, config));
        }
    }
}

} // verus!
