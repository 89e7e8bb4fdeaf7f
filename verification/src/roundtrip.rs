//! Messages on their way: what one side writes, the other side reads.
//!
//! The laws here speak of the calls on both ends, and of the messages field by field.

use vstd::prelude::*;
use vstd::arithmetic::div_mod::lemma_div_pos_is_pos;
use crate::arith::{just_enough, lemma_just_enough};
use crate::bytes::{le_bytes, le_value, lemma_u64_fits};
use crate::codec::{bytes_codec, word_codec};
use crate::config::{Collapse, Config};
use crate::database::DatabaseLayout;
use crate::limbs::LimbVec;
use crate::messages::{
    blocks_have_shape, blocks_view, bodies_have_shape, bodies_view, has_limb_shape, seeds_view,
    AutoKey, CompressedKey, GgswCompressed, GlweCompressed, GlweView, InterpolationQuery, Query,
    RecursionQuery, Response,
};
use crate::parameters::{spec_transmitted_limbs, Parameters, QuerySize, ResponseSize};
use crate::payload::Payload;
use crate::serialization::{
    auto_key_codec, blocks_codec, body_codec, coeffs_codec, glwe_compressed_codec, key_codec,
    law_cut_query_is_rejected, law_cut_response_is_rejected, law_other_query_reads_back,
    law_other_response_reads_back, law_query_is_read_or_rejected, law_query_reads_back,
    law_query_writes_back, law_response_is_read_or_rejected, law_response_reads_back,
    law_response_writes_back, lemma_other_query_writes_back, lemma_other_response_writes_back,
    limb_header, rows_codec, TAG_INTERPOLATION, TAG_RECURSION,
};
use crate::wire::{encode_many, expect, Parsed, WireError, WireErrorKind};

verus! {

// ---------------------------------------------------------------------------
// Shapes
// ---------------------------------------------------------------------------

/// Polynomials of degree below `n` with `bits` bits, in limbs of 63 bits.
pub open spec fn is_transmitted(v: LimbVec, n: int, cols: int, bits: int) -> bool {
    &&& v.n == n
    &&& v.cols == cols
    &&& just_enough(v.size as int, 63, bits)
    &&& v.data@.len() == n * cols * v.size
}

pub open spec fn all_transmitted(s: Seq<LimbVec>, n: int, cols: int, bits: int) -> bool {
    forall|i: int| 0 <= i < s.len() ==> is_transmitted(#[trigger] s[i], n, cols, bits)
}

pub open spec fn blocks_transmitted(s: Seq<GlweCompressed>, n: int, bits: int) -> bool {
    forall|i: int| 0 <= i < s.len() ==> is_transmitted((#[trigger] s[i]).body, n, 1, bits)
}

/// The query's ciphertexts have `n` coefficients of `bits` bits, keys have three rows, and
/// the root has three rows of two columns.
pub open spec fn query_transmitted(q: Query, n: int, bits: int) -> bool {
    match q {
        Query::Interpolation(x) => {
            &&& blocks_transmitted(x.blocks@, n, bits)
            &&& x.key_g.bodies@.len() == 3 && all_transmitted(x.key_g.bodies@, n, 1, bits)
            &&& x.key_h.bodies@.len() == 3 && all_transmitted(x.key_h.bodies@, n, 1, bits)
            &&& x.root.bodies@.len() == 6 && all_transmitted(x.root.bodies@, n, 1, bits)
        },
        Query::Recursion(x) => {
            &&& blocks_transmitted(x.src0@, n, bits)
            &&& blocks_transmitted(x.src1@, n, bits)
            &&& x.gamma0.key.bodies@.len() == 3 && all_transmitted(
                x.gamma0.key.bodies@,
                n,
                1,
                bits,
            )
            &&& x.gamma1.key.bodies@.len() == 3 && all_transmitted(
                x.gamma1.key.bodies@,
                n,
                1,
                bits,
            )
            &&& x.gamma2.key.bodies@.len() == 3 && all_transmitted(
                x.gamma2.key.bodies@,
                n,
                1,
                bits,
            )
        },
    }
}

/// A query of the configured construction: one block per `n` columns, and in a recursion
/// query one more per `n` batches of `gamma0` rows.
pub open spec fn is_query_for<P: Payload<[u8; 32]>>(
    q: Query,
    config: Config<P>,
    layout: DatabaseLayout<P>,
) -> bool {
    &&& query_transmitted(q, config.n as int, config.k as int)
    &&& match (q, config.collapse) {
        (Query::Interpolation(x), Collapse::Interpolation) => just_enough(
            x.blocks@.len() as int,
            config.n as int,
            layout.cols as int,
        ),
        (Query::Recursion(x), Collapse::Recursion { gamma0, .. }) => {
            &&& just_enough(x.src0@.len() as int, config.n as int, layout.cols as int)
            &&& just_enough(
                x.src1@.len() as int,
                config.n as int,
                layout.rows as int / gamma0 as int,
            )
        },
        _ => false,
    }
}

/// A query of the construction that is not configured, of whatever lengths.
pub open spec fn is_query_of_other<P: Payload<[u8; 32]>>(q: Query, config: Config<P>) -> bool {
    &&& query_transmitted(q, config.n as int, config.k as int)
    &&& (q is Interpolation <==> config.collapse is Recursion)
}

/// The response's ciphertexts have `n` coefficients, of `bits` bits where one was selected
/// and of 32 bits where they were packed.
pub open spec fn response_transmitted(v: Response, n: int, bits: int) -> bool {
    match v {
        Response::Interpolation(x) => is_transmitted(x.selected, n, 2, bits),
        Response::Recursion(x) => {
            &&& all_transmitted(x.resp1@, n, 2, 32)
            &&& all_transmitted(x.resp2@, n, 2, 32)
        },
    }
}

/// A response of the configured construction. In a recursion response the two digits of
/// `n` mask coefficients stand in packs of `gamma1`, and those of `gamma0` body coefficients
/// in packs of `gamma2`.
pub open spec fn is_response_for<P: Payload<[u8; 32]>>(v: Response, config: Config<P>) -> bool {
    &&& response_transmitted(v, config.n as int, config.k as int)
    &&& match (v, config.collapse) {
        (Response::Interpolation(_), Collapse::Interpolation) => true,
        (Response::Recursion(x), Collapse::Recursion { gamma0, gamma1, gamma2 }) => {
            &&& just_enough(x.resp1@.len() as int, gamma1 as int, 2 * config.n)
            &&& just_enough(x.resp2@.len() as int, gamma2 as int, 2 * gamma0)
        },
        _ => false,
    }
}

/// A response of the construction that is not configured, of whatever lengths.
pub open spec fn is_response_of_other<P: Payload<[u8; 32]>>(v: Response, config: Config<P>) -> bool {
    &&& response_transmitted(v, config.n as int, config.k as int)
    &&& (v is Interpolation <==> config.collapse is Recursion)
}

// ---------------------------------------------------------------------------
// Equal messages
// ---------------------------------------------------------------------------

pub open spec fn same_limbs(a: LimbVec, b: LimbVec) -> bool {
    a.n == b.n && a.cols == b.cols && a.size == b.size && a.data@ == b.data@
}

pub open spec fn same_bodies(a: Seq<LimbVec>, b: Seq<LimbVec>) -> bool {
    a.len() == b.len() && forall|i: int|
        0 <= i < a.len() ==> same_limbs(#[trigger] a[i], b[i])
}

pub open spec fn same_seeds(a: Seq<[u8; 32]>, b: Seq<[u8; 32]>) -> bool {
    a.len() == b.len() && forall|i: int| 0 <= i < a.len() ==> (#[trigger] a[i])@ == b[i]@
}

pub open spec fn same_blocks(a: Seq<GlweCompressed>, b: Seq<GlweCompressed>) -> bool {
    a.len() == b.len() && forall|i: int|
        0 <= i < a.len() ==> (#[trigger] a[i]).seed@ == b[i].seed@ && same_limbs(
            a[i].body,
            b[i].body,
        )
}

pub open spec fn same_auto_key(a: AutoKey, b: AutoKey) -> bool {
    a.p == b.p && same_seeds(a.seeds@, b.seeds@) && same_bodies(a.bodies@, b.bodies@)
}

pub open spec fn same_key(a: CompressedKey, b: CompressedKey) -> bool {
    a.stride == b.stride && same_auto_key(a.key, b.key)
}

pub open spec fn same_ggsw(a: GgswCompressed, b: GgswCompressed) -> bool {
    same_seeds(a.seeds@, b.seeds@) && same_bodies(a.bodies@, b.bodies@)
}

/// The queries hold the same in every field.
pub open spec fn same_query(a: Query, b: Query) -> bool {
    match (a, b) {
        (Query::Interpolation(x), Query::Interpolation(y)) => {
            &&& same_blocks(x.blocks@, y.blocks@)
            &&& same_auto_key(x.key_g, y.key_g)
            &&& same_auto_key(x.key_h, y.key_h)
            &&& same_ggsw(x.root, y.root)
        },
        (Query::Recursion(x), Query::Recursion(y)) => {
            &&& same_blocks(x.src0@, y.src0@)
            &&& same_blocks(x.src1@, y.src1@)
            &&& same_key(x.gamma0, y.gamma0)
            &&& same_key(x.gamma1, y.gamma1)
            &&& same_key(x.gamma2, y.gamma2)
        },
        _ => false,
    }
}

/// The responses hold the same in every field.
pub open spec fn same_response(a: Response, b: Response) -> bool {
    match (a, b) {
        (Response::Interpolation(x), Response::Interpolation(y)) => same_limbs(
            x.selected,
            y.selected,
        ),
        (Response::Recursion(x), Response::Recursion(y)) => {
            &&& same_bodies(x.resp1@, y.resp1@)
            &&& same_bodies(x.resp2@, y.resp2@)
        },
        _ => false,
    }
}

proof fn lemma_same_bodies(a: Seq<LimbVec>, b: Seq<LimbVec>, n: int, cols: int, bits: int)
    requires
        bodies_view(a) == bodies_view(b),
        all_transmitted(a, n, cols, bits),
        all_transmitted(b, n, cols, bits),
    ensures
        same_bodies(a, b),
{
    assert(bodies_view(a).len() == a.len() && bodies_view(b).len() == b.len());
    assert forall|i: int| 0 <= i < a.len() implies same_limbs(#[trigger] a[i], b[i]) by {
        assert(bodies_view(a)[i] == bodies_view(b)[i]);
        assert(is_transmitted(a[i], n, cols, bits) && is_transmitted(b[i], n, cols, bits));
    }
}

proof fn lemma_same_blocks(a: Seq<GlweCompressed>, b: Seq<GlweCompressed>, n: int, bits: int)
    requires
        blocks_view(a) == blocks_view(b),
        blocks_transmitted(a, n, bits),
        blocks_transmitted(b, n, bits),
    ensures
        same_blocks(a, b),
{
    assert(blocks_view(a).len() == a.len() && blocks_view(b).len() == b.len());
    assert forall|i: int| 0 <= i < a.len() implies (#[trigger] a[i]).seed@ == b[i].seed@
        && same_limbs(a[i].body, b[i].body) by {
        assert(blocks_view(a)[i] == blocks_view(b)[i]);
        assert(is_transmitted(a[i].body, n, 1, bits) && is_transmitted(b[i].body, n, 1, bits));
    }
}

proof fn lemma_same_seeds(a: Seq<[u8; 32]>, b: Seq<[u8; 32]>)
    requires
        seeds_view(a) == seeds_view(b),
    ensures
        same_seeds(a, b),
{
    assert(seeds_view(a).len() == a.len() && seeds_view(b).len() == b.len());
    assert forall|i: int| 0 <= i < a.len() implies (#[trigger] a[i])@ == b[i]@ by {
        assert(seeds_view(a)[i] == seeds_view(b)[i]);
    }
}

proof fn lemma_same_auto_key(a: AutoKey, b: AutoKey, n: int, bits: int)
    requires
        a.content() == b.content(),
        all_transmitted(a.bodies@, n, 1, bits),
        all_transmitted(b.bodies@, n, 1, bits),
    ensures
        same_auto_key(a, b),
{
    lemma_same_seeds(a.seeds@, b.seeds@);
    lemma_same_bodies(a.bodies@, b.bodies@, n, 1, bits);
}

proof fn lemma_same_interpolation(a: InterpolationQuery, b: InterpolationQuery, n: int, bits: int)
    requires
        a.content() == b.content(),
        query_transmitted(Query::Interpolation(a), n, bits),
        query_transmitted(Query::Interpolation(b), n, bits),
    ensures
        same_query(Query::Interpolation(a), Query::Interpolation(b)),
{
    lemma_same_blocks(a.blocks@, b.blocks@, n, bits);
    lemma_same_auto_key(a.key_g, b.key_g, n, bits);
    lemma_same_auto_key(a.key_h, b.key_h, n, bits);
    lemma_same_seeds(a.root.seeds@, b.root.seeds@);
    lemma_same_bodies(a.root.bodies@, b.root.bodies@, n, 1, bits);
}

proof fn lemma_same_recursion(a: RecursionQuery, b: RecursionQuery, n: int, bits: int)
    requires
        a.content() == b.content(),
        query_transmitted(Query::Recursion(a), n, bits),
        query_transmitted(Query::Recursion(b), n, bits),
    ensures
        same_query(Query::Recursion(a), Query::Recursion(b)),
{
    lemma_same_blocks(a.src0@, b.src0@, n, bits);
    lemma_same_blocks(a.src1@, b.src1@, n, bits);
    lemma_same_auto_key(a.gamma0.key, b.gamma0.key, n, bits);
    lemma_same_auto_key(a.gamma1.key, b.gamma1.key, n, bits);
    lemma_same_auto_key(a.gamma2.key, b.gamma2.key, n, bits);
}

// ---------------------------------------------------------------------------
// Shapes of the format
// ---------------------------------------------------------------------------

proof fn lemma_transmitted(bits: int, size: int)
    requires
        bits >= 1,
    ensures
        just_enough(size, 63, bits) <==> size == spec_transmitted_limbs(bits),
{
    lemma_just_enough(size, 63, bits);
}

/// The two ways to say of what shape a query is agree.
proof fn lemma_query_shape<P: Payload<[u8; 32]>>(
    q: Query,
    config: Config<P>,
    layout: DatabaseLayout<P>,
)
    requires
        config.valid(),
    ensures
        query_transmitted(q, config.n as int, config.k as int) <==> q.holds_ciphertexts(config),
        is_query_for(q, config, layout) <==> q.has_shape(config, layout),
{
    let n = config.n as int;
    let k = config.k as int;
    let size = spec_transmitted_limbs(k);
    assert forall|s: int| just_enough(s, 63, k) <==> s == size by {
        lemma_transmitted(k, s);
    }
    match q {
        Query::Interpolation(x) => {
            lemma_just_enough(x.blocks@.len() as int, n, layout.cols as int);
            lemma_blocks_shape(x.blocks@, n, k);
            lemma_bodies_shape(x.key_g.bodies@, n, 1, k);
            lemma_bodies_shape(x.key_h.bodies@, n, 1, k);
            lemma_bodies_shape(x.root.bodies@, n, 1, k);
        },
        Query::Recursion(x) => {
            lemma_just_enough(x.src0@.len() as int, n, layout.cols as int);
            match config.collapse {
                Collapse::Recursion { gamma0, .. } => {
                    let t = layout.rows as int / gamma0 as int;
                    lemma_div_pos_is_pos(
                        layout.rows as int,
                        gamma0 as int,
                    );
                    lemma_just_enough(x.src1@.len() as int, n, t);
                },
                _ => {},
            }
            lemma_blocks_shape(x.src0@, n, k);
            lemma_blocks_shape(x.src1@, n, k);
            lemma_bodies_shape(x.gamma0.key.bodies@, n, 1, k);
            lemma_bodies_shape(x.gamma1.key.bodies@, n, 1, k);
            lemma_bodies_shape(x.gamma2.key.bodies@, n, 1, k);
        },
    }
}

proof fn lemma_bodies_shape(s: Seq<LimbVec>, n: int, cols: int, bits: int)
    requires
        bits >= 1,
    ensures
        all_transmitted(s, n, cols, bits) <==> bodies_have_shape(
            s,
            n,
            cols,
            spec_transmitted_limbs(bits),
        ),
{
    let size = spec_transmitted_limbs(bits);
    assert forall|i: int| 0 <= i < s.len() implies (is_transmitted(#[trigger] s[i], n, cols, bits)
        <==> has_limb_shape(s[i], n, cols, size)) by {
        lemma_transmitted(bits, s[i].size as int);
    }
    if bodies_have_shape(s, n, cols, size) {
        assert forall|i: int| 0 <= i < s.len() implies is_transmitted(
            #[trigger] s[i],
            n,
            cols,
            bits,
        ) by {
            assert(has_limb_shape(s[i], n, cols, size));
        }
    }
    if all_transmitted(s, n, cols, bits) {
        assert forall|i: int| 0 <= i < s.len() implies has_limb_shape(
            #[trigger] s[i],
            n,
            cols,
            size,
        ) by {
            assert(is_transmitted(s[i], n, cols, bits));
        }
    }
}

proof fn lemma_blocks_shape(s: Seq<GlweCompressed>, n: int, bits: int)
    requires
        bits >= 1,
    ensures
        blocks_transmitted(s, n, bits) <==> blocks_have_shape(
            s,
            n,
            spec_transmitted_limbs(bits),
        ),
{
    let size = spec_transmitted_limbs(bits);
    assert forall|i: int| 0 <= i < s.len() implies (is_transmitted(
        (#[trigger] s[i]).body,
        n,
        1,
        bits,
    ) <==> has_limb_shape(s[i].body, n, 1, size)) by {
        lemma_transmitted(bits, s[i].body.size as int);
    }
    if blocks_have_shape(s, n, size) {
        assert forall|i: int| 0 <= i < s.len() implies is_transmitted(
            (#[trigger] s[i]).body,
            n,
            1,
            bits,
        ) by {
            assert(has_limb_shape(s[i].body, n, 1, size));
        }
    }
    if blocks_transmitted(s, n, bits) {
        assert forall|i: int| 0 <= i < s.len() implies has_limb_shape(
            (#[trigger] s[i]).body,
            n,
            1,
            size,
        ) by {
            assert(is_transmitted(s[i].body, n, 1, bits));
        }
    }
}

/// The two ways to say of what shape a response is agree.
proof fn lemma_response_shape<P: Payload<[u8; 32]>>(v: Response, config: Config<P>)
    requires
        config.valid(),
    ensures
        response_transmitted(v, config.n as int, config.k as int) <==> v.holds_ciphertexts(config),
        is_response_for(v, config) <==> v.has_shape(config),
{
    let n = config.n as int;
    let k = config.k as int;
    match v {
        Response::Interpolation(x) => {
            lemma_transmitted(k, x.selected.size as int);
        },
        Response::Recursion(x) => {
            lemma_bodies_shape(x.resp1@, n, 2, 32);
            lemma_bodies_shape(x.resp2@, n, 2, 32);
            match config.collapse {
                Collapse::Recursion { gamma0, gamma1, gamma2 } => {
                    lemma_just_enough(x.resp1@.len() as int, gamma1 as int, 2 * n);
                    lemma_just_enough(x.resp2@.len() as int, gamma2 as int, 2 * gamma0);
                },
                _ => {},
            }
        },
    }
}

// ---------------------------------------------------------------------------
// Queries
// ---------------------------------------------------------------------------

/// A server reads every query of its configuration and layout that a client wrote, with
/// whatever behind it: it reads what the client sent, in every field, and stops where the
/// query ends. No query is refused, however long.
pub proof fn law_written_query_is_read<P: Payload<[u8; 32]>>(
    q: &Query,
    params: &Parameters<P>,
    layout: DatabaseLayout<P>,
    written: Vec<u8>,
    bytes: &[u8],
    rest: Seq<u8>,
    r: Result<(Query, usize), WireError>,
)
    requires
        params.wf(),
        params.params.spec_query_bytes(layout) <= usize::MAX,
        is_query_for(*q, params.params, layout) || is_query_of_other(*q, params.params),
        call_ensures(Query::write_to::<P>, (q, params), written),
        bytes@ == written@ + rest,
        call_ensures(Query::read_from::<P>, (bytes, params, layout), r),
    ensures
        r matches Ok((v, end)) && same_query(*q, v) && end == written@.len(),
{
    let config = params.params;
    let n = config.n as int;
    let k = config.k as int;
    lemma_query_shape(*q, config, layout);
    if is_query_for(*q, config, layout) {
        law_query_reads_back(*q, config, layout, rest);
    } else {
        law_other_query_reads_back(*q, config, layout, rest);
    }
    assert(q.is_read(bytes@, written@.len() as int, config, layout));
    law_query_is_read_or_rejected(bytes@, *q, written@.len() as int, config, layout);
    match r {
        Ok((v, end)) => {
            assert(v.is_read(bytes@, end as int, config, layout));
            lemma_query_shape(v, config, layout);
            match (*q, v) {
                (Query::Interpolation(x), Query::Interpolation(y)) => {
                    lemma_same_interpolation(x, y, n, k);
                },
                (Query::Recursion(x), Query::Recursion(y)) => {
                    lemma_same_recursion(x, y, n, k);
                },
                _ => {},
            }
        },
        Err(_) => {},
    }
}

/// Whatever bytes a server takes for a query, a client writes for that query: the server
/// makes up nothing, and leaves nothing out.
pub proof fn law_read_query_was_written<P: Payload<[u8; 32]>>(
    bytes: &[u8],
    params: &Parameters<P>,
    layout: DatabaseLayout<P>,
    q: Query,
    end: usize,
    written: Vec<u8>,
)
    requires
        params.wf(),
        params.params.spec_query_bytes(layout) <= usize::MAX,
        call_ensures(
            Query::read_from::<P>,
            (bytes, params, layout),
            Ok::<(Query, usize), WireError>((q, end)),
        ),
        call_ensures(Query::write_to::<P>, (&q, params), written),
    ensures
        is_query_for(q, params.params, layout) || is_query_of_other(q, params.params),
        end <= bytes@.len(),
        written@ == bytes@.subrange(0, end as int),
{
    let config = params.params;
    lemma_query_shape(q, config, layout);
    if q.spec_kind() == config.collapse.spec_kind() {
        law_query_writes_back(bytes@, end as int, q, config, layout);
    } else {
        lemma_other_query_writes_back(bytes@, end as int, q, config, layout);
    }
}

/// The size that is reported for a query is the number of bytes that its client writes, if
/// every row has its seed.
pub proof fn law_query_size_is_written<P: Payload<[u8; 32]>>(
    q: &Query,
    params: &Parameters<P>,
    layout: DatabaseLayout<P>,
    written: Vec<u8>,
    size: QuerySize,
    total: usize,
)
    requires
        params.wf(),
        params.params.spec_query_bytes(layout) <= usize::MAX,
        is_query_for(*q, params.params, layout),
        match *q {
            Query::Interpolation(x) => {
                &&& x.key_g.seeds@.len() == 3
                &&& x.key_h.seeds@.len() == 3
                &&& x.root.seeds@.len() == 6
            },
            Query::Recursion(x) => {
                &&& x.gamma0.key.seeds@.len() == 3
                &&& x.gamma1.key.seeds@.len() == 3
                &&& x.gamma2.key.seeds@.len() == 3
            },
        },
        call_ensures(Query::write_to::<P>, (q, params), written),
        call_ensures(Config::<P>::query_size, (&params.params, layout), size),
        call_ensures(QuerySize::total_size, (&size,), total),
    ensures
        total == written@.len(),
{
    lemma_query_shape(*q, params.params, layout);
    law_query_reads_back(*q, params.params, layout, Seq::empty());
}

// ---------------------------------------------------------------------------
// Responses
// ---------------------------------------------------------------------------

/// A client reads every response of its configuration that a server wrote, with whatever
/// behind it: it reads what the server sent, in every field, and stops where the response
/// ends. No response is refused, however long.
pub proof fn law_written_response_is_read<P: Payload<[u8; 32]>>(
    v: &Response,
    params: &Parameters<P>,
    written: Vec<u8>,
    bytes: &[u8],
    rest: Seq<u8>,
    r: Result<(Response, usize), WireError>,
)
    requires
        params.wf(),
        params.params.spec_response_bytes() <= usize::MAX,
        is_response_for(*v, params.params) || is_response_of_other(*v, params.params),
        call_ensures(Response::write_to::<P>, (v, params), written),
        bytes@ == written@ + rest,
        call_ensures(Response::read_from::<P>, (bytes, params), r),
    ensures
        r matches Ok((w, end)) && same_response(*v, w) && end == written@.len(),
{
    let config = params.params;
    let n = config.n as int;
    let k = config.k as int;
    lemma_response_shape(*v, config);
    if is_response_for(*v, config) {
        law_response_reads_back(*v, config, rest);
    } else {
        law_other_response_reads_back(*v, config, rest);
    }
    assert(v.is_read(bytes@, written@.len() as int, config));
    law_response_is_read_or_rejected(bytes@, *v, written@.len() as int, config);
    match r {
        Ok((w, end)) => {
            assert(w.is_read(bytes@, end as int, config));
            lemma_response_shape(w, config);
            match (*v, w) {
                (Response::Interpolation(x), Response::Interpolation(y)) => {},
                (Response::Recursion(x), Response::Recursion(y)) => {
                    lemma_same_bodies(x.resp1@, y.resp1@, n, 2, 32);
                    lemma_same_bodies(x.resp2@, y.resp2@, n, 2, 32);
                },
                _ => {},
            }
        },
        Err(_) => {},
    }
}

/// Whatever bytes a client takes for a response, a server writes for that response: the
/// client makes up nothing, and leaves nothing out.
pub proof fn law_read_response_was_written<P: Payload<[u8; 32]>>(
    bytes: &[u8],
    params: &Parameters<P>,
    v: Response,
    end: usize,
    written: Vec<u8>,
)
    requires
        params.wf(),
        params.params.spec_response_bytes() <= usize::MAX,
        call_ensures(
            Response::read_from::<P>,
            (bytes, params),
            Ok::<(Response, usize), WireError>((v, end)),
        ),
        call_ensures(Response::write_to::<P>, (&v, params), written),
    ensures
        is_response_for(v, params.params) || is_response_of_other(v, params.params),
        end <= bytes@.len(),
        written@ == bytes@.subrange(0, end as int),
{
    let config = params.params;
    lemma_response_shape(v, config);
    if v.spec_kind() == config.collapse.spec_kind() {
        law_response_writes_back(bytes@, end as int, v, config);
    } else {
        lemma_other_response_writes_back(bytes@, end as int, v, config);
    }
}

/// The size that is reported for a response is the number of bytes that its server writes.
pub proof fn law_response_size_is_written<P: Payload<[u8; 32]>>(
    v: &Response,
    params: &Parameters<P>,
    layout: DatabaseLayout<P>,
    written: Vec<u8>,
    size: ResponseSize,
    total: usize,
)
    requires
        params.wf(),
        params.params.spec_response_bytes() <= usize::MAX,
        is_response_for(*v, params.params),
        call_ensures(Response::write_to::<P>, (v, params), written),
        call_ensures(Config::<P>::response_size, (&params.params, layout), size),
        call_ensures(ResponseSize::total_size, (&size,), total),
    ensures
        total == written@.len(),
{
    lemma_response_shape(*v, params.params);
    law_response_reads_back(*v, params.params, Seq::empty());
}

// ---------------------------------------------------------------------------
// Messages that are refused
// ---------------------------------------------------------------------------

/// A query that ends too early, wherever it is cut off, is refused for that and nothing
/// else.
pub proof fn law_cut_query_is_noticed<P: Payload<[u8; 32]>>(
    q: &Query,
    params: &Parameters<P>,
    layout: DatabaseLayout<P>,
    written: Vec<u8>,
    bytes: &[u8],
    r: Result<(Query, usize), WireError>,
)
    requires
        params.wf(),
        params.params.spec_query_bytes(layout) <= usize::MAX,
        is_query_for(*q, params.params, layout),
        call_ensures(Query::write_to::<P>, (q, params), written),
        bytes@.len() < written@.len(),
        bytes@ == written@.subrange(0, bytes@.len() as int),
        call_ensures(Query::read_from::<P>, (bytes, params, layout), r),
    ensures
        r matches Err(e) && e.kind is UnexpectedEof,
{
    lemma_query_shape(*q, params.params, layout);
    let e = match r {
        Err(e) => e,
        Ok(_) => WireError { kind: WireErrorKind::InvalidData },
    };
    law_cut_query_is_rejected(*q, params.params, layout, bytes@.len() as int, e);
    match r {
        Ok((v, end)) => {
            assert(v.is_read(bytes@, end as int, params.params, layout));
        },
        Err(_) => {},
    }
}

/// A response that ends too early, wherever it is cut off, is refused for that and nothing
/// else.
pub proof fn law_cut_response_is_noticed<P: Payload<[u8; 32]>>(
    v: &Response,
    params: &Parameters<P>,
    written: Vec<u8>,
    bytes: &[u8],
    r: Result<(Response, usize), WireError>,
)
    requires
        params.wf(),
        params.params.spec_response_bytes() <= usize::MAX,
        is_response_for(*v, params.params),
        call_ensures(Response::write_to::<P>, (v, params), written),
        bytes@.len() < written@.len(),
        bytes@ == written@.subrange(0, bytes@.len() as int),
        call_ensures(Response::read_from::<P>, (bytes, params), r),
    ensures
        r matches Err(e) && e.kind is UnexpectedEof,
{
    lemma_response_shape(*v, params.params);
    let e = match r {
        Err(e) => e,
        Ok(_) => WireError { kind: WireErrorKind::InvalidData },
    };
    law_cut_response_is_rejected(*v, params.params, bytes@.len() as int, e);
    match r {
        Ok((w, end)) => {
            assert(w.is_read(bytes@, end as int, params.params));
        },
        Err(_) => {},
    }
}

/// Bytes that begin with no tag are refused, as queries and as responses.
pub proof fn law_unknown_tags_are_refused<P: Payload<[u8; 32]>>(
    bytes: &[u8],
    params: &Parameters<P>,
    layout: DatabaseLayout<P>,
    query: Result<(Query, usize), WireError>,
    response: Result<(Response, usize), WireError>,
)
    requires
        bytes@.len() >= 1,
        bytes@[0] > 1,
        call_ensures(Query::read_from::<P>, (bytes, params, layout), query),
        call_ensures(Response::read_from::<P>, (bytes, params), response),
    ensures
        query matches Err(e) && e.kind is InvalidData,
        response matches Err(e) && e.kind is InvalidData,
{
    let tag = seq![TAG_INTERPOLATION];
    let other = seq![TAG_RECURSION];
    assert(bytes@.subrange(0, 1)[0] != tag[0]);
    assert(bytes@.subrange(0, 1)[0] != other[0]);
    assert(expect(bytes@, 0, tag) is Bad);
    assert(expect(bytes@, 0, other) is Bad);
}

/// A query of the configured construction that announces another number of blocks than the
/// layout has is refused at that number, whatever follows.
pub proof fn law_wrong_counts_are_refused<P: Payload<[u8; 32]>>(
    bytes: &[u8],
    params: &Parameters<P>,
    layout: DatabaseLayout<P>,
    blocks: u64,
    r: Result<(Query, usize), WireError>,
)
    requires
        params.wf(),
        params.params.spec_query_bytes(layout) <= usize::MAX,
        bytes@.len() >= 9,
        bytes@[0] == (if params.params.collapse is Interpolation { 0u8 } else { 1u8 }),
        just_enough(blocks as int, params.params.n as int, layout.cols as int),
        le_value(bytes@.subrange(1, 9)) != blocks,
        call_ensures(Query::read_from::<P>, (bytes, params, layout), r),
    ensures
        r matches Err(e) && e.kind is InvalidData,
{
    let n = params.params.n as int;
    lemma_just_enough(blocks as int, n, layout.cols as int);
    lemma_u64_fits(blocks);
    let tag = seq![bytes@[0]];
    assert(bytes@.subrange(0, 1) =~= tag);
    assert(expect(bytes@, 0, tag) == Parsed::Done((), 1));
    let lit = le_bytes(blocks as int, 8);
    assert(lit.len() == 8);
    assert(bytes@.subrange(1, 9) != lit);
    assert(expect(bytes@, 1, lit) is Bad);
    let bad = WireError { kind: WireErrorKind::InvalidData };
    assert(Query::is_rejected(bytes@, bad, params.params, layout));
    match r {
        Ok((q, end)) => {
            law_query_is_read_or_rejected(bytes@, q, end as int, params.params, layout);
            assert(!Query::is_rejected(bytes@, bad, params.params, layout));
        },
        Err(_) => {},
    }
}

/// Whether a message has the configured shape is found out, and so is whether its keys are
/// whole.
pub proof fn law_shapes_are_found_out<P: Payload<[u8; 32]>>(
    q: &Query,
    v: &Response,
    params: &Parameters<P>,
    layout: DatabaseLayout<P>,
    query_fits: bool,
    response_fits: bool,
)
    requires
        params.wf(),
        call_ensures(Query::fits::<P>, (q, params, layout), query_fits),
        call_ensures(Response::fits::<P>, (v, params), response_fits),
    ensures
        query_fits <==> is_query_for(*q, params.params, layout),
        response_fits <==> is_response_for(*v, params.params),
{
    lemma_query_shape(*q, params.params, layout);
    lemma_response_shape(*v, params.params);
}

/// A query is whole exactly where every row of its keys and of its root has a seed.
pub proof fn law_whole_queries_have_all_seeds(
    interpolation: &InterpolationQuery,
    recursion: &RecursionQuery,
    first: bool,
    second: bool,
)
    requires
        call_ensures(InterpolationQuery::seeded, (interpolation,), first),
        call_ensures(RecursionQuery::seeded, (recursion,), second),
    ensures
        first <==> {
            &&& interpolation.key_g.seeds@.len() == interpolation.key_g.bodies@.len()
            &&& interpolation.key_h.seeds@.len() == interpolation.key_h.bodies@.len()
            &&& interpolation.root.seeds@.len() == interpolation.root.bodies@.len()
        },
        second <==> {
            &&& recursion.gamma0.key.seeds@.len() == recursion.gamma0.key.bodies@.len()
            &&& recursion.gamma1.key.seeds@.len() == recursion.gamma1.key.bodies@.len()
            &&& recursion.gamma2.key.seeds@.len() == recursion.gamma2.key.bodies@.len()
        },
{
}

// ---------------------------------------------------------------------------
// The bytes of a message
// ---------------------------------------------------------------------------

/// The bytes of the parts, one after the other.
pub open spec fn in_a_row<T>(parts: Seq<T>, bytes: spec_fn(T) -> Seq<u8>) -> Seq<u8>
    decreases parts.len(),
{
    if parts.len() == 0 {
        Seq::empty()
    } else {
        in_a_row(parts.drop_last(), bytes) + bytes(parts.last())
    }
}

/// A signed word in two's complement, least significant byte first.
pub open spec fn signed_bytes(x: i64) -> Seq<u8> {
    le_bytes(if x < 0 { x + 0x1_0000_0000_0000_0000 } else { x as int }, 8)
}

/// Degree, columns, limbs, room for limbs and bytes of coefficients, then the coefficients.
pub open spec fn limb_vector_bytes(v: LimbVec) -> Seq<u8> {
    le_bytes(v.n as int, 8) + le_bytes(v.cols as int, 8) + le_bytes(v.size as int, 8) + le_bytes(
        v.size as int,
        8,
    ) + le_bytes(8 * v.data@.len() as int, 8) + in_a_row(v.data@, |x: i64| signed_bytes(x))
}

/// The limb width, then the polynomials.
pub open spec fn body_bytes(v: LimbVec) -> Seq<u8> {
    le_bytes(63, 4) + limb_vector_bytes(v)
}

/// Limb width and rank, the seed of the mask, then the body.
pub open spec fn block_bytes(x: GlweCompressed) -> Seq<u8> {
    le_bytes(63, 4) + le_bytes(1, 4) + x.seed@ + limb_vector_bytes(x.body)
}

/// The number of blocks, then the blocks.
pub open spec fn list_bytes(s: Seq<GlweCompressed>) -> Seq<u8> {
    le_bytes(s.len() as int, 8) + in_a_row(s, |x: GlweCompressed| block_bytes(x))
}

/// The number of seeds, the seeds, then the bodies of all rows.
pub open spec fn gadget_bytes(seeds: Seq<[u8; 32]>, bodies: Seq<LimbVec>) -> Seq<u8> {
    le_bytes(seeds.len() as int, 8) + in_a_row(seeds, |x: [u8; 32]| x@) + in_a_row(
        bodies,
        |v: LimbVec| body_bytes(v),
    )
}

/// The automorphism, then the gadget.
pub open spec fn auto_key_bytes(key: AutoKey) -> Seq<u8> {
    signed_bytes(key.p) + gadget_bytes(key.seeds@, key.bodies@)
}

/// The stride, then the automorphism key.
pub open spec fn packing_key_bytes(key: CompressedKey) -> Seq<u8> {
    signed_bytes(key.stride) + auto_key_bytes(key.key)
}

/// A tag, and the fields of the query in their order.
pub open spec fn query_bytes(q: Query) -> Seq<u8> {
    match q {
        Query::Interpolation(x) => seq![0u8] + list_bytes(x.blocks@) + auto_key_bytes(x.key_g)
            + auto_key_bytes(x.key_h) + gadget_bytes(x.root.seeds@, x.root.bodies@),
        Query::Recursion(x) => seq![1u8] + list_bytes(x.src0@) + list_bytes(x.src1@)
            + packing_key_bytes(x.gamma0) + packing_key_bytes(x.gamma1) + packing_key_bytes(
            x.gamma2,
        ),
    }
}

/// A tag, and the fields of the response in their order.
pub open spec fn response_bytes(v: Response) -> Seq<u8> {
    match v {
        Response::Interpolation(x) => seq![0u8] + body_bytes(x.selected),
        Response::Recursion(x) => seq![1u8] + (le_bytes(x.resp1@.len() as int, 8) + in_a_row(
            x.resp1@,
            |v: LimbVec| body_bytes(v),
        )) + (le_bytes(x.resp2@.len() as int, 8) + in_a_row(x.resp2@, |v: LimbVec| body_bytes(v))),
    }
}

proof fn lemma_words_in_a_row(data: Seq<i64>)
    ensures
        in_a_row(data, |x: i64| signed_bytes(x)) == encode_many(word_codec().enc, data),
    decreases data.len(),
{
    if data.len() > 0 {
        lemma_words_in_a_row(data.drop_last());
    }
}

proof fn lemma_limb_vector_bytes(v: LimbVec, n: int, cols: int, size: int)
    requires
        has_limb_shape(v, n, cols, size),
    ensures
        limb_vector_bytes(v) == limb_header(n, cols, size) + coeffs_codec(n, cols, size).write(
            v.data@,
        ),
        body_bytes(v) == body_codec(n, cols, size).write(v.data@),
{
    lemma_words_in_a_row(v.data@);
    assert(8 * v.data@.len() == n * cols * size * 8);
    assert(body_bytes(v) =~= body_codec(n, cols, size).write(v.data@));
}

proof fn lemma_bodies_in_a_row(s: Seq<LimbVec>, n: int, cols: int, size: int)
    requires
        bodies_have_shape(s, n, cols, size),
    ensures
        in_a_row(s, |v: LimbVec| body_bytes(v)) == encode_many(
            body_codec(n, cols, size).enc,
            bodies_view(s),
        ),
    decreases s.len(),
{
    let all = bodies_view(s);
    if s.len() > 0 {
        let t = s.drop_last();
        assert forall|i: int| 0 <= i < t.len() implies has_limb_shape(
            #[trigger] t[i],
            n,
            cols,
            size,
        ) by {
            assert(has_limb_shape(s[i], n, cols, size));
        }
        lemma_bodies_in_a_row(t, n, cols, size);
        assert(all.drop_last() =~= bodies_view(t));
        assert(has_limb_shape(s[s.len() - 1], n, cols, size));
        lemma_limb_vector_bytes(s.last(), n, cols, size);
        assert(all.last() == s.last().data@);
    } else {
        assert(all =~= Seq::<Seq<i64>>::empty());
    }
}

proof fn lemma_seeds_in_a_row(s: Seq<[u8; 32]>)
    ensures
        in_a_row(s, |x: [u8; 32]| x@) == encode_many(bytes_codec(32).enc, seeds_view(s)),
    decreases s.len(),
{
    let all = seeds_view(s);
    if s.len() > 0 {
        lemma_seeds_in_a_row(s.drop_last());
        assert(all.drop_last() =~= seeds_view(s.drop_last()));
        assert(all.last() == s.last()@);
    } else {
        assert(all =~= Seq::<Seq<u8>>::empty());
    }
}

proof fn lemma_blocks_in_a_row(s: Seq<GlweCompressed>, n: int, size: int)
    requires
        blocks_have_shape(s, n, size),
    ensures
        in_a_row(s, |x: GlweCompressed| block_bytes(x)) == encode_many(
            glwe_compressed_codec(n, size).enc,
            blocks_view(s),
        ),
    decreases s.len(),
{
    let all = blocks_view(s);
    if s.len() > 0 {
        let t = s.drop_last();
        assert forall|i: int| 0 <= i < t.len() implies has_limb_shape(
            (#[trigger] t[i]).body,
            n,
            1,
            size,
        ) by {
            assert(has_limb_shape(s[i].body, n, 1, size));
        }
        lemma_blocks_in_a_row(t, n, size);
        assert(all.drop_last() =~= blocks_view(t));
        assert(has_limb_shape(s[s.len() - 1].body, n, 1, size));
        lemma_limb_vector_bytes(s.last().body, n, 1, size);
        assert(all.last() == s.last().content());
        assert(block_bytes(s.last()) =~= glwe_compressed_codec(n, size).write(s.last().content()));
    } else {
        assert(all =~= Seq::<GlweView>::empty());
    }
}

proof fn lemma_list_bytes(s: Seq<GlweCompressed>, n: int, size: int)
    requires
        blocks_have_shape(s, n, size),
    ensures
        list_bytes(s) == blocks_codec(n, size, s.len()).write(blocks_view(s)),
{
    lemma_blocks_in_a_row(s, n, size);
}

proof fn lemma_gadget_bytes(seeds: Seq<[u8; 32]>, bodies: Seq<LimbVec>, n: int, size: int)
    requires
        bodies_have_shape(bodies, n, 1, size),
    ensures
        gadget_bytes(seeds, bodies) == rows_codec(n, size, bodies.len()).write(
            (seeds_view(seeds), bodies_view(bodies)),
        ),
{
    lemma_seeds_in_a_row(seeds);
    lemma_bodies_in_a_row(bodies, n, 1, size);
    assert(seeds_view(seeds).len() == seeds.len());
}

proof fn lemma_auto_key_bytes(key: AutoKey, n: int, size: int)
    requires
        key.has_shape(n, size),
    ensures
        auto_key_bytes(key) == auto_key_codec(n, size).write(key.content()),
{
    lemma_gadget_bytes(key.seeds@, key.bodies@, n, size);
}

/// What a client writes is a tag and the query's fields, in their order and with nothing
/// between them.
pub proof fn law_query_bytes<P: Payload<[u8; 32]>>(
    q: &Query,
    params: &Parameters<P>,
    written: Vec<u8>,
)
    requires
        params.wf(),
        query_transmitted(*q, params.params.n as int, params.params.k as int),
        call_ensures(Query::write_to::<P>, (q, params), written),
    ensures
        written@ == query_bytes(*q),
{
    let config = params.params;
    let n = config.n as int;
    let size = spec_transmitted_limbs(config.k as int);
    let layout = DatabaseLayout::<P> { rows: 1, cols: 1, _phantom: core::marker::PhantomData };
    lemma_query_shape(*q, config, layout);
    match *q {
        Query::Interpolation(x) => {
            let list = blocks_codec(n, size, x.blocks@.len());
            let key = auto_key_codec(n, size);
            let root = rows_codec(n, size, 6);
            lemma_list_bytes(x.blocks@, n, size);
            lemma_auto_key_bytes(x.key_g, n, size);
            lemma_auto_key_bytes(x.key_h, n, size);
            lemma_gadget_bytes(x.root.seeds@, x.root.bodies@, n, size);
            lemma_five_parts(
                seq![0u8],
                list.write(blocks_view(x.blocks@)),
                key.write(x.key_g.content()),
                key.write(x.key_h.content()),
                root.write(x.root.content()),
            );
        },
        Query::Recursion(x) => {
            let c0 = blocks_codec(n, size, x.src0@.len());
            let c1 = blocks_codec(n, size, x.src1@.len());
            let k = key_codec(n, size);
            lemma_list_bytes(x.src0@, n, size);
            lemma_list_bytes(x.src1@, n, size);
            lemma_auto_key_bytes(x.gamma0.key, n, size);
            lemma_auto_key_bytes(x.gamma1.key, n, size);
            lemma_auto_key_bytes(x.gamma2.key, n, size);
            assert(packing_key_bytes(x.gamma0) == k.write(x.gamma0.content()));
            assert(packing_key_bytes(x.gamma1) == k.write(x.gamma1.content()));
            assert(packing_key_bytes(x.gamma2) == k.write(x.gamma2.content()));
            lemma_five_parts(
                c0.write(blocks_view(x.src0@)),
                c1.write(blocks_view(x.src1@)),
                k.write(x.gamma0.content()),
                k.write(x.gamma1.content()),
                k.write(x.gamma2.content()),
            );
            lemma_behind_tag(
                seq![1u8],
                list_bytes(x.src0@),
                list_bytes(x.src1@),
                packing_key_bytes(x.gamma0),
                packing_key_bytes(x.gamma1),
                packing_key_bytes(x.gamma2),
            );
        },
    }
}

proof fn lemma_five_parts(a: Seq<u8>, b: Seq<u8>, c: Seq<u8>, d: Seq<u8>, e: Seq<u8>)
    ensures
        a + (b + (c + (d + e))) == a + b + c + d + e,
{
    assert(a + (b + (c + (d + e))) =~= a + b + c + d + e);
}

proof fn lemma_behind_tag(
    tag: Seq<u8>,
    a: Seq<u8>,
    b: Seq<u8>,
    c: Seq<u8>,
    d: Seq<u8>,
    e: Seq<u8>,
)
    ensures
        tag + (a + b + c + d + e) == tag + a + b + c + d + e,
{
    assert(tag + (a + b + c + d + e) =~= tag + a + b + c + d + e);
}

/// What a server writes is a tag and the response's fields, in their order and with nothing
/// between them.
pub proof fn law_response_bytes<P: Payload<[u8; 32]>>(
    v: &Response,
    params: &Parameters<P>,
    written: Vec<u8>,
)
    requires
        params.wf(),
        response_transmitted(*v, params.params.n as int, params.params.k as int),
        call_ensures(Response::write_to::<P>, (v, params), written),
    ensures
        written@ == response_bytes(*v),
{
    let config = params.params;
    let n = config.n as int;
    lemma_response_shape(*v, config);
    match *v {
        Response::Interpolation(x) => {
            lemma_limb_vector_bytes(x.selected, n, 2, spec_transmitted_limbs(config.k as int));
        },
        Response::Recursion(x) => {
            let size = spec_transmitted_limbs(32);
            lemma_bodies_in_a_row(x.resp1@, n, 2, size);
            lemma_bodies_in_a_row(x.resp2@, n, 2, size);
            assert(written@ =~= response_bytes(*v));
        },
    }
}

/// A recursion response that announces another number of ciphertexts than the configuration
/// has is refused at that number, whatever follows.
pub proof fn law_wrong_response_counts_are_refused<P: Payload<[u8; 32]>>(
    bytes: &[u8],
    params: &Parameters<P>,
    len1: u64,
    r: Result<(Response, usize), WireError>,
)
    requires
        params.wf(),
        params.params.spec_response_bytes() <= usize::MAX,
        bytes@.len() >= 9,
        bytes@[0] == 1,
        params.params.collapse matches Collapse::Recursion { gamma1, .. } && just_enough(
            len1 as int,
            gamma1 as int,
            2 * params.params.n,
        ),
        le_value(bytes@.subrange(1, 9)) != len1,
        call_ensures(Response::read_from::<P>, (bytes, params), r),
    ensures
        r matches Err(e) && e.kind is InvalidData,
{
    match params.params.collapse {
        Collapse::Recursion { gamma1, .. } => {
            lemma_just_enough(len1 as int, gamma1 as int, 2 * params.params.n);
        },
        _ => {},
    }
    lemma_u64_fits(len1);
    let tag = seq![bytes@[0]];
    assert(bytes@.subrange(0, 1) =~= tag);
    assert(expect(bytes@, 0, tag) == Parsed::Done((), 1));
    let lit = le_bytes(len1 as int, 8);
    assert(lit.len() == 8);
    assert(bytes@.subrange(1, 9) != lit);
    assert(expect(bytes@, 1, lit) is Bad);
    let bad = WireError { kind: WireErrorKind::InvalidData };
    assert(Response::is_rejected(bytes@, bad, params.params));
    match r {
        Ok((v, end)) => {
            law_response_is_read_or_rejected(bytes@, v, end as int, params.params);
            assert(!Response::is_rejected(bytes@, bad, params.params));
        },
        Err(_) => {},
    }
}

} // verus!
