use std::marker::PhantomData;

use poulpy_pir::bytes::write_u64;
use poulpy_pir::client::{Client, Response};
use poulpy_pir::config::{Collapse, Config, DEFAULT_BASE2K, DEFAULT_K};
use poulpy_pir::database::DatabaseLayout;
use poulpy_pir::error::PirError;
use poulpy_pir::limbs::LimbVec;
use poulpy_pir::messages::{
    AutoKey, CompressedKey, GgswCompressed, GlweCompressed, InterpolationQuery,
    InterpolationResponse, RecursionQuery, RecursionResponse,
};
use poulpy_pir::parameters::Parameters;
use poulpy_pir::payload::{Payload, U256P65535, U256P65536};
use poulpy_pir::server::{Query, Server};
use poulpy_pir::wire::{read_u64, WireErrorKind};

fn interpolation_config(n: usize) -> Config<U256P65535> {
    Config {
        n,
        base2k: DEFAULT_BASE2K,
        k: DEFAULT_K,
        collapse: Collapse::Interpolation,
        _phantom: PhantomData,
    }
}

fn recursion_config(n: usize) -> Config<U256P65536> {
    Config {
        n,
        base2k: DEFAULT_BASE2K,
        k: DEFAULT_K,
        collapse: Collapse::Recursion {
            gamma0: 32,
            gamma1: 32,
            gamma2: 16,
        },
        _phantom: PhantomData,
    }
}

#[test]
fn query_read_rejects_interpolation_length_mismatch_before_allocation() {
    let config = interpolation_config(64);
    let layout = DatabaseLayout::<U256P65535>::new(64, 64);
    let params = config.new();
    let mut bytes = Vec::new();
    bytes.push(0); // TAG_INTERPOLATION
    bytes.extend_from_slice(&u64::MAX.to_le_bytes());

    let Err(err) = Query::read_from(&bytes[..], &params, layout) else {
        panic!("malicious interpolation query length was accepted");
    };
    assert_eq!(err.kind(), WireErrorKind::InvalidData);
}

#[test]
fn query_read_rejects_recursion_length_mismatch_before_allocation() {
    let config = recursion_config(64);
    let layout = DatabaseLayout::<U256P65536>::new(64, 64);
    let params = config.new();
    let mut bytes = Vec::new();
    bytes.push(1); // TAG_RECURSION
    bytes.extend_from_slice(&u64::MAX.to_le_bytes());

    let Err(err) = Query::read_from(&bytes[..], &params, layout) else {
        panic!("malicious recursion query length was accepted");
    };
    assert_eq!(err.kind(), WireErrorKind::InvalidData);
}

#[test]
fn response_read_rejects_recursion_length_mismatch_before_allocation() {
    let config = recursion_config(64);
    let params = config.new();
    let mut bytes = Vec::new();
    bytes.push(1); // TAG_RECURSION
    bytes.extend_from_slice(&u64::MAX.to_le_bytes());

    let Err(err) = Response::read_from(&bytes[..], &params) else {
        panic!("malicious recursion response length was accepted");
    };
    assert_eq!(err.kind(), WireErrorKind::InvalidData);
}

/// A stream of distinct words of both signs.
struct Words(u64);

impl Words {
    fn next(&mut self) -> i64 {
        self.0 = self
            .0
            .wrapping_mul(6364136223846793005)
            .wrapping_add(1442695040888963407);
        (self.0 ^ (self.0 >> 31)) as i64
    }

    fn limbs(&mut self, n: usize, cols: usize, size: usize) -> LimbVec {
        let mut v = LimbVec::zeros(n, cols, size);
        for col in 0..cols {
            for limb in 0..size {
                for i in 0..n {
                    let w = self.next();
                    v.set(col, limb, i, w);
                }
            }
        }
        v.set(0, 0, 0, i64::MIN);
        v.set(0, 0, 1, -1);
        v
    }

    fn seed(&mut self) -> [u8; 32] {
        let mut s = [0u8; 32];
        for b in s.iter_mut() {
            *b = (self.next() >> 20) as u8;
        }
        s
    }

    fn block(&mut self, n: usize) -> GlweCompressed {
        GlweCompressed {
            seed: self.seed(),
            body: self.limbs(n, 1, 1),
        }
    }

    fn key(&mut self, n: usize, p: i64) -> AutoKey {
        AutoKey {
            p,
            seeds: (0..3).map(|_| self.seed()).collect(),
            bodies: (0..3).map(|_| self.limbs(n, 1, 1)).collect(),
        }
    }

    fn packing_key(&mut self, n: usize, stride: i64) -> CompressedKey {
        CompressedKey {
            stride,
            key: self.key(n, -625),
        }
    }

    fn interpolation_query(&mut self, n: usize, blocks: usize) -> Query {
        Query::Interpolation(InterpolationQuery {
            blocks: (0..blocks).map(|_| self.block(n)).collect(),
            key_g: self.key(n, 5),
            key_h: self.key(n, -1),
            root: GgswCompressed {
                seeds: (0..6).map(|_| self.seed()).collect(),
                bodies: (0..6).map(|_| self.limbs(n, 1, 1)).collect(),
            },
        })
    }

    fn recursion_query(&mut self, n: usize, blocks0: usize, blocks1: usize) -> Query {
        Query::Recursion(RecursionQuery {
            src0: (0..blocks0).map(|_| self.block(n)).collect(),
            src1: (0..blocks1).map(|_| self.block(n)).collect(),
            gamma0: self.packing_key(n, 1),
            gamma1: self.packing_key(n, 1),
            gamma2: self.packing_key(n, 2),
        })
    }
}

/// Serializes `query`, reads it back, and asserts that the bytes round-trip.
fn roundtrip_query<P: Payload<[u8; 32]>>(
    query: &Query,
    params: &Parameters<P>,
    layout: DatabaseLayout<P>,
) -> Query {
    assert!(query.fits(params, layout));
    let bytes = query.write_to(params);
    assert_eq!(bytes.len(), params.query_size(layout).total_size());
    let (decoded, end) = Query::read_from(&bytes, params, layout).expect("query read_from");
    assert_eq!(end, bytes.len());
    let again = decoded.write_to(params);
    assert_eq!(bytes, again, "query serialization is not stable");

    // What follows is left alone.
    let mut longer = bytes.clone();
    longer.extend_from_slice(&[1, 2, 3]);
    let (_, end) = Query::read_from(&longer, params, layout).expect("query read_from");
    assert_eq!(end, bytes.len());

    // Every prefix ends too early.
    for cut in [0, 1, 8, 9, 20, 60, bytes.len() / 2, bytes.len() - 1] {
        let err = Query::read_from(&bytes[..cut], params, layout).unwrap_err();
        assert_eq!(err.kind(), WireErrorKind::UnexpectedEof, "cut {cut}");
    }

    // Unknown tags and changed headers are rejected.
    for at in [0usize, 5, 9, 13, 49, 60] {
        let mut bad = bytes.clone();
        bad[at] ^= 0x40;
        let err = Query::read_from(&bad, params, layout).unwrap_err();
        assert_eq!(err.kind(), WireErrorKind::InvalidData, "byte {at}");
    }
    decoded
}

fn roundtrip_response<P: Payload<[u8; 32]>>(
    response: &Response,
    params: &Parameters<P>,
    layout: DatabaseLayout<P>,
) -> Response {
    assert!(response.fits(params));
    let bytes = response.write_to(params);
    assert_eq!(bytes.len(), params.response_size(layout).total_size());
    let (decoded, end) = Response::read_from(&bytes, params).expect("response read_from");
    assert_eq!(end, bytes.len());
    let again = decoded.write_to(params);
    assert_eq!(bytes, again, "response serialization is not stable");
    for cut in [0, 1, bytes.len() - 1] {
        let err = Response::read_from(&bytes[..cut], params).unwrap_err();
        assert_eq!(err.kind(), WireErrorKind::UnexpectedEof);
    }
    for tag in [2u8, 7, 255] {
        let mut bad = bytes.clone();
        bad[0] = tag;
        let err = Response::read_from(&bad, params).unwrap_err();
        assert_eq!(err.kind(), WireErrorKind::InvalidData);
    }
    decoded
}

#[test]
fn serialization_roundtrip_interpolation() {
    let config = interpolation_config(2048);
    let n = config.n();
    let layout = DatabaseLayout::<U256P65535>::new(8 * n, n);
    let params = config.new();
    let mut words = Words(1);
    let query = words.interpolation_query(n, 1);
    let back = roundtrip_query(&query, &params, layout);
    let (Query::Interpolation(a), Query::Interpolation(b)) = (&query, &back) else {
        panic!("the construction changed");
    };
    assert_eq!(a.blocks[0].seed, b.blocks[0].seed);
    assert_eq!(a.blocks[0].body.data, b.blocks[0].body.data);
    assert_eq!(a.key_g.p, b.key_g.p);
    assert_eq!(a.key_h.p, b.key_h.p);
    assert_eq!(a.key_h.seeds, b.key_h.seeds);
    assert_eq!(a.root.seeds, b.root.seeds);
    assert_eq!(a.root.bodies[5].data, b.root.bodies[5].data);

    let selected = words.limbs(n, 2, 1);
    let kept = selected.data.clone();
    let response = Response::Interpolation(InterpolationResponse::new(selected));
    let back = roundtrip_response(&response, &params, layout);
    let Response::Interpolation(r) = back else {
        panic!("the construction changed");
    };
    assert_eq!(r.selected().data, kept);
}

#[test]
fn serialization_roundtrip_recursion() {
    let config = recursion_config(64);
    let Collapse::Recursion { gamma0, .. } = config.collapse() else {
        panic!("test config must use Recursion");
    };
    let layout = DatabaseLayout::<U256P65536>::new(70 * gamma0, 70);
    let params = config.new();
    let mut words = Words(2);
    let query = words.recursion_query(64, 2, 2);
    let back = roundtrip_query(&query, &params, layout);
    let (Query::Recursion(a), Query::Recursion(b)) = (&query, &back) else {
        panic!("the construction changed");
    };
    assert_eq!(a.src1[1].seed, b.src1[1].seed);
    assert_eq!(a.src0[1].body.data, b.src0[1].body.data);
    assert_eq!(a.gamma2.stride, b.gamma2.stride);
    assert_eq!(a.gamma1.key.p, b.gamma1.key.p);
    assert_eq!(a.gamma1.key.bodies[2].data, b.gamma1.key.bodies[2].data);

    // 64 * 2 / 32 = 4 and 32 * 2 / 16 = 4 ciphertexts.
    let resp1: Vec<LimbVec> = (0..4).map(|_| words.limbs(64, 2, 1)).collect();
    let resp2: Vec<LimbVec> = (0..4).map(|_| words.limbs(64, 2, 1)).collect();
    let kept = resp2[3].data.clone();
    let response = Response::Recursion(RecursionResponse::new(resp1, resp2));
    let back = roundtrip_response(&response, &params, layout);
    let Response::Recursion(r) = back else {
        panic!("the construction changed");
    };
    assert_eq!(r.resp1().len(), 4);
    assert_eq!(r.resp2()[3].data, kept);
}

#[test]
fn messages_of_the_other_construction_are_left_to_the_responder() {
    let rec = recursion_config(64).new();
    let layout = DatabaseLayout::<U256P65536>::new(64, 64);
    let int = interpolation_config(64).new();
    let int_layout = DatabaseLayout::<U256P65535>::new(64, 64);
    let mut words = Words(3);
    let query = words.interpolation_query(64, 1);
    assert!(query.fits(&int, int_layout));
    assert!(!query.fits(&int, DatabaseLayout::new(64, 65)));
    assert!(!query.fits(&rec, layout));
    let response = Response::Interpolation(InterpolationResponse::new(words.limbs(64, 1, 1)));
    assert!(!response.fits(&int));
    let bytes = query.write_to(&int);
    // A query of two blocks is written, but this layout has one.
    let longer = words.interpolation_query(64, 2).write_to(&int);
    let err = Query::read_from(&longer, &int, int_layout).unwrap_err();
    assert_eq!(err.kind(), WireErrorKind::InvalidData);
    // The tag decides what is read, and the server refuses it.
    let (foreign, end) = Query::read_from(&bytes, &rec, layout).expect("query read_from");
    assert_eq!(end, bytes.len());
    assert_eq!(foreign.write_to(&rec), bytes);
    let server = Server::<U256P65536>::new(recursion_config(64), layout);
    assert!(matches!(
        server.try_respond(&foreign),
        Err(PirError::WrongQueryVariant { .. })
    ));
    // Counts of the other construction are those of the message.
    let (foreign, end) = Query::read_from(&longer, &rec, layout).expect("query read_from");
    assert_eq!(end, longer.len());
    assert_eq!(foreign.write_to(&rec), longer);
    let bytes = words.recursion_query(64, 3, 2).write_to(&rec);
    let (foreign, end) = Query::read_from(&bytes, &int, int_layout).expect("query read_from");
    assert_eq!(end, bytes.len());
    assert_eq!(foreign.write_to(&int), bytes);
    let err = Query::read_from(&bytes[..bytes.len() - 1], &int, int_layout).unwrap_err();
    assert_eq!(err.kind(), WireErrorKind::UnexpectedEof);
    let err = Query::read_from(&bytes, &rec, layout).unwrap_err();
    assert_eq!(err.kind(), WireErrorKind::InvalidData);
    let err = Query::read_from(&[0], &rec, layout).unwrap_err();
    assert_eq!(err.kind(), WireErrorKind::UnexpectedEof);
    let err = Query::read_from(&[2], &rec, layout).unwrap_err();
    assert_eq!(err.kind(), WireErrorKind::InvalidData);
    // Words that declare more than there is.
    let mut huge = vec![1u8];
    huge.extend_from_slice(&u64::MAX.to_le_bytes());
    let err = Query::read_from(&huge, &int, int_layout).unwrap_err();
    assert_eq!(err.kind(), WireErrorKind::UnexpectedEof);
    let err = Response::read_from(&huge, &int).unwrap_err();
    assert_eq!(err.kind(), WireErrorKind::UnexpectedEof);

    let answer = |words: &mut Words, count: usize| -> Vec<LimbVec> {
        (0..count).map(|_| words.limbs(64, 2, 1)).collect()
    };
    let response =
        Response::Recursion(RecursionResponse::new(answer(&mut words, 3), answer(&mut words, 1)));
    let bytes = response.write_to(&rec);
    let (foreign, end) = Response::read_from(&bytes, &int).expect("response read_from");
    assert_eq!(end, bytes.len());
    assert_eq!(foreign.write_to(&int), bytes);
    let err = Response::read_from(&bytes, &rec).unwrap_err();
    assert_eq!(err.kind(), WireErrorKind::InvalidData);
    let client = Client::<U256P65535>::new(interpolation_config(64), int_layout);
    let (_, state) = client.query(0);
    assert!(matches!(
        client.try_decode(&foreign, &state, &[]),
        Err(PirError::WrongResponseVariant { .. })
    ));
    let response = Response::Interpolation(InterpolationResponse::new(words.limbs(64, 2, 1)));
    let bytes = response.write_to(&int);
    let (foreign, end) = Response::read_from(&bytes, &rec).expect("response read_from");
    assert_eq!(end, bytes.len());
    assert_eq!(foreign.write_to(&rec), bytes);
}

/// A word is eight little-endian bytes; fewer end too early.
#[test]
fn words_read_back_or_end_too_early() {
    for v in [0u64, 1, 0x0102_0304_0506_0708, u64::MAX] {
        let mut buf = Vec::new();
        write_u64(&mut buf, v);
        assert_eq!(buf, v.to_le_bytes());
        buf.extend_from_slice(&[9, 9]);
        assert_eq!(read_u64(&buf, 0), Ok((v, 8)));
        for at in [3usize, 10, 11, usize::MAX] {
            let err = read_u64(&buf, at).unwrap_err();
            assert_eq!(err.kind(), WireErrorKind::UnexpectedEof);
        }
    }
    assert_eq!(
        read_u64(&[1, 2, 3, 4, 5, 6, 7], 0).unwrap_err().kind(),
        WireErrorKind::UnexpectedEof
    );
}

/// Wire sizes at the widths of the default ring, by component.
#[test]
fn measure_query_sizes_vs_table() {
    // One ciphertext with seed: 4 + 4 + 32 + 40 + 2048 * 8.
    let block = 80 + 16384;
    // One automorphism key: 8 + 8 + 3 seeds + 3 bodies.
    let key = 16 + 96 + 3 * (44 + 16384);
    for (cols, rows) in [
        (8192usize, 65536usize),
        (16384, 32768),
        (32768, 16384),
        (65536, 65536),
        (131072, 32768),
        (131072, 131072),
        (262144, 65536),
    ] {
        let layout = DatabaseLayout::<U256P65535>::new(rows, cols);
        let size = interpolation_config(2048).query_size(layout);
        assert_eq!(size.tag, 1);
        assert_eq!(size.length_prefixes, 8);
        assert_eq!(size.one_hot, cols / 2048 * block);
        assert_eq!(size.key_g, key);
        assert_eq!(size.key_h, key);
        assert_eq!(size.ggsw, 8 + 192 + 6 * (44 + 16384));
        assert_eq!(
            size.total_size(),
            9 + size.one_hot + 2 * key + size.ggsw
        );
    }
    for cols in [16384usize, 32768, 131072, 65536, 131072, 262144] {
        let gamma0 = 32;
        let layout = DatabaseLayout::<U256P65536>::new(cols * gamma0, cols);
        let mut config = recursion_config(2048);
        config.collapse = Collapse::Recursion {
            gamma0,
            gamma1: 1024,
            gamma2: 32,
        };
        let size = config.query_size(layout);
        assert_eq!(size.length_prefixes, 16);
        assert_eq!(size.src0_one_hot, cols / 2048 * block);
        assert_eq!(size.src1_one_hot, cols / 2048 * block);
        assert_eq!(size.key_gamma0, 8 + key);
        assert_eq!(size.total_size(), 17 + 2 * (cols / 2048) * block + 3 * (8 + key));
        let response = config.response_size(layout);
        // 4096 / 1024 = 4 and 64 / 32 = 2 ciphertexts of 44 + 2048 * 2 * 8 bytes.
        assert_eq!(response.resp1, 4 * (44 + 32768));
        assert_eq!(response.resp2, 2 * (44 + 32768));
        assert_eq!(response.total_size(), 17 + 6 * (44 + 32768));
    }
}

#[test]
fn measure_serialized_sizes() {
    let config = interpolation_config(2048);
    let layout = DatabaseLayout::<U256P65535>::new(2 * 2048, 2048);
    let params = config.new();
    let query = Words(4).interpolation_query(2048, 1);
    assert_eq!(
        query.write_to(&params).len(),
        config.query_size(layout).total_size()
    );
    let response = config.response_size(layout);
    assert_eq!(response.selected, 44 + 32768);
    assert_eq!(response.total_size(), 1 + 44 + 32768);

    let config = recursion_config(2048);
    let layout = DatabaseLayout::<U256P65536>::new(70 * 32, 70);
    let params = config.new();
    let query = Words(5).recursion_query(2048, 1, 1);
    assert_eq!(
        query.write_to(&params).len(),
        config.query_size(layout).total_size()
    );
}

/// Keys and selectors carry as many seeds as their own count says.
#[test]
fn seeds_are_as_many_as_they_are_counted() {
    let int = interpolation_config(64).new();
    let layout = DatabaseLayout::<U256P65535>::new(64, 64);
    let mut words = Words(17);
    let Query::Interpolation(mut query) = words.interpolation_query(64, 1) else {
        panic!("the query belongs to the other construction");
    };
    assert!(query.seeded());
    query.key_g.seeds.push([5; 32]);
    query.key_h.seeds.clear();
    query.root.seeds.truncate(2);
    assert!(!query.seeded());
    let (g, root) = (query.key_g.seeds.clone(), query.root.seeds.clone());
    let query = Query::Interpolation(query);
    assert!(query.fits(&int, layout));
    let bytes = query.write_to(&int);
    // One seed more, and three and four fewer.
    assert_eq!(bytes.len(), int.query_size(layout).total_size() - 6 * 32);
    let (read, end) = Query::read_from(&bytes, &int, layout).expect("query read_from");
    assert_eq!(end, bytes.len());
    assert_eq!(read.write_to(&int), bytes);
    let Query::Interpolation(read) = read else {
        panic!("the query belongs to the other construction");
    };
    assert_eq!(read.key_g.seeds, g);
    assert!(read.key_h.seeds.is_empty());
    assert_eq!(read.root.seeds, root);
    // A count beyond the bytes ends too early, whatever it claims.
    let at = 1 + 8 + (80 + 64 * 8) + 8;
    assert_eq!(read_u64(&bytes, at).expect("the count").0, 4);
    let mut claimed = bytes.clone();
    claimed[at..at + 8].copy_from_slice(&u64::MAX.to_le_bytes());
    let err = Query::read_from(&claimed, &int, layout).unwrap_err();
    assert_eq!(err.kind(), WireErrorKind::UnexpectedEof);

    let rec = recursion_config(64).new();
    let layout = DatabaseLayout::<U256P65536>::new(64, 64);
    let Query::Recursion(mut query) = words.recursion_query(64, 1, 1) else {
        panic!("the query belongs to the other construction");
    };
    assert!(query.seeded());
    query.gamma1.key.seeds.push([7; 32]);
    assert!(!query.seeded());
    let bytes = Query::Recursion(query).write_to(&rec);
    let (read, end) = Query::read_from(&bytes, &rec, layout).expect("query read_from");
    assert_eq!(end, bytes.len());
    assert_eq!(read.write_to(&rec), bytes);
}
