use std::marker::PhantomData;

use poulpy_pir::client::{Client, QueryPlan, QueryState, RecursionResponse, Response};
use poulpy_pir::config::{Collapse, Config};
use poulpy_pir::database::DatabaseLayout;
use poulpy_pir::encoding::ModPEncoder;
use poulpy_pir::limbs::LimbVec;
use poulpy_pir::packing::aggregate::automorphed;
use poulpy_pir::packing::bsgs_pack::{baby_automorphism, mask_column_automorphisms, PackOp};
use poulpy_pir::packing::collapse::collapse_plan;
use poulpy_pir::packing::keys::key_g_rotation;
use poulpy_pir::packing::partial::packing_partial_mask_preprocessing;
use poulpy_pir::matrix::CoeffMatrix;
use poulpy_pir::packing::recursion::{
    balance_base2k16_data, decompose_digits, modulus_switch_to_digits,
};
use poulpy_pir::packing::run::{CollapseRun, PackRun};
use poulpy_pir::packing::PackingPrecomputeInfos;
use poulpy_pir::payload::{Payload, U256P65536};
use poulpy_pir::server::digits::{digit_mask_side, DigitBatch};
use poulpy_pir::server::gemm::{mask_product_acc, QueryMask};
use poulpy_pir::server::plan::Threads;
use poulpy_pir::server::product::{blocks_product, MaskSplit};
use poulpy_pir::server::recursion::{digit_database, key_stride, recompose};
use poulpy_pir::server::{QueryMasks, Server, ServerPrecomputation};

/// Bits of a torus element.
const BITS: usize = 54;
/// Bits of a packed answer of the first level.
const QTILDE_BITS: usize = 32;
const TAU: usize = 2;

struct Stream(u64);

impl Stream {
    fn next(&mut self) -> u64 {
        self.0 = self
            .0
            .wrapping_mul(6364136223846793005)
            .wrapping_add(1442695040888963407);
        self.0 >> 11
    }

    fn centred(&mut self, half: i64) -> i64 {
        (self.next() % (2 * half as u64)) as i64 - half
    }

    fn torus(&mut self, n: usize, bits: usize) -> Vec<i64> {
        (0..n).map(|_| self.centred(1 << (bits - 1).min(50))).collect()
    }

    fn mask(&mut self, n: usize, bits: usize) -> QueryMask {
        QueryMask {
            rows: n,
            cols: n,
            values: self.torus(n * n, bits),
        }
    }

    fn secret(&mut self, n: usize) -> Vec<i64> {
        (0..n).map(|_| self.next() as i64 % 3 - 1).collect()
    }
}

fn reduced(x: i128, bits: usize) -> i64 {
    let q = 1i128 << bits;
    let r = x.rem_euclid(q);
    (if 2 * r >= q { r - q } else { r }) as i64
}

/// The product in the ring, modulo `2^bits`.
fn product(a: &[i64], b: &[i64], bits: usize) -> Vec<i64> {
    let n = a.len();
    let q = 1i128 << bits;
    let mut out = vec![0i128; n];
    for i in 0..n {
        for j in 0..n {
            let c = (a[i] as i128 * b[j] as i128) % q;
            if i + j < n {
                out[i + j] += c;
            } else {
                out[i + j - n] -= c;
            }
        }
    }
    out.into_iter().map(|x| reduced(x, bits)).collect()
}

fn combined(a: &[i64], b: &[i64], sign: i128, bits: usize) -> Vec<i64> {
    a.iter()
        .zip(b)
        .map(|(&x, &y)| reduced(x as i128 + sign * y as i128, bits))
        .collect()
}

/// Packs the rows of a product of `gamma` rows.
fn partial_pack(
    stream: &mut Stream,
    rows: &[Vec<i64>],
    bodies: &[i64],
    secret: &[i64],
    bits: usize,
) -> (Vec<i64>, Vec<i64>) {
    let (n, gamma) = (secret.len(), rows.len());
    let stride = key_stride(n, gamma);
    let key_mask = stream.torus(n, bits);
    let share = automorphed(&secret.to_vec(), n, key_g_rotation(n, stride));
    let key_body = combined(&share, &product(&key_mask, secret, bits), -1, bits);

    let infos = PackingPrecomputeInfos::new_partial(gamma - 1, 4, 16, 4, stride);
    let components = packing_partial_mask_preprocessing(rows, n, gamma, bits);
    let plan = collapse_plan(n, infos);
    let mut collapse = CollapseRun::new(n, bits, plan.first_half, components);
    while let Some(term) = collapse.next_term() {
        collapse.take_product(&product(&term, &key_mask, bits));
    }
    let stored: Vec<Vec<i64>> = collapse
        .terms
        .iter()
        .zip(mask_column_automorphisms(n, infos))
        .map(|(term, p)| automorphed(term, n, p))
        .collect();

    let mut body = vec![0i64; n];
    body[..gamma].copy_from_slice(&bodies[..gamma]);
    let mut run = PackRun::new(n, bits, infos, 2, body);
    while let Some(op) = run.pending() {
        let given = match op {
            PackOp::Product { step, baby, .. } => {
                let view = baby_automorphism(n, stride, baby);
                product(&stored[step], &automorphed(&key_body, n, view), bits)
            }
            _ => vec![0i64; n],
        };
        run.advance(given);
    }
    (run.body, collapse.first().clone())
}

/// Body and mask as limbs of 20 bits.
fn limbs(body: &[i64], mask: &[i64], bits: usize) -> LimbVec {
    let n = body.len();
    let mut out = LimbVec::zeros(n, 2, 3);
    for (col, poly) in [body, mask].into_iter().enumerate() {
        for (i, &x) in poly.iter().enumerate() {
            let mut rest = (x as i128) << (60 - bits);
            for limb in (0..3).rev() {
                let digit = reduced(rest, 20);
                out.set(col, limb, i, digit);
                rest = (rest - digit as i128) >> 20;
            }
        }
    }
    out
}

/// Encrypts the selector of the hot slots under `secret`, with some noise.
fn encrypt(
    stream: &mut Stream,
    blocks: &[Option<usize>],
    masks: &[QueryMask],
    secret: &[i64],
    unit: i64,
    bits: usize,
) -> Vec<Vec<i64>> {
    let n = secret.len();
    blocks
        .iter()
        .zip(masks)
        .map(|(&hot, mask)| {
            (0..n)
                .map(|j| {
                    let message = if hot == Some(j) { unit as i128 } else { 0 };
                    let key: i128 = (0..n)
                        .map(|c| mask.values[j * n + c] as i128 * secret[c] as i128)
                        .sum();
                    reduced(message + stream.centred(2) as i128 - key, bits)
                })
                .collect()
        })
        .collect()
}

/// Packs every group of digit rows, and decrypts all digits.
fn selected_digits(
    stream: &mut Stream,
    groups: &[DigitBatch],
    query: &[Vec<i64>],
    secret: &[i64],
    count: usize,
) -> Vec<i64> {
    let n = secret.len();
    let mut digits = Vec::new();
    for group in groups {
        let bodies = group.body(query, BITS);
        assert!(bodies[group.gamma..].iter().all(|&x| x == 0));
        let rows: Vec<Vec<i64>> = group.products.chunks(n).map(|r| r.to_vec()).collect();
        let (body, mask) = partial_pack(stream, &rows, &bodies[..group.gamma], secret, BITS);
        let phase = combined(&body, &product(&mask, secret, BITS), 1, BITS);
        let encoder = ModPEncoder::new(65536, BITS);
        digits.extend(
            phase[..group.gamma]
                .iter()
                .map(|&x| encoder.decode_coeff_i64(x)),
        );
    }
    digits.truncate(count);
    digits
}

/// The second level on the packed answers of all batches: reads the column of one batch.
fn second_level(
    stream: &mut Stream,
    packed: &[LimbVec],
    masks: &[QueryMask],
    src1: &[Vec<i64>],
    secret: &[i64],
    gammas: (usize, usize, usize),
    batch: usize,
) -> Vec<i64> {
    let (gamma0, gamma1, gamma2) = gammas;
    let (n, batches) = (secret.len(), packed.len());
    // Second level: the digits of the batch, packed.
    let mask_digits = digit_database(packed, 1, n, TAU);
    let body_digits = digit_database(packed, 0, gamma0, TAU);
    let select = |stream: &mut Stream, digits: &[Vec<i16>], gamma: usize| {
        let groups = digit_mask_side(
            digits,
            batches,
            gamma,
            n,
            masks,
            2,
            MaskSplit::Blocks,
            BITS,
        );
        assert_eq!(groups.len(), digits.len().div_ceil(gamma));
        selected_digits(stream, &groups, src1, secret, digits.len())
    };
    let mask = select(stream, &mask_digits, gamma1);
    let body = select(stream, &body_digits, gamma2);

    // The client puts the packed answer of the batch together again, and decrypts it.
    let answer = recompose(&mask, &body, n, gamma0, TAU);
    for c in 0..n {
        for l in 0..TAU {
            assert_eq!(answer.get(1, l, c), packed[batch].get(1, l, c));
        }
    }
    decrypted_digits(&answer, secret)[..gamma0].to_vec()
}

/// Answers a batch of queries for the given payloads, and decrypts the answers.
fn columns<P: Payload<[u8; 32]>>(
    stream: &mut Stream,
    server: &Server<P>,
    client: &Client<P>,
    items: &[usize],
) -> Vec<(Vec<i64>, QueryState)> {
    let Collapse::Recursion {
        gamma0,
        gamma1,
        gamma2,
    } = server.params().collapse()
    else {
        panic!("the server belongs to the other construction");
    };
    let n = server.params().n();
    let unit = ModPEncoder::new(65536, BITS).encoded_unit();
    let Some(ServerPrecomputation::Recursion(pre)) = &server.precomputation else {
        panic!("the mask side belongs to the other construction");
    };
    let Some(masks) = &server.masks else {
        panic!("the masks were set up");
    };
    let batches = server.database().t();
    let secret = stream.secret(n);
    let (mut states, mut first, mut second) = (Vec::new(), Vec::new(), Vec::new());
    for &item in items {
        let (plan, state) = client.query(item);
        let QueryPlan::Recursion(plan) = plan else {
            panic!("the plan belongs to the other construction");
        };
        first.push(encrypt(stream, &plan.src0, &masks.first, &secret, unit, BITS));
        second.push(encrypt(stream, &plan.src1, &masks.second, &secret, unit, BITS));
        states.push(state);
    }
    // One pass over the database for all queries.
    let bodies = server.respond_bodies(&first, 2);
    let mut answers = Vec::new();
    for (q, (state, src1)) in states.into_iter().zip(&second).enumerate() {
        // First level: the column of every batch, packed and cut into digits.
        let packed: Vec<LimbVec> = (0..batches)
            .map(|batch| {
                let (group, top) = (batch * gamma0 / n, batch * gamma0 % n);
                let rows: Vec<Vec<i64>> = (top..top + gamma0)
                    .map(|r| pre.products[group][r * n..(r + 1) * n].to_vec())
                    .collect();
                let body: Vec<i64> = (top..top + gamma0)
                    .map(|r| reduced(bodies[group][r * items.len() + q], BITS))
                    .collect();
                let (body, mask) = partial_pack(stream, &rows, &body, &secret, BITS);
                modulus_switch_to_digits(&limbs(&body, &mask, BITS), 20, QTILDE_BITS)
            })
            .collect();

        let batch = state.address().matrix;
        let gammas = (gamma0, gamma1, gamma2);
        let column = second_level(stream, &packed, &masks.second, src1, &secret, gammas, batch);
        assert_eq!(
            column,
            server.database().record(state.address().column, batch)
        );
        answers.push((column, state));
    }
    answers
}

/// Answers a batch of queries for the given payloads, and reads the answers.
fn retrieve(
    stream: &mut Stream,
    server: &Server<U256P65536>,
    client: &Client<U256P65536>,
    items: &[usize],
) -> Vec<[u8; 32]> {
    columns(stream, server, client, items)
        .iter()
        .map(|(column, state)| {
            let response = Response::Recursion(RecursionResponse::new(Vec::new(), Vec::new()));
            client
                .try_decode(&response, state, column)
                .expect("the response belongs to the construction")
        })
        .collect()
}

/// Decrypts a ciphertext of 16-bit digits, and reads its residues.
fn decrypted_digits(answer: &LimbVec, secret: &[i64]) -> Vec<i64> {
    let value = |col: usize, c: usize| {
        reduced(
            ((answer.get(col, 0, c) as i128) << 16) + answer.get(col, 1, c) as i128,
            QTILDE_BITS,
        )
    };
    let body: Vec<i64> = (0..answer.n).map(|c| value(0, c)).collect();
    let mask: Vec<i64> = (0..answer.n).map(|c| value(1, c)).collect();
    let phase = combined(
        &body,
        &product(&mask, secret, QTILDE_BITS),
        1,
        QTILDE_BITS,
    );
    let encoder = ModPEncoder::new(65536, QTILDE_BITS);
    phase.iter().map(|&x| encoder.decode_coeff_i64(x)).collect()
}

fn config<P>(n: usize, gamma0: usize, gamma1: usize, gamma2: usize) -> Config<P> {
    Config {
        n,
        base2k: 18,
        k: BITS,
        collapse: Collapse::Recursion {
            gamma0,
            gamma1,
            gamma2,
        },
        _phantom: PhantomData,
    }
}

fn set_up<P: Payload<[u8; 32]>>(stream: &mut Stream, server: &mut Server<P>) {
    let n = server.params().n();
    let first = server.layout().column_blocks(n);
    let second = server.database().t().div_ceil(n);
    server.generate_query_mask(QueryMasks {
        first: (0..first).map(|_| stream.mask(n, BITS)).collect(),
        second: (0..second).map(|_| stream.mask(n, BITS)).collect(),
    });
    let threads = Threads {
        requested: Some(2),
        detected: 1,
    };
    server.offline(&threads, MaskSplit::Cols);
}

/// Both levels of the recursion: the record that the client reads is the one it asked for.
#[test]
fn both_levels_select_the_record() {
    let config = config(64, 32, 32, 16);
    let layout = DatabaseLayout::<U256P65536>::new(3 * 32, 2 * 64);
    let mut stream = Stream(41);
    let mut server = Server::<U256P65536>::new(config, layout);
    let values: Vec<[u8; 32]> = (0..layout.num_payloads(32))
        .map(|_| {
            let mut v = [0u8; 32];
            v.iter_mut().for_each(|b| *b = stream.next() as u8);
            v
        })
        .collect();
    server.update_shard(0, &values);
    set_up(&mut stream, &mut server);
    let client = Client::<U256P65536>::new(config, layout);
    for index in [0usize, 300, 767] {
        let got = retrieve(&mut stream, &server, &client, &[index]);
        assert_eq!(got, vec![values[index]]);
        assert_eq!(server.get(index), values[index]);
    }
}

/// A batch answers every query as it is answered alone.
#[test]
fn batch_recursion_fallback_matches_per_query() {
    let config = config(64, 32, 32, 16);
    let layout = DatabaseLayout::<U256P65536>::new(70 * 32, 70);
    let capacity = layout.num_payloads(32);
    let mut stream = Stream(7);
    let mut server = Server::<U256P65536>::new(config, layout);
    let items = [capacity - 1, 0usize, 137];
    let mut payloads = Vec::new();
    for &item in &items {
        let mut payload = [0u8; 32];
        for (i, b) in payload.iter_mut().enumerate() {
            *b = (i as u8)
                .wrapping_mul(19)
                .wrapping_add(item as u8)
                .wrapping_add(11);
        }
        server.update_shard(item, &[payload]);
        payloads.push(payload);
    }
    set_up(&mut stream, &mut server);
    let client = Client::<U256P65536>::new(config, layout);
    let batch = retrieve(&mut stream, &server, &client, &items);
    assert_eq!(batch, payloads);
    for (&item, payload) in items.iter().zip(&payloads) {
        let alone = retrieve(&mut stream, &server, &client, &[item]);
        assert_eq!(alone, vec![*payload], "recursion batch item {item} decoded wrong");
    }
}

/// Bits of a torus element of the packing tests.
const PACK_BITS: usize = 36;

/// The matrix with the given entries.
fn matrix(rows: usize, cols: usize, entry: impl Fn(usize, usize) -> i64) -> CoeffMatrix {
    let mut u = CoeffMatrix::zeros(rows, cols);
    for j in 0..rows {
        for k in 0..cols {
            u.set(j, k, entry(j, k) as i16);
        }
    }
    u
}

/// Selects a column under encryption, and packs what was selected.
fn select_and_pack(
    stream: &mut Stream,
    u: CoeffMatrix,
    gamma: usize,
    i0: usize,
    secret: &[i64],
) -> (Vec<i64>, Vec<i64>) {
    let n = secret.len();
    let unit = ModPEncoder::new(65536, PACK_BITS).encoded_unit();
    let masks = [stream.mask(n, PACK_BITS)];
    let query = encrypt(stream, &[Some(i0)], &masks, secret, unit, PACK_BITS);
    let us = [u];
    let rows = mask_product_acc(&us, &masks, gamma, n, 1, MaskSplit::Cols, PACK_BITS);
    let bodies = blocks_product(&us, &query, gamma, PACK_BITS);
    let rows: Vec<Vec<i64>> = rows.chunks(n).map(|row| row.to_vec()).collect();
    partial_pack(stream, &rows, &bodies, secret, PACK_BITS)
}

fn decoded(body: &[i64], mask: &[i64], secret: &[i64]) -> Vec<i64> {
    let phase = combined(body, &product(mask, secret, PACK_BITS), 1, PACK_BITS);
    let encoder = ModPEncoder::new(65536, PACK_BITS);
    phase.iter().map(|&x| encoder.decode_coeff_i64(x)).collect()
}

#[test]
fn first_level_select_then_partial_pack() {
    let n = 64usize;
    for (gamma, i0) in [(8usize, 5usize), (16, 30)] {
        let mut stream = Stream(3);
        let secret = stream.secret(n);
        let entry = |j: usize, k: usize| ((j * 7 + k * 3) % 41) as i64;
        let u = matrix(gamma, 64, entry);
        let (body, mask) = select_and_pack(&mut stream, u, gamma, i0, &secret);
        let expected: Vec<i64> = (0..gamma).map(|j| entry(j, i0)).collect();
        assert_eq!(decoded(&body, &mask, &secret)[..gamma], expected[..]);
    }
}

#[test]
fn first_level_batched_recovers_columns() {
    let (n, t, gamma, i0) = (64usize, 3usize, 8usize, 5usize);
    let mut stream = Stream(13);
    let secret = stream.secret(n);
    for b in 0..t {
        let entry = |j: usize, k: usize| ((b * 5 + j * 7 + k * 3) % 37) as i64;
        let u = matrix(gamma, 64, entry);
        let (body, mask) = select_and_pack(&mut stream, u, gamma, i0, &secret);
        let digits =
            modulus_switch_to_digits(&limbs(&body, &mask, PACK_BITS), 20, QTILDE_BITS);
        let expected: Vec<i64> = (0..gamma).map(|j| entry(j, i0)).collect();
        assert_eq!(
            decrypted_digits(&digits, &secret)[..gamma],
            expected[..],
            "batch {b}"
        );
    }
}

/// An encryption of `data`, its first `gamma` rows packed and cut into digits.
fn packed_digits(stream: &mut Stream, data: &[i64], gamma: usize, secret: &[i64]) -> LimbVec {
    let n = secret.len();
    let unit = ModPEncoder::new(65536, PACK_BITS).encoded_unit();
    let a = stream.torus(n, PACK_BITS);
    let rows: Vec<Vec<i64>> = (0..gamma)
        .map(|k| {
            (0..n)
                .map(|j| if j <= k { a[k - j] } else { -a[n + k - j] })
                .collect()
        })
        .collect();
    let bodies: Vec<i64> = (0..gamma)
        .map(|k| {
            let key: i128 = (0..n).map(|j| rows[k][j] as i128 * secret[j] as i128).sum();
            let plain = data[k] as i128 * unit as i128 + stream.centred(4) as i128;
            reduced(plain - key, PACK_BITS)
        })
        .collect();
    let (body, mask) = partial_pack(stream, &rows, &bodies, secret, PACK_BITS);
    modulus_switch_to_digits(&limbs(&body, &mask, PACK_BITS), 20, QTILDE_BITS)
}

#[test]
fn partial_pack_batch_decompose() {
    let n = 64usize;
    for (gamma, batches) in [(8usize, 3usize), (16, 2)] {
        let mut stream = Stream(7);
        let secret = stream.secret(n);
        for b in 0..batches {
            let data: Vec<i64> = (0..n).map(|i| ((i + 2 * b) as i64 % 7) - 3).collect();
            let mut digits = packed_digits(&mut stream, &data, gamma, &secret);
            assert_eq!(
                decrypted_digits(&digits, &secret)[..gamma],
                data[..gamma],
                "batch {b}"
            );
            assert_eq!(digits.size, decompose_digits(QTILDE_BITS));
            let before = digits.data.clone();
            balance_base2k16_data(&mut digits);
            assert_eq!(digits.data, before);
            assert!(digits
                .data
                .iter()
                .all(|v| (i16::MIN as i64..=i16::MAX as i64).contains(v)));
        }
    }
}

#[test]
fn second_level_body_select_recovers_digits() {
    let (n, t, gamma0, i1) = (64usize, 4usize, 8usize, 2usize);
    let mut stream = Stream(21);
    let secret = stream.secret(n);
    let resp0: Vec<LimbVec> = (0..t)
        .map(|b| {
            let data: Vec<i64> = (0..n).map(|i| ((i + 3 * b) as i64 % 7) - 3).collect();
            packed_digits(&mut stream, &data, gamma0, &secret)
        })
        .collect();
    let digits = digit_database(&resp0, 0, gamma0, TAU);
    let count = gamma0 * TAU;
    assert_eq!(digits.len(), count);
    let want: Vec<i64> = (0..count)
        .map(|j| resp0[i1].get(0, j % TAU, j / TAU))
        .collect();
    let unit = ModPEncoder::new(65536, PACK_BITS).encoded_unit();
    let masks = [stream.mask(n, PACK_BITS)];
    let query = encrypt(&mut stream, &[Some(i1)], &masks, &secret, unit, PACK_BITS);
    let group = DigitBatch::new(
        &digits,
        t,
        0,
        count,
        n,
        &masks,
        1,
        MaskSplit::Blocks,
        PACK_BITS,
    );
    let bodies = group.body(&query, PACK_BITS);
    let encoder = ModPEncoder::new(65536, PACK_BITS);
    let got: Vec<i64> = (0..count)
        .map(|j| {
            let key: i128 = (0..n)
                .map(|c| group.products[j * n + c] as i128 * secret[c] as i128)
                .sum();
            encoder.decode_coeff_i64(reduced(bodies[j] as i128 + key, PACK_BITS))
        })
        .collect();
    assert_eq!(got, want);
}

/// Reads records of digits through both levels, each by its column and batch.
fn read_records(
    n: usize,
    t: usize,
    cols: usize,
    gammas: (usize, usize, usize),
    records: &[Vec<i64>],
    picks: &[(usize, usize)],
) -> Vec<Vec<i64>> {
    let gamma0 = gammas.0;
    let mut stream = Stream(19);
    let secret = stream.secret(n);
    let unit = ModPEncoder::new(65536, BITS).encoded_unit();
    let first: Vec<QueryMask> = (0..cols / n).map(|_| stream.mask(n, BITS)).collect();
    let second: Vec<QueryMask> = (0..t.div_ceil(n)).map(|_| stream.mask(n, BITS)).collect();
    let batches: Vec<Vec<CoeffMatrix>> = (0..t)
        .map(|b| {
            (0..cols / n)
                .map(|block| {
                    matrix(gamma0, n, |j, k| records[b * cols + block * n + k][j])
                })
                .collect()
        })
        .collect();
    let selector = |hot: usize, blocks: usize| -> Vec<Option<usize>> {
        (0..blocks)
            .map(|b| (hot / n == b).then_some(hot % n))
            .collect()
    };
    picks
        .iter()
        .map(|&(i0, i1)| {
            let plan0 = selector(i0, first.len());
            let plan1 = selector(i1, second.len());
            let src0 = encrypt(&mut stream, &plan0, &first, &secret, unit, BITS);
            let src1 = encrypt(&mut stream, &plan1, &second, &secret, unit, BITS);
            let packed: Vec<LimbVec> = batches
                .iter()
                .map(|us| {
                    let rows = mask_product_acc(us, &first, gamma0, n, 1, MaskSplit::Cols, BITS);
                    let rows: Vec<Vec<i64>> = rows.chunks(n).map(|row| row.to_vec()).collect();
                    let bodies = blocks_product(us, &src0, gamma0, BITS);
                    let (body, mask) = partial_pack(&mut stream, &rows, &bodies, &secret, BITS);
                    modulus_switch_to_digits(&limbs(&body, &mask, BITS), 20, QTILDE_BITS)
                })
                .collect();
            second_level(&mut stream, &packed, &second, &src1, &secret, gammas, i1)
        })
        .collect()
}

#[test]
fn recursion_api_roundtrip() {
    let (t, cols, gamma0) = (4usize, 64usize, 8usize);
    let records: Vec<Vec<i64>> = (0..t * cols)
        .map(|r| (0..gamma0).map(|j| ((r * 3 + j * 7) % 41) as i64).collect())
        .collect();
    let got = read_records(64, t, cols, (gamma0, 32, 8), &records, &[(5, 2)]);
    assert_eq!(got, vec![records[2 * cols + 5].clone()]);
}

#[test]
fn recursion_api_roundtrip_larger() {
    let (t, cols, gamma0, p) = (8usize, 128usize, 8usize, 1i64 << 16);
    let records: Vec<Vec<i64>> = (0..t * cols)
        .map(|r| {
            (0..gamma0)
                .map(|j| (r as i64 * 131 + j as i64 * 97717).rem_euclid(p))
                .collect()
        })
        .collect();
    let picks = [(0usize, 0usize), (5, 3), (127, 7), (63, 4)];
    let answers = read_records(128, t, cols, (gamma0, 32, 8), &records, &picks);
    for (got, (i0, i1)) in answers.iter().zip(picks) {
        let got: Vec<i64> = got.iter().map(|v| v.rem_euclid(p)).collect();
        assert_eq!(got, records[i1 * cols + i0], "record ({i0}, {i1}) mismatch");
    }
}

#[test]
fn recursion_api_roundtrip_chunked_dimensions() {
    let (n, t, cols, gamma0) = (64usize, 128usize, 128usize, 8usize);
    let records: Vec<Vec<i64>> = (0..t * cols)
        .map(|r| {
            (0..gamma0)
                .map(|j| ((r * 5 + j * 13) % 101) as i64)
                .collect()
        })
        .collect();
    let picks = [(0usize, 0usize), (65, 3), (127, 127)];
    let answers = read_records(n, t, cols, (gamma0, 32, gamma0), &records, &picks);
    for (got, (i0, i1)) in answers.iter().zip(picks) {
        assert_eq!(*got, records[i1 * cols + i0], "chunked record ({i0}, {i1}) mismatch");
    }
}

/// The digits that a query of the second level selects, row by row.
fn decrypted_selection(
    digits: &[Vec<i16>],
    t: usize,
    masks: &[QueryMask],
    query: &[Vec<i64>],
    secret: &[i64],
) -> Vec<i64> {
    let n = secret.len();
    let encoder = ModPEncoder::new(65536, PACK_BITS);
    let mut out = Vec::new();
    for (batch, chunk) in digits.chunks(n).enumerate() {
        let group = DigitBatch::new(
            digits,
            t,
            batch,
            n,
            n,
            masks,
            1,
            MaskSplit::Blocks,
            PACK_BITS,
        );
        let bodies = group.body(query, PACK_BITS);
        out.extend((0..chunk.len()).map(|j| {
            let key: i128 = (0..n)
                .map(|c| group.products[j * n + c] as i128 * secret[c] as i128)
                .sum();
            encoder.decode_coeff_i64(reduced(bodies[j] as i128 + key, PACK_BITS))
        }));
    }
    out
}

#[test]
fn recursion_end_to_end_double_pir() {
    let (n, t, cols, gamma0, i0, i1) = (64usize, 4usize, 64usize, 8usize, 5usize, 2usize);
    let mut stream = Stream(31);
    let secret = stream.secret(n);
    let entry = |b: usize, j: usize, k: usize| ((b * 11 + j * 5 + k * 3) % 29) as i64;
    let resp0: Vec<LimbVec> = (0..t)
        .map(|b| {
            let u = matrix(gamma0, cols, |j, k| entry(b, j, k));
            let (body, mask) = select_and_pack(&mut stream, u, gamma0, i0, &secret);
            modulus_switch_to_digits(&limbs(&body, &mask, PACK_BITS), 20, QTILDE_BITS)
        })
        .collect();
    let mask_data = digit_database(&resp0, 1, n, TAU);
    let body_data = digit_database(&resp0, 0, gamma0, TAU);
    let unit = ModPEncoder::new(65536, PACK_BITS).encoded_unit();
    let masks = [stream.mask(n, PACK_BITS)];
    let q2 = encrypt(&mut stream, &[Some(i1)], &masks, &secret, unit, PACK_BITS);
    let mask_digits = decrypted_selection(&mask_data, t, &masks, &q2, &secret);
    let body_digits = decrypted_selection(&body_data, t, &masks, &q2, &secret);
    let recomposed = recompose(&mask_digits, &body_digits, n, gamma0, TAU);
    let answer: Vec<i64> = (0..gamma0).map(|j| entry(i1, j, i0)).collect();
    assert_eq!(decrypted_digits(&recomposed, &secret)[..gamma0], answer[..]);
}
