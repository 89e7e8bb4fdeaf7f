use std::marker::PhantomData;

use poulpy_pir::client::{Client, InterpolationResponse, QueryPlan, RecursionResponse, Response};
use poulpy_pir::config::{Collapse, Config};
use poulpy_pir::database::DatabaseLayout;
use poulpy_pir::encoding::ModPEncoder;
use poulpy_pir::interpolation::Interpolation;
use poulpy_pir::limbs::LimbVec;
use poulpy_pir::matrix::CoeffMatrix;
use poulpy_pir::payload::{U256P65535, U256P65536};
use poulpy_pir::query::{root_exponent, root_monomial, Monomial};
use poulpy_pir::server::gemm::{gemm_add, mask_product_acc, QueryMask};
use poulpy_pir::server::plan::Threads;
use poulpy_pir::server::product::MaskSplit;
use poulpy_pir::server::offline::InterpolationPrecomputation;
use poulpy_pir::server::{QueryMasks, Server, ServerPrecomputation};
use poulpy_pir::store::Database;

/// Deterministic stream of numbers.
struct Stream(u64);

impl Stream {
    fn next(&mut self) -> u64 {
        self.0 = self
            .0
            .wrapping_mul(6364136223846793005)
            .wrapping_add(1442695040888963407);
        self.0 >> 11
    }

    /// A number in `-half .. half`.
    fn centred(&mut self, half: i64) -> i64 {
        (self.next() % (2 * half as u64)) as i64 - half
    }
}

fn threads(requested: usize) -> Threads {
    Threads {
        requested: Some(requested),
        detected: 1,
    }
}

fn interpolation_config() -> Config<U256P65535> {
    Config {
        n: 32,
        base2k: 18,
        k: 54,
        collapse: Collapse::Interpolation,
        _phantom: PhantomData,
    }
}

fn recursion_config() -> Config<U256P65536> {
    Config {
        n: 64,
        base2k: 18,
        k: 54,
        collapse: Collapse::Recursion {
            gamma0: 32,
            gamma1: 32,
            gamma2: 16,
        },
        _phantom: PhantomData,
    }
}

fn mask(stream: &mut Stream, n: usize, bits: usize) -> QueryMask {
    QueryMask {
        rows: n,
        cols: n,
        values: (0..n * n).map(|_| stream.centred(1 << (bits - 1))).collect(),
    }
}

fn reduced(x: i128, bits: usize) -> i64 {
    let q = 1i128 << bits;
    let r = x.rem_euclid(q);
    (if r > (q - 1) / 2 { r - q } else { r }) as i64
}

/// Encrypts the selector of the hot slots under `secret`, with some noise.
fn encrypt(
    stream: &mut Stream,
    blocks: &[Option<usize>],
    masks: &[QueryMask],
    secret: &[i64],
    unit: i64,
    bits: usize,
) -> Vec<Vec<i64>> {
    let n = secret.len();
    blocks
        .iter()
        .zip(masks)
        .map(|(&hot, mask)| {
            (0..n)
                .map(|j| {
                    let message = if hot == Some(j) { unit as i128 } else { 0 };
                    let key: i128 = (0..n)
                        .map(|c| mask.values[j * n + c] as i128 * secret[c] as i128)
                        .sum();
                    reduced(message + stream.centred(4) as i128 - key, bits)
                })
                .collect()
        })
        .collect()
}

/// What row `row` of a product decrypts to.
fn phase(body: i128, product: &[i64], row: usize, secret: &[i64]) -> i128 {
    let n = secret.len();
    body + (0..n)
        .map(|c| product[row * n + c] as i128 * secret[c] as i128)
        .sum::<i128>()
}

/// `acc * X^e` in the ring where `X^n = -1`.
fn rotated(acc: &[i128], root: &Monomial) -> Vec<i128> {
    let n = acc.len();
    let mut out = vec![0i128; n];
    for (i, &a) in acc.iter().enumerate() {
        let e = i + root.degree + if root.negative { n } else { 0 };
        let sign = if (e / n) % 2 == 0 { 1 } else { -1 };
        out[e % n] = sign * a;
    }
    out
}

#[test]
fn interpolation_fetches_every_record() {
    let config = interpolation_config();
    let (n, bits) = (32, 54);
    // Three matrices and thus four panels, of two column blocks each.
    let layout = DatabaseLayout::<U256P65535>::new(3 * n, 2 * n);
    let mut stream = Stream(1);
    let mut server = Server::<U256P65535>::new(config, layout);
    let values: Vec<[u8; 32]> = (0..192)
        .map(|_| {
            let mut v = [0u8; 32];
            v.iter_mut().for_each(|b| *b = stream.next() as u8);
            v
        })
        .collect();
    server.update_shard(0, &values);
    let masks = QueryMasks {
        first: vec![mask(&mut stream, n, bits), mask(&mut stream, n, bits)],
        second: Vec::new(),
    };
    server.generate_query_mask(masks);
    server.offline(&threads(3), MaskSplit::Cols);

    let client = Client::<U256P65535>::new(config, layout);
    let encoder = ModPEncoder::new(65535, bits);
    let unit = encoder.encoded_unit();
    let Some(ServerPrecomputation::Interpolation(pre)) = &server.precomputation else {
        panic!("the mask side belongs to the other construction");
    };
    assert_eq!(pre.interpolation.num_panels(), 4);
    assert_eq!(pre.products.len(), 4);
    let Some(shared) = &server.masks else {
        panic!("the masks were set up");
    };
    for index in [0usize, 31, 63, 64, 100, 127, 128, 191] {
        // A fresh secret for every query.
        let secret: Vec<i64> = (0..n).map(|_| stream.next() as i64 % 3 - 1).collect();
        let (plan, state) = client.query(index);
        let QueryPlan::Interpolation(plan) = plan else {
            panic!("the plan belongs to the other construction");
        };
        let query = encrypt(&mut stream, &plan.blocks, &shared.first, &secret, unit, bits);
        let bodies = server.respond_bodies(&[query], 2);
        // Horner's rule on the phases of the panels.
        let mut acc = vec![0i128; n];
        for panel in (0..4).rev() {
            acc = rotated(&acc, &plan.root);
            for (row, a) in acc.iter_mut().enumerate() {
                *a += phase(bodies[panel][row], &pre.products[panel], row, &secret);
            }
        }
        let column: Vec<i64> = acc
            .iter()
            .map(|&p| encoder.decode_coeff_i64(reduced(p, bits)))
            .collect();
        let response = Response::Interpolation(InterpolationResponse::new(LimbVec::zeros(n, 2, 1)));
        assert_eq!(
            client.try_decode(&response, &state, &column),
            Ok(values[index])
        );
    }
}

#[test]
fn first_level_decrypts_to_the_selected_record() {
    let config = recursion_config();
    let (n, bits, height) = (64, 54, 32);
    let layout = DatabaseLayout::<U256P65536>::new(3 * height, 2 * n);
    let mut stream = Stream(2);
    let mut server = Server::<U256P65536>::new(config, layout);
    let values: Vec<[u8; 32]> = (0..768)
        .map(|_| {
            let mut v = [0u8; 32];
            v.iter_mut().for_each(|b| *b = stream.next() as u8);
            v
        })
        .collect();
    server.update_shard(0, &values);
    server.generate_query_mask(QueryMasks {
        first: vec![mask(&mut stream, n, bits), mask(&mut stream, n, bits)],
        second: vec![mask(&mut stream, n, bits)],
    });
    server.offline(&threads(2), MaskSplit::Blocks);
    let client = Client::<U256P65536>::new(config, layout);
    let encoder = ModPEncoder::new(65536, bits);
    let unit = encoder.encoded_unit();
    let Some(ServerPrecomputation::Recursion(pre)) = &server.precomputation else {
        panic!("the mask side belongs to the other construction");
    };
    let Some(shared) = &server.masks else {
        panic!("the masks were set up");
    };
    let secret: Vec<i64> = (0..n).map(|_| stream.next() as i64 % 3 - 1).collect();
    for index in [0usize, 5, 300, 511, 512, 767] {
        let (plan, state) = client.query(index);
        let QueryPlan::Recursion(plan) = plan else {
            panic!("the plan belongs to the other construction");
        };
        let query = encrypt(&mut stream, &plan.src0, &shared.first, &secret, unit, bits);
        let bodies = server.respond_bodies(&[query], 3);
        let first = state.address().matrix * height;
        let column: Vec<i64> = (first..first + height)
            .map(|row| {
                let (g, r) = (row / n, row % n);
                let p = phase(bodies[g][r], &pre.products[g], r, &secret);
                encoder.decode_coeff_i64(reduced(p, bits))
            })
            .collect();
        let response =
            Response::Recursion(RecursionResponse::new(Vec::new(), Vec::new()));
        assert_eq!(
            client.try_decode(&response, &state, &column),
            Ok(values[index])
        );
    }
}

#[test]
fn updates_reach_interpolation_answers_after_the_next_offline_run() {
    let n = 32;
    let layout = DatabaseLayout::<U256P65535>::new(2 * n, n);
    let mut server = Server::<U256P65535>::new(interpolation_config(), layout);
    server.generate_query_mask(QueryMasks {
        first: vec![mask(&mut Stream(3), n, 54)],
        second: Vec::new(),
    });
    server.offline(&threads(1), MaskSplit::Cols);
    let mut query = vec![0i64; n];
    query[4] = 1;
    let before = server.respond_bodies(&[vec![query.clone()]], 1);
    server.update_shard(4, &[[9; 32]]);
    assert_eq!(server.respond_bodies(&[vec![query.clone()]], 1), before);
    server.offline(&threads(1), MaskSplit::Cols);
    assert_ne!(server.respond_bodies(&[vec![query]], 1), before);
}

#[test]
fn panels_evaluate_to_the_matrices() {
    let n = 16;
    let layout = DatabaseLayout::<U256P65535>::new(5 * n, n);
    let mut stream = Stream(4);
    let mut db = Database::<U256P65535>::instantiate(layout, n, 17);
    for block in &mut db.blocks {
        for row in 0..n {
            for c in 0..n {
                block.set(row, c, stream.centred(32767) as i16);
            }
        }
    }
    let interpolation = Interpolation::new(n, 8, 65535);
    assert_eq!((interpolation.inverse * 8) % 65535, 1);
    let panels = interpolation.interpolate(&db);
    assert_eq!(panels.len(), 8);
    for m in 0..8 {
        let root = root_monomial(n, root_exponent(n, m, 8));
        for c in 0..n {
            let packed: Vec<Vec<i64>> = panels
                .iter()
                .map(|u| (0..n).map(|r| u.at(r, c) as i64).collect())
                .collect();
            let want: Vec<i64> = (0..n)
                .map(|r| if m < 5 { db.blocks[m].at(r, c) as i64 } else { 0 })
                .collect();
            assert_eq!(interpolation.reduce(&packed, &root), want);
        }
    }
}

#[test]
fn two_matrices_interpolate_to_half_sum_and_half_difference() {
    // With two roots, 1 and -1, the panels are (A + B) / 2 and (A - B) / 2.
    let n = 32;
    let layout = DatabaseLayout::<U256P65535>::new(2 * n, n);
    let mut db = Database::<U256P65535>::instantiate(layout, n, n);
    db.blocks[0].set(3, 5, 10);
    db.blocks[1].set(3, 5, 4);
    db.blocks[1].set(7, 5, 1);
    let panels = Interpolation::new(n, 2, 65535).interpolate(&db);
    assert_eq!(panels[0].at(3, 5), 7);
    assert_eq!(panels[1].at(3, 5), 3);
    // One half is 32768, or -32767.
    assert_eq!(panels[0].at(7, 5), -32767);
    assert_eq!(panels[1].at(7, 5), 32767);
    assert_eq!(panels[0].at(0, 0), 0);
    // A single matrix is its own panel, with any radix.
    let alone = Interpolation::new(n, 1, 65536);
    assert_eq!(alone.inverse, 1);
}

#[test]
fn evaluation_follows_horner() {
    let interpolation = Interpolation::new(4, 2, 65535);
    let packed = vec![vec![1, 2, 3, 4], vec![10, 20, 30, 40]];
    // 10 + 20 X + 30 X^2 + 40 X^3, times X^3, is -20 - 30 X - 40 X^2 + 10 X^3.
    let root = Monomial {
        degree: 3,
        negative: false,
    };
    assert_eq!(interpolation.reduce(&packed, &root), vec![-19, -28, -37, 14]);
    let root = Monomial {
        degree: 0,
        negative: true,
    };
    assert_eq!(interpolation.reduce(&packed, &root), vec![-9, -18, -27, -36]);
}

#[test]
fn decoding_removes_noise() {
    let encoder = ModPEncoder::new(65535, 54);
    let unit = encoder.encoded_unit();
    for m in [-32767i64, -1, 0, 1, 255, 32767] {
        for noise in [-(1i64 << 36), -1, 0, 1, 1 << 36] {
            assert_eq!(encoder.decode_coeff_i64(m * unit + noise), m);
        }
    }
    // Half a unit is too much.
    assert_eq!(encoder.decode_coeff_i64(unit / 2 + 2), 1);
}

fn blocks_and_masks(stream: &mut Stream) -> (Vec<CoeffMatrix>, Vec<QueryMask>) {
    let us = (0..5)
        .map(|_| {
            let mut u = CoeffMatrix::zeros(6, 4);
            for r in 0..6 {
                for c in 0..4 {
                    u.set(r, c, stream.centred(32768) as i16);
                }
            }
            u
        })
        .collect();
    let masks = (0..5)
        .map(|_| QueryMask {
            rows: 4,
            cols: 7,
            values: (0..28).map(|_| stream.centred(1 << 53)).collect(),
        })
        .collect();
    (us, masks)
}

#[test]
fn mask_products_do_not_depend_on_the_division_of_work() {
    let (us, masks) = blocks_and_masks(&mut Stream(5));
    let want: Vec<i64> = (0..42)
        .map(|i| {
            let (r, c) = (i / 7, i % 7);
            let mut sum = 0i128;
            for (u, m) in us.iter().zip(&masks) {
                for j in 0..4 {
                    sum += u.at(r, j) as i128 * m.values[j * 7 + c] as i128;
                }
            }
            reduced(sum, 54)
        })
        .collect();
    for split in [MaskSplit::Cols, MaskSplit::Blocks] {
        for workers in [1, 2, 3, 7, 20] {
            assert_eq!(
                mask_product_acc(&us, &masks, 6, 7, workers, split, 54),
                want
            );
        }
    }
}

/// A number in `0 .. 1`, of 53 bits.
fn prng(state: &mut u64) -> f64 {
    *state = state
        .wrapping_mul(6364136223846793005)
        .wrapping_add(1442695040888963407);
    ((*state >> 11) as f64) / ((1u64 << 53) as f64)
}

/// Blocks of centred digits, and masks of torus elements of 53 bits.
fn synthetic(
    k: usize,
    rows_out: usize,
    rows_in: usize,
    lwe_n: usize,
) -> (Vec<CoeffMatrix>, Vec<QueryMask>) {
    let mut s = 0x1234_5678_9abc_def0u64;
    let us = (0..k)
        .map(|_| {
            let mut u = CoeffMatrix::zeros(rows_out, rows_in);
            for r in 0..rows_out {
                for c in 0..rows_in {
                    u.set(r, c, (prng(&mut s) * 65536.0 - 32768.0).round() as i16);
                }
            }
            u
        })
        .collect();
    let masks = (0..k)
        .map(|_| QueryMask {
            rows: rows_in,
            cols: lwe_n,
            values: (0..rows_in * lwe_n)
                .map(|_| ((prng(&mut s) - 0.5) * (1u64 << 53) as f64) as i64)
                .collect(),
        })
        .collect();
    (us, masks)
}

#[test]
fn tiled_matches_sequential_within_noise_floor() {
    let (rows_out, rows_in, lwe_n, k) = (16, 16, 4, 13);
    let (us, masks) = synthetic(k, rows_out, rows_in, lwe_n);
    for split in [MaskSplit::Cols, MaskSplit::Blocks] {
        let seq = mask_product_acc(&us, &masks, rows_out, lwe_n, 1, split, 53);
        for nt in [2, 3, 4, 8, k, k + 5] {
            let tiled = mask_product_acc(&us, &masks, rows_out, lwe_n, nt, split, 53);
            assert_eq!(tiled.len(), seq.len());
            assert_eq!(tiled, seq, "nt={nt}");
        }
    }
}

#[test]
fn single_block_is_thread_count_invariant() {
    let (rows_out, rows_in, lwe_n) = (8, 8, 3);
    let (us, masks) = synthetic(1, rows_out, rows_in, lwe_n);
    let seq = mask_product_acc(&us, &masks, rows_out, lwe_n, 1, MaskSplit::Blocks, 53);
    for nt in [2, 4, 16] {
        let tiled = mask_product_acc(&us, &masks, rows_out, lwe_n, nt, MaskSplit::Blocks, 53);
        assert_eq!(seq, tiled, "k=1 must be bit-identical for nt={nt}");
    }
}

#[test]
fn dense_products_accumulate() {
    let (us, masks) = blocks_and_masks(&mut Stream(6));
    let q = 1i128 << 20;
    let mut dst = vec![5i128; 14];
    gemm_add(&mut dst, &us[0], 3, 2, &masks[0].values, 7, q);
    for r in 0..2 {
        for c in 0..7 {
            let sum: i128 = (0..4)
                .map(|j| us[0].at(3 + r, j) as i128 * masks[0].values[j * 7 + c] as i128)
                .sum();
            assert_eq!(dst[r * 7 + c], (5 + sum).rem_euclid(q));
        }
    }
}

#[test]
fn batched_bodies_equal_single_bodies() {
    let n = 16;
    let layout = DatabaseLayout::<U256P65536>::new(3 * n, 2 * n);
    let mut db = Database::<U256P65536>::instantiate(layout, n, n);
    let mut stream = Stream(7);
    let records: Vec<Vec<i64>> = (0..3 * 2 * n)
        .map(|_| (0..n).map(|_| stream.centred(32768)).collect())
        .collect();
    db.encode(&records);
    let queries: Vec<Vec<Vec<i64>>> = (0..3)
        .map(|_| {
            (0..2)
                .map(|_| (0..n).map(|_| stream.centred(1 << 53)).collect())
                .collect()
        })
        .collect();
    for workers in [1, 2, 5, 16] {
        let batch = db.body_product_acc_parallel(&queries, 54, workers);
        assert_eq!(batch.len(), 3);
        for (g, bodies) in batch.iter().enumerate() {
            for (q, query) in queries.iter().enumerate() {
                let alone = db.body_product(g, query, 54);
                for (row, &want) in alone.iter().enumerate() {
                    assert_eq!(reduced(bodies[row * 3 + q], 54), want);
                }
            }
        }
    }
}

#[test]
fn query_masks_are_read_from_limbs() {
    // Two limbs of eight bits, most significant first; column `c` holds entry `c` of
    // every row.
    let mut limbs = LimbVec::zeros(3, 2, 2);
    limbs.set(0, 0, 1, 3);
    limbs.set(0, 1, 1, -7);
    limbs.set(1, 0, 2, -1);
    let mask = QueryMask::new(&limbs, 8, 16);
    assert_eq!((mask.rows, mask.cols), (3, 2));
    assert_eq!(mask.values, vec![0, 0, 3 * 256 - 7, 0, 0, -256]);
}

/// Reads the payloads of a batch of queries, from their bodies: under the secret zero a
/// query is its message and its noise.
fn interpolated_answers(
    stream: &mut Stream,
    server: &Server<U256P65535>,
    client: &Client<U256P65535>,
    items: &[usize],
) -> Vec<[u8; 32]> {
    let (n, bits) = (server.params().n(), server.params().k());
    let encoder = ModPEncoder::new(65535, bits);
    let unit = encoder.encoded_unit();
    let (mut queries, mut plans) = (Vec::new(), Vec::new());
    for &item in items {
        let (plan, state) = client.query(item);
        let QueryPlan::Interpolation(plan) = plan else {
            panic!("the plan belongs to the other construction");
        };
        let query: Vec<Vec<i64>> = plan
            .blocks
            .iter()
            .map(|&hot| {
                (0..n)
                    .map(|j| (if hot == Some(j) { unit } else { 0 }) + stream.centred(4))
                    .collect()
            })
            .collect();
        queries.push(query);
        plans.push((plan, state));
    }
    let bodies = server.batch_bodies(&queries, 2);
    assert_eq!(bodies.len(), items.len());
    plans
        .iter()
        .zip(&bodies)
        .map(|((plan, state), bodies)| {
            let mut acc = vec![0i128; n];
            for body in bodies.iter().rev() {
                acc = rotated(&acc, &plan.root);
                for (a, x) in acc.iter_mut().zip(body) {
                    *a += *x as i128;
                }
            }
            let column: Vec<i64> = acc
                .iter()
                .map(|&p| encoder.decode_coeff_i64(reduced(p, bits)))
                .collect();
            let response =
                Response::Interpolation(InterpolationResponse::new(LimbVec::zeros(n, 2, 1)));
            client
                .try_decode(&response, state, &column)
                .expect("the response belongs to the construction")
        })
        .collect()
}

/// The part of the offline work that bodies are multiplied with; the products with the
/// masks take longer at this degree, and matter under a secret other than zero only.
fn interpolate_database(server: &mut Server<U256P65535>) {
    let n = server.params().n();
    let interpolation = Interpolation::new(n, server.interpolation_panels(), 65535);
    let cols = server.layout().cols();
    let matrix = Database {
        layout: DatabaseLayout::new(n * interpolation.num_panels(), cols),
        n,
        height: n,
        blocks: interpolation.interpolate(server.database()),
    };
    server.precomputation = Some(ServerPrecomputation::Interpolation(
        InterpolationPrecomputation {
            interpolation,
            matrix,
            products: Vec::new(),
        },
    ));
}

/// Sets up the masks and runs the offline work.
fn run_offline(stream: &mut Stream, server: &mut Server<U256P65535>) {
    let (n, bits) = (server.params().n(), server.params().k());
    let blocks = server.layout().column_blocks(n);
    server.generate_query_mask(QueryMasks {
        first: (0..blocks).map(|_| mask(stream, n, bits)).collect(),
        second: Vec::new(),
    });
    server.offline(&threads(1), MaskSplit::Cols);
}

fn default_config() -> Config<U256P65535> {
    Config {
        n: 2048,
        base2k: 18,
        k: 54,
        collapse: Collapse::Interpolation,
        _phantom: PhantomData,
    }
}

#[test]
fn batch_interpolation_matches_per_query() {
    let config = default_config();
    let n = config.n();
    let layout = DatabaseLayout::<U256P65535>::new(2 * n, n);
    let mut server = Server::<U256P65535>::new(config, layout);
    let capacity = layout.num_payloads(n);
    let mut payloads = vec![[0u8; 32]; capacity];
    for (idx, payload) in payloads.iter_mut().enumerate() {
        for (byte_idx, b) in payload.iter_mut().enumerate() {
            *b = (idx as u8)
                .wrapping_mul(31)
                .wrapping_add((byte_idx as u8).wrapping_mul(17))
                .wrapping_add(7);
        }
    }
    server.update_shard(0, &payloads);
    let client = Client::<U256P65535>::new(config, layout);
    let items = [12_345usize, 300_000, 12_345, capacity - 1, 1];
    let mut stream = Stream(31);
    interpolate_database(&mut server);
    let batch =
        interpolated_answers(&mut stream, &server, &client, &items);
    assert_eq!(batch.len(), items.len());
    for (i, &item) in items.iter().enumerate() {
        let alone = interpolated_answers(&mut stream, &server, &client, &[item]);
        assert_eq!(batch[i], payloads[item], "batch item {i} (index {item})");
        assert_eq!(batch[i], alone[0], "batch item {i} (index {item})");
    }
}

#[test]
fn batch_interpolation_single_element() {
    let config = default_config();
    let n = config.n();
    let layout = DatabaseLayout::<U256P65535>::new(2 * n, n);
    let item = 300_000usize;
    let mut payload = [0u8; 32];
    for (i, b) in payload.iter_mut().enumerate() {
        *b = (i as u8).wrapping_mul(7).wrapping_add(3);
    }
    let mut server = Server::<U256P65535>::new(config, layout);
    server.update_shard(item, &[payload]);
    interpolate_database(&mut server);
    let client = Client::<U256P65535>::new(config, layout);
    let mut stream = Stream(3);
    let got =
        interpolated_answers(&mut stream, &server, &client, &[item]);
    assert_eq!(got, vec![payload]);
}

#[test]
fn server_client_roundtrip_interpolation_generic_u256_chunked() {
    let config = default_config();
    let n = config.n();
    let layout = DatabaseLayout::<U256P65535>::new(8 * n, n);
    let item = 1_800_000usize;
    let mut server = Server::<U256P65535>::new(config, layout);
    let capacity = layout.num_payloads(n);
    let mut payloads = vec![[0u8; 32]; capacity];
    for (idx, payload) in payloads.iter_mut().enumerate() {
        for (byte_idx, b) in payload.iter_mut().enumerate() {
            *b = (idx as u8)
                .wrapping_mul(29)
                .wrapping_add((byte_idx as u8).wrapping_mul(13))
                .wrapping_add(5);
        }
    }
    let payload = payloads[item];
    server.update_shard(0, &payloads);
    interpolate_database(&mut server);
    let client = Client::<U256P65535>::new(config, layout);
    let mut stream = Stream(77);
    let got =
        interpolated_answers(&mut stream, &server, &client, &[item]);
    assert_eq!(got, vec![payload]);
    assert_eq!(server.get(item), payload);
}

/// After the offline work, a batch is answered as its queries are alone, and an empty one
/// not at all.
#[test]
fn batches_after_offline_match_single_queries() {
    let n = 32usize;
    let config = interpolation_config();
    let layout = DatabaseLayout::<U256P65535>::new(4 * n, 2 * n);
    let mut stream = Stream(29);
    let mut server = Server::<U256P65535>::new(config, layout);
    let values: Vec<[u8; 32]> = (0..layout.num_payloads(n))
        .map(|i| [(i % 251) as u8; 32])
        .collect();
    server.update_shard(0, &values);
    run_offline(&mut stream, &mut server);
    let client = Client::<U256P65535>::new(config, layout);
    let items = [3usize, values.len() - 1, 3, 40];
    let batch = interpolated_answers(&mut stream, &server, &client, &items);
    for (got, &item) in batch.iter().zip(&items) {
        assert_eq!(*got, values[item]);
        let alone = interpolated_answers(&mut stream, &server, &client, &[item]);
        assert_eq!(alone, vec![values[item]]);
    }
    assert!(server.batch_bodies(&[], 2).is_empty());
    // The bodies of a query in a batch are those of the query alone.
    let query = |hot: usize| -> Vec<Vec<i64>> {
        (0..2)
            .map(|b| (0..n).map(|j| (b * n + j == hot) as i64 * 7).collect())
            .collect()
    };
    let both = server.batch_bodies(&[query(5), query(60)], 2);
    assert_eq!(both[0], server.batch_bodies(&[query(5)], 1)[0]);
    assert_eq!(both[1], server.batch_bodies(&[query(60)], 1)[0]);
    assert_ne!(both[0], both[1]);
}
