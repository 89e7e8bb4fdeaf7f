use std::marker::PhantomData;

use poulpy_pir::client::{Client, InterpolationResponse, QueryPlan, RecursionResponse, Response};
use poulpy_pir::config::{Collapse, Config, DEFAULT_BASE2K, DEFAULT_K, DEFAULT_N};
use poulpy_pir::database::DatabaseLayout;
use poulpy_pir::error::{CollapseKind, PirError};
use poulpy_pir::limbs::LimbVec;
use poulpy_pir::messages::{AutoKey, GgswCompressed, InterpolationQuery, RecursionQuery, CompressedKey};
use poulpy_pir::payload::{U256P65535, U256P65536};
use poulpy_pir::query::{
    one_hot_blocks, root_exponent, root_monomial, selector_coefficients, Monomial, NoEntropy, ServerSeed,
    CRS,
};
use poulpy_pir::server::answer::query_body;
use poulpy_pir::server::plan::{
    chunk_runs, longest, missing_arenas, pack_mask_plan, together, PoolInfo, Threads,
};
use poulpy_pir::server::gemm::QueryMask;
use poulpy_pir::server::interpolation::{panel_block, transpose};
use poulpy_pir::server::product::{
    body_plan, copy_vec_znx_rows, mask_plan, matmul, torus_modulus_i128, MaskPlan, MaskSplit,
};
use poulpy_pir::server::recursion::{
    block_seed, body_chunk, crs_mask_seeds, digit_batches, digit_database, digit_matrix,
    inner_threads, key_stride, recompose, resp2_schedule, split_rows,
};
use poulpy_pir::server::{
    batch_mode, scratch_bytes, BatchMode, Duration, OfflineTimings, OnlineTimings, PrivateGemmX86,
    Query, QueryMasks, Server, ServerMemory, ServerPrecomputation,
};

fn recursion_config() -> Config<U256P65536> {
    Config {
        n: 64,
        base2k: DEFAULT_BASE2K,
        k: DEFAULT_K,
        collapse: Collapse::Recursion {
            gamma0: 32,
            gamma1: 32,
            gamma2: 16,
        },
        _phantom: PhantomData,
    }
}

fn interpolation_config(n: usize) -> Config<U256P65535> {
    Config {
        n,
        base2k: DEFAULT_BASE2K,
        k: DEFAULT_K,
        collapse: Collapse::Interpolation,
        _phantom: PhantomData,
    }
}

/// Query vectors of a plan: one in the hot slot.
fn vectors(blocks: &[Option<usize>], n: usize) -> Vec<Vec<i64>> {
    blocks
        .iter()
        .map(|&hot| selector_coefficients(hot, n, 1))
        .collect()
}

/// A payload is recovered from the product of the database with its query's selectors.
#[test]
fn server_client_roundtrip_recursion_generic_u256_chunked() {
    let config = recursion_config();
    let Collapse::Recursion { gamma0, .. } = config.collapse() else {
        panic!("test config must use Recursion");
    };
    let layout = DatabaseLayout::<U256P65536>::new(70 * gamma0, 70);
    let item = layout.num_payloads(gamma0) - 1;

    let mut payload = [0u8; 32];
    for (i, b) in payload.iter_mut().enumerate() {
        *b = (i as u8).wrapping_mul(19).wrapping_add(11);
    }

    assert!(Server::<U256P65536>::supports(&config, &layout));
    let mut server = Server::<U256P65536>::new(config, layout);
    server.update_shard(item, &[payload]);

    let client = Client::<U256P65536>::new(config, layout);
    let (plan, state) = client.query(item);
    let address = state.address();
    assert_eq!(address.column, 69);
    assert_eq!(address.matrix, 69);
    assert_eq!(address.row_offset, 16);

    let QueryPlan::Recursion(plan) = plan else {
        panic!("the plan belongs to the other construction");
    };
    assert_eq!(plan.src0, vec![None, Some(5)]);
    assert_eq!(plan.src1, vec![None, Some(5)]);

    // First level: every block-row times the column selector, cut into batches.
    let n = config.n();
    let bodies = vectors(&plan.src0, n);
    let db = server.database();
    let mut columns: Vec<Vec<i64>> = Vec::new();
    for group in 0..db.physical_rows() {
        let product = db.body_product(group, &bodies, 54);
        for local in 0..db.rows_per_physical_group() {
            columns.push(product[local * gamma0..(local + 1) * gamma0].to_vec());
        }
    }
    // Second level: the batch selector.
    let column = &columns[address.matrix];
    assert_eq!(*column, db.record(address.column, address.matrix));
    let response = Response::Recursion(RecursionResponse::new(Vec::new(), Vec::new()));
    assert_eq!(client.try_decode(&response, &state, column), Ok(payload));
    assert_eq!(server.get(item), payload);
}

#[test]
fn server_client_roundtrip_full_u256() {
    let config = interpolation_config(DEFAULT_N);
    let n = config.n();
    let layout = DatabaseLayout::<U256P65535>::new(2 * n, n);

    // Index 300_000 lands in block-row (matrix) 1, exercising the second dimension.
    let item: usize = 300_000;
    let mut payload = [0u8; 32];
    for (i, b) in payload.iter_mut().enumerate() {
        *b = (i as u8).wrapping_mul(7).wrapping_add(3);
    }

    let mut server = Server::<U256P65535>::new(config, layout);
    server.update_shard(item, &[payload]);

    let server_layout = server.layout();
    let address = server_layout.address(item, n, n);
    assert_eq!(
        address.matrix, 1,
        "item should resolve to the second matrix"
    );

    let client = Client::<U256P65535>::new(config, layout);
    let (plan, state) = client.query(item);
    let QueryPlan::Interpolation(plan) = plan else {
        panic!("the plan belongs to the other construction");
    };
    // Two matrices: the second root of unity is X^n = -1.
    assert_eq!(
        plan.root,
        Monomial {
            degree: 0,
            negative: true
        }
    );
    let column = server
        .database()
        .body_product(address.matrix, &vectors(&plan.blocks, n), 54);
    let response = Response::Interpolation(InterpolationResponse::new(LimbVec::zeros(n, 2, 1)));
    assert_eq!(client.try_decode(&response, &state, &column), Ok(payload));
}

#[test]
fn every_payload_is_selected_by_its_query() {
    let config = interpolation_config(32);
    let n = 32;
    let layout = DatabaseLayout::<U256P65535>::new(3 * n, 2 * n);
    let mut server = Server::<U256P65535>::new(config, layout);
    let capacity = layout.num_payloads(n);
    let payloads: Vec<[u8; 32]> = (0..capacity)
        .map(|e| {
            let mut v = [0u8; 32];
            for (i, b) in v.iter_mut().enumerate() {
                *b = (e * 37 + i * 11 + 1) as u8;
            }
            v
        })
        .collect();
    server.update_shard(0, &payloads);
    let client = Client::<U256P65535>::new(config, layout);
    let response = Response::Interpolation(InterpolationResponse::new(LimbVec::zeros(n, 2, 1)));
    for (item, want) in payloads.iter().enumerate() {
        let (plan, state) = client.try_query(item).unwrap();
        let QueryPlan::Interpolation(plan) = plan else {
            panic!("the plan belongs to the other construction");
        };
        let m = state.address.matrix;
        // Four roots of unity, a quarter turn apart.
        assert_eq!(plan.root.degree + if plan.root.negative { n } else { 0 }, m * 16);
        let column = server
            .database()
            .body_product(m, &vectors(&plan.blocks, n), 54);
        assert_eq!(client.try_decode(&response, &state, &column), Ok(*want));
    }
    assert_eq!(
        client.try_query(capacity).unwrap_err(),
        PirError::PayloadOutOfBounds {
            index: capacity,
            capacity
        }
    );
}

/// The digits of the second level give back the packed answer of the selected batch.
#[test]
fn second_level_recovers_a_packed_answer() {
    let (n, gamma0, tau, t) = (64usize, 32usize, 2usize, 70usize);
    let packed: Vec<LimbVec> = (0..t)
        .map(|k| {
            let mut g = LimbVec::zeros(n, 2, tau);
            for col in 0..2 {
                for l in 0..tau {
                    for c in 0..n {
                        let x = (k * 7919 + col * 104729 + l * 1299709 + c * 15485863) % 65536;
                        g.set(col, l, c, x as i64 - 32768);
                    }
                }
            }
            g
        })
        .collect();
    let mask = digit_database(&packed, 1, n, tau);
    let body = digit_database(&packed, 0, gamma0, tau);
    assert_eq!(mask.len(), 128);
    assert_eq!(body.len(), 64);
    let blocks = one_hot_blocks(67, n, t.div_ceil(n));
    let select = |digits: &[Vec<i16>], gamma: usize| -> Vec<i64> {
        let mut out = Vec::new();
        for batch in 0..digit_batches(digits.len(), gamma) {
            let mut acc = vec![0i64; gamma];
            for (block, &hot) in blocks.iter().enumerate() {
                let m = digit_matrix(digits, batch, gamma, block, n, t);
                assert_eq!((m.rows_out(), m.rows_in()), (gamma, n));
                let part = matmul(&m, &selector_coefficients(hot, n, 1), 54);
                for (a, p) in acc.iter_mut().zip(part) {
                    *a += p;
                }
            }
            out.extend(acc);
        }
        out.truncate(digits.len());
        out
    };
    let again = recompose(&select(&mask, 32), &select(&body, 16), n, gamma0, tau);
    for l in 0..tau {
        for c in 0..n {
            assert_eq!(again.get(1, l, c), packed[67].get(1, l, c));
            let want = if c < gamma0 { packed[67].get(0, l, c) } else { 0 };
            assert_eq!(again.get(0, l, c), want);
        }
    }
}

#[test]
fn digit_matrices_are_padded_with_zeros() {
    let digits: Vec<Vec<i16>> = (0..5).map(|i| vec![i * 10, i * 10 + 1, i * 10 + 2]).collect();
    let m = digit_matrix(&digits, 1, 3, 1, 2, 3);
    // Rows 3, 4 and one beyond; batches 2 and one beyond.
    assert_eq!(m.flat(), &[32, 0, 42, 0, 0, 0]);
}

#[test]
fn products_wrap_around_the_torus() {
    let layout = DatabaseLayout::<U256P65536>::new(32, 1);
    let mut db = poulpy_pir::store::Database::instantiate(layout, 64, 32);
    db.encode(&[(0..32).map(|j| j - 16).collect()]);
    let mut b = vec![0i64; 64];
    b[0] = 1 << 18;
    let out = db.body_product(0, &[b], 20);
    // 2^18 * v modulo 2^20, centred.
    assert_eq!(out[16], 0);
    assert_eq!(out[17], 1 << 18);
    assert_eq!(out[18], -(1 << 19));
    assert_eq!(out[19], -(1 << 18));
    assert_eq!(out[15], -(1 << 18));
    assert_eq!(out[40], 0);
    assert_eq!(torus_modulus_i128(62), 1i128 << 62);
    assert_eq!(torus_modulus_i128(0), 1);
}

#[test]
fn split_rows_cuts_batches_and_clears_the_rest() {
    let mut product = LimbVec::zeros(8, 1, 2);
    for l in 0..2 {
        for i in 0..8 {
            product.set(0, l, i, (10 * l + i) as i64);
        }
    }
    // Four batches per group, but only six in all: the second group has two.
    let bodies = split_rows(&product, 1, 4, 6, 2);
    assert_eq!(bodies.len(), 2);
    assert_eq!(bodies[1].get(0, 1, 0), 12);
    assert_eq!(bodies[1].get(0, 1, 1), 13);
    assert_eq!(bodies[1].get(0, 1, 2), 0);
    assert_eq!(split_rows(&product, 0, 4, 6, 2).len(), 4);
    assert!(split_rows(&product, 2, 4, 6, 2).is_empty());

    let mut dst = LimbVec::zeros(4, 1, 2);
    copy_vec_znx_rows(&mut dst, 1, &product, 5, 2);
    assert_eq!(dst.data, vec![0, 5, 6, 0, 0, 15, 16, 0]);
}

#[test]
fn plans_divide_the_work() {
    assert!(matches!(mask_plan(4, 8, 1, MaskSplit::Cols), MaskPlan::Sequential));
    assert!(matches!(mask_plan(4, 8, 0, MaskSplit::Blocks), MaskPlan::Sequential));
    match mask_plan(4, 8, 3, MaskSplit::Cols) {
        MaskPlan::Cols(runs) => assert_eq!(runs, vec![(0, 3), (3, 3), (6, 2)]),
        other => panic!("{other:?}"),
    }
    match mask_plan(5, 8, 3, MaskSplit::Blocks) {
        MaskPlan::Blocks(runs) => assert_eq!(runs, vec![(0, 2), (2, 2), (4, 1)]),
        other => panic!("{other:?}"),
    }
    match mask_plan(2, 8, 3, MaskSplit::Blocks) {
        MaskPlan::Blocks(runs) => assert_eq!(runs, vec![(0, 1), (1, 1)]),
        other => panic!("{other:?}"),
    }
    match mask_plan(1, 8, 2, MaskSplit::Blocks) {
        MaskPlan::Cols(runs) => assert_eq!(runs, vec![(0, 4), (4, 4)]),
        other => panic!("{other:?}"),
    }

    // Three block-rows of ten rows for eight workers: bands of four.
    let plan = body_plan(3, 10, 8);
    let tiles: Vec<(usize, usize, usize)> =
        plan.tiles.iter().map(|t| (t.group, t.start, t.len)).collect();
    assert_eq!(tiles.len(), 9);
    assert_eq!(&tiles[3..6], &[(1, 0, 4), (1, 4, 4), (1, 8, 2)]);
    assert_eq!(plan.chunk, 2);
    let plan = body_plan(4, 10, 2);
    assert_eq!(plan.tiles.len(), 4);
    assert_eq!(plan.chunk, 2);

    assert_eq!(chunk_runs(10, 4), vec![(0, 4), (4, 4), (8, 2)]);
    assert_eq!(chunk_runs(0, 4), vec![]);
    assert_eq!(missing_arenas(3, 8), 5);
    assert_eq!(missing_arenas(8, 3), 0);
    assert_eq!(panel_block(3, 5, 2, 4), 17);
}

#[test]
fn second_level_schedules_stay_within_the_budget() {
    assert_eq!(resp2_schedule(4, 16, 8, true, None, None), (4, 4));
    assert_eq!(resp2_schedule(4, 16, 2, true, None, None), (2, 8));
    assert_eq!(resp2_schedule(4, 16, 0, false, None, None), (4, 4));
    assert_eq!(resp2_schedule(4, 0, 8, true, None, None), (1, 1));
    assert_eq!(resp2_schedule(64, 16, 64, true, Some(100), Some(100)), (16, 1));
    assert_eq!(resp2_schedule(64, 16, 64, true, Some(3), None), (3, 5));
    assert_eq!(resp2_schedule(64, 16, 64, true, Some(3), Some(2)), (3, 2));
    assert_eq!(inner_threads(16, 5), 3);
    assert_eq!(inner_threads(2, 5), 1);

    let offline = pack_mask_plan(128, 32, 6, 100, None);
    assert_eq!((offline.units, offline.inner, offline.work.len()), (4, 1, 4));
    let offline = pack_mask_plan(128, 32, 9, 2, None);
    assert_eq!((offline.units, offline.inner, offline.work.len()), (4, 4, 2));
    let pool = PoolInfo {
        len: 2,
        pooled: true,
        outer_request: None,
        inner_request: None,
    };
    let online = pack_mask_plan(129, 32, 8, 100, Some(pool));
    assert_eq!((online.units, online.inner, online.work.len()), (5, 4, 2));
}

#[test]
fn passes_fit_the_body_budget() {
    // 2048 * 3 * 8 bytes per body and 2^12 bodies per query: ten queries per pass.
    assert_eq!(body_chunk(100, 4096, 2048, 3), 10);
    assert_eq!(body_chunk(4, 4096, 2048, 3), 4);
    assert_eq!(body_chunk(4, usize::MAX, 2048, 3), 1);
    assert_eq!(body_chunk(7, 0, 2048, 3), 7);
    let server = Server::<U256P65536>::new(
        recursion_config(),
        DatabaseLayout::<U256P65536>::new(70 * 32, 70),
    );
    assert_eq!(server.recursion_passes(5), vec![(0, 5)]);
    let shape = server.recursion_offline_shape().unwrap();
    assert_eq!((shape.n, shape.size, shape.t, shape.tau), (64, 3, 70, 2));
    assert_eq!((shape.gamma0, shape.gamma1), (32, 32));
    assert_eq!((shape.base2k, shape.baby_size), (18, 8));
    let threads = Threads {
        requested: Some(10),
        detected: 4,
    };
    let l1 = server.recursion_l1_plan(&threads);
    assert_eq!((l1.units, l1.inner, l1.work.len()), (35, 1, 10));
    assert_eq!(key_stride(64, 16), 2);
}

#[test]
fn panels_are_shared_among_workers() {
    let n = 32;
    let server = Server::<U256P65535>::new(
        interpolation_config(n),
        DatabaseLayout::<U256P65535>::new(3 * n, 2 * n),
    );
    assert_eq!(server.interpolation_panels(), 4);
    assert!(server.recursion_offline_shape().is_none());
    let threads = Threads {
        requested: None,
        detected: 9,
    };
    let online = server.interpolation_online_plan(&threads);
    assert_eq!((online.units, online.inner, online.work.len()), (4, 1, 4));
    assert!(online.work.iter().flatten().all(|w| w.col_len == 2));
    let offline = server.interpolation_offline_plan(&threads);
    assert_eq!((offline.units, offline.inner, offline.work.len()), (4, 2, 4));
    let out = transpose(vec![vec!["a0", "b0"], vec!["a1", "b1"], vec!["a2", "b2"]], 2);
    assert_eq!(out, vec![vec!["a0", "a1", "a2"], vec!["b0", "b1", "b2"]]);
    assert_eq!(transpose(Vec::<Vec<u8>>::new(), 2), vec![vec![], vec![]]);
}

#[test]
fn unsupported_layouts_are_recognized() {
    let n = 32;
    let config = interpolation_config(n);
    let ok = |rows, cols| {
        Server::<U256P65535>::supports(&config, &DatabaseLayout::<U256P65535>::new(rows, cols))
    };
    assert!(ok(n, n));
    assert!(ok(64 * n, n));
    assert!(!ok(65 * n, n));
    assert!(!ok(n + 1, n));
    assert!(!ok(n, n + 1));
    let rec = recursion_config();
    let ok = |rows, cols| {
        Server::<U256P65536>::supports(&rec, &DatabaseLayout::<U256P65536>::new(rows, cols))
    };
    assert!(ok(32, 1));
    assert!(!ok(33, 1));
    assert!(!ok(16, 1));
}

/// One all-zero mask per dimension.
fn zero_masks(n: usize) -> QueryMasks {
    let mask = || QueryMask {
        rows: n,
        cols: n,
        values: vec![0; n * n],
    };
    QueryMasks {
        first: vec![mask()],
        second: vec![mask()],
    }
}

#[test]
fn installing_a_database_swaps_it() {
    let layout = DatabaseLayout::<U256P65536>::new(64, 64);
    let mut server = Server::<U256P65536>::new(recursion_config(), layout);
    server.update_shard(3, &[[1; 32]]);
    server.generate_query_mask(zero_masks(64));
    let worker = server.precomp_context();
    let mut staging = worker.new_database();
    staging.encode_shard(3, &[[2; 32]]);
    let threads = Threads {
        requested: Some(2),
        detected: 1,
    };
    let precomputation = worker.offline_for(&staging, &threads, MaskSplit::Cols);
    server.install(&mut staging, precomputation);
    assert_eq!(server.get(3), [2; 32]);
    assert_eq!(staging.payload(3), [1; 32]);
    assert!(matches!(
        server.precomputation,
        Some(ServerPrecomputation::Recursion(_))
    ));
    assert_eq!(server.params().n(), 64);
    server.encode(&[vec![5; 32]]);
    assert_eq!(server.database().record(0, 0), vec![5; 32]);
}

#[test]
fn mask_seeds_number_their_blocks() {
    let seed = [7u8; 32];
    let seeds = crs_mask_seeds(seed, 130, 64);
    assert_eq!(seeds.len(), 3);
    for (b, s) in seeds.iter().enumerate() {
        assert_eq!(&s[..28], &seed[..28]);
        assert_eq!(&s[28..], &(b as u32).to_le_bytes());
    }
    assert_eq!(&block_seed(seed, 0x0102_0304)[28..], &[4, 3, 2, 1]);
}

/// The system's bytes are not all zero, and differ from call to call.
#[test]
fn random_seeds_differ() {
    let a = ServerSeed::random().expect("the system has random bytes");
    let b = ServerSeed::random().expect("the system has random bytes");
    assert_ne!(a, b);
    assert_ne!(a.root, [0u8; 32]);
    assert_eq!(ServerSeed::from_slice(&a.root), ServerSeed::new(a.root));
    let crs = CRS(a.root);
    assert_eq!(crs.as_bytes(), &a.root);
}

#[test]
fn roots_are_signed_monomials() {
    assert_eq!(root_exponent(32, 3, 4), 48);
    assert_eq!(root_exponent(32, 0, 0), 0);
    let m = root_monomial(32, 48);
    assert_eq!((m.degree, m.negative), (16, true));
    let m = root_monomial(32, 64 + 5);
    assert_eq!((m.degree, m.negative), (5, false));
    assert_eq!(one_hot_blocks(70, 64, 3), vec![None, Some(6), None]);
    assert_eq!(selector_coefficients(Some(1), 3, -4), vec![0, -4, 0]);
    assert_eq!(selector_coefficients(None, 2, 9), vec![0, 0]);
}

fn auto_key() -> AutoKey {
    AutoKey {
        p: 5,
        seeds: Vec::new(),
        bodies: Vec::new(),
    }
}

fn interpolation_query() -> Query {
    Query::Interpolation(InterpolationQuery {
        blocks: Vec::new(),
        key_g: auto_key(),
        key_h: auto_key(),
        root: GgswCompressed {
            seeds: Vec::new(),
            bodies: Vec::new(),
        },
    })
}

fn recursion_query() -> Query {
    let key = || CompressedKey {
        stride: 1,
        key: auto_key(),
    };
    Query::Recursion(RecursionQuery {
        src0: Vec::new(),
        src1: Vec::new(),
        gamma0: key(),
        gamma1: key(),
        gamma2: key(),
    })
}

#[test]
fn batches_of_one_construction_share_a_pass() {
    assert_eq!(batch_mode(&[]), BatchMode::Empty);
    assert_eq!(
        batch_mode(&[interpolation_query(), interpolation_query()]),
        BatchMode::Interpolation
    );
    assert_eq!(batch_mode(&[recursion_query()]), BatchMode::Recursion);
    assert_eq!(
        batch_mode(&[recursion_query(), interpolation_query()]),
        BatchMode::OneByOne
    );
    assert_eq!(interpolation_query().kind(), CollapseKind::Interpolation);
}

fn nanos(n: u128) -> Duration {
    Duration::from_nanos(n)
}

#[test]
fn offline_reports_add_up() {
    let mut t = OfflineTimings::default();
    assert_eq!(t.total().as_nanos(), 0);
    t.interpolation = nanos(5);
    t.ua_mask = nanos(7);
    assert_eq!(t.total().as_nanos(), 12);
    let mut t = OfflineTimings::default();
    t.add_interpolation("a", nanos(1));
    t.add_prepare_u("b", nanos(2));
    t.add_ua_mask("c", nanos(3));
    t.add_mask_prep("d", nanos(4));
    t.add_pack_precompute("e", nanos(5));
    t.record_phase("f", nanos(100));
    assert_eq!(t.total().as_nanos(), 115);
    assert_eq!(t.pack_precompute, nanos(5));
    let names: Vec<&str> = t.phases().iter().map(|p| p.name()).collect();
    assert_eq!(names, vec!["a", "b", "c", "d", "e", "f"]);
    assert_eq!(t.phases()[5].duration(), nanos(100));
}

#[test]
fn online_reports_merge_phases_by_name() {
    let mut a = OnlineTimings::default();
    a.reduce = nanos(3);
    assert_eq!(a.total().as_nanos(), 3);
    let mut a = OnlineTimings::default();
    a.add_key_precompute("key", nanos(1));
    a.add_pack("pack", nanos(2));
    a.add_pack("pack", nanos(40));
    let mut b = OnlineTimings::default();
    b.add_pack("pack", nanos(10));
    b.add_reduce("reduce", nanos(100));
    b.add_reduce("reduce", nanos(1000));
    b.add_prepare_db("x", nanos(0));
    b.add_mask_product("x", nanos(0));
    b.add_body_product("x", nanos(0));
    b.add_mask_prep("x", nanos(0));
    b.add_pack_precompute("x", nanos(0));
    b.add_decompose("x", nanos(0));
    b.add_reduce_precompute("x", nanos(0));
    let (ta, tb) = (a.total().as_nanos(), b.total().as_nanos());
    a.accumulate(&b);
    assert_eq!(a.total().as_nanos(), ta + tb);
    let phases: Vec<(&str, u128)> = a
        .phases()
        .iter()
        .map(|p| (p.name(), p.duration().as_nanos()))
        .collect();
    // The first phase of a name takes what follows under that name.
    assert_eq!(
        phases,
        vec![("key", 1), ("pack", 12), ("pack", 40), ("reduce", 1100), ("x", 0)]
    );
    assert_eq!(a.pack, nanos(52));
    assert_eq!(a.reduce, nanos(1100));
    assert_eq!(longest(&[nanos(3), nanos(9), nanos(4)]), nanos(9));
    assert_eq!(together(&[nanos(3), nanos(9), nanos(4)]), nanos(16));
}

#[test]
fn memory_and_scratch_sizes() {
    let m = ServerMemory {
        database: 100,
        precomputation: 20,
        online_scratch_pool: 3,
    };
    assert_eq!(m.total(), 123);
    assert_eq!(scratch_bytes(&[3, 17, 5]), 17);
    assert_eq!(scratch_bytes(&[]), 0);
    assert_eq!(PrivateGemmX86, PrivateGemmX86);
}

#[test]
fn layouts_follow_the_parameters() {
    let params = recursion_config().new();
    assert_eq!(params.tau(), 2);
    assert_eq!(params.qtilde_bits(), 32);
    assert_eq!((params.dnum(), params.dsize(), params.baby_size()), (3, 1, 8));
    let q = params.glwe_query();
    assert_eq!((q.n, q.base2k, q.k, q.rank), (64, 16, 54, 1));
    assert_eq!(params.glwe_pack().base2k, 18);
    assert_eq!(params.glwe_mask().base2k, 32);
    assert_eq!(params.key_layout().dnum, 3);
    assert_eq!(params.ggsw_layout().rank, 1);
    let m = params.lwe_matrix_infos();
    assert_eq!((m.rows, m.n, m.base2k, m.k), (64, 64, 18, 54));
    let m = params.mask_regime_infos();
    assert_eq!((m.base2k, m.k), (32, 64));
    let infos = params.packing_precompute_infos();
    assert_eq!((infos.steps(), infos.size(), infos.baby_size()), (63, 3, 8));
    assert_eq!(params.p(), 65536);
    assert_eq!(params.digits(), 16);
    assert_eq!(params.column_height(), 32);
    assert_eq!(params.matmul_base2k(), 16);
    assert_eq!(params.mask_base2k(), 32);
    assert_eq!(params.encoder().k, 54);
    let mut digits = [0i16; 16];
    params.encode(&mut digits, [3; 32]);
    let mut value = [0u8; 32];
    params.decode(&mut value, &digits);
    assert_eq!(value, [3; 32]);
}

#[test]
fn constructors_agree_on_the_configuration() {
    let config = recursion_config();
    let layout = DatabaseLayout::<U256P65536>::new(64, 64);
    for server in [
        Server::<U256P65536>::new(config, layout),
        Server::<U256P65536>::from_params(config.new(), layout),
        Server::<U256P65536>::interpolation(config, layout),
        Server::<U256P65536>::recursion(config, layout),
    ] {
        assert_eq!(server.params().collapse(), config.collapse());
        assert_eq!(server.params().n(), 64);
        assert!(server.masks.is_none());
        assert_eq!(server.database().record(63, 1), vec![0; 32]);
    }
}

#[test]
fn seeds_follow_the_outcome_of_the_entropy_source() {
    let mut bytes = [0u8; 32];
    for (i, b) in bytes.iter_mut().enumerate() {
        *b = (i as u8).wrapping_mul(7);
    }
    assert_eq!(
        ServerSeed::from_fill(Ok(()), &bytes),
        Ok(ServerSeed::new(bytes))
    );
    assert_eq!(
        ServerSeed::from_fill(Err(getrandom::Error::UNEXPECTED), &bytes),
        Err(NoEntropy)
    );
}

#[test]
fn one_payload_is_overwritten() {
    let layout = DatabaseLayout::<U256P65536>::new(64, 64);
    let mut server = Server::<U256P65536>::new(recursion_config(), layout);
    assert_eq!(server.server_seed(), ServerSeed::default());
    server.update_shard(10, &[[1; 32], [2; 32], [3; 32]]);
    server.update(11, [9; 32]);
    assert_eq!(server.get(10), [1; 32]);
    assert_eq!(server.get(11), [9; 32]);
    assert_eq!(server.get(12), [3; 32]);
    let records = vec![vec![7i64; 32]];
    server.database_mut().encode(&records);
    assert_eq!(server.database().record(0, 0), vec![7; 32]);
    assert_eq!(server.get(11), [9; 32]);
    let server = server.with_server_seed(ServerSeed::new([5; 32]));
    assert_eq!(server.server_seed().root, [5; 32]);
    assert_eq!(server.get(11), [9; 32]);
}

/// Every entry is listed in order and counted once.
#[test]
fn reports_count_every_entry_once() {
    let mut t = OnlineTimings::default();
    t.add_key_precompute("a", nanos(1));
    t.add_prepare_db("b", nanos(2));
    t.add_mask_product("a", nanos(4));
    t.add_body_product("c", nanos(8));
    t.add_mask_prep("d", nanos(16));
    t.add_pack_precompute("e", nanos(32));
    t.add_pack("f", nanos(64));
    t.add_decompose("g", nanos(128));
    t.add_reduce_precompute("h", nanos(256));
    t.add_reduce("i", nanos(512));
    assert_eq!(t.total(), nanos(1023));
    assert_eq!(t.phases().len(), 10);
    assert_eq!(t.phases()[2].name(), "a");
    assert_eq!(t.mask_product, nanos(4));
    let mut u = OnlineTimings::default();
    u.record_phase("z", nanos(1000));
    u.accumulate(&t);
    assert_eq!(u.total(), nanos(2023));
    let names: Vec<&str> = u.phases().iter().map(|p| p.name()).collect();
    assert_eq!(names, vec!["z", "a", "b", "c", "d", "e", "f", "g", "h", "i"]);
    assert_eq!(u.phases()[1].duration(), nanos(5));
    let mut o = OfflineTimings::default();
    o.add_ua_mask("x", nanos(3));
    o.add_ua_mask("x", nanos(4));
    o.record_phase("x", nanos(5));
    assert_eq!(o.phases().len(), 3);
    assert_eq!(o.ua_mask, nanos(7));
    assert_eq!(o.total(), nanos(12));
}

/// What is packed for a query of a batch is what is packed for it alone.
#[test]
fn bodies_of_a_batch_are_those_of_each_query() {
    // Rows of the products with three queries, side by side.
    let product: Vec<i128> = vec![
        1, 10, 100, //
        2, 20, 200, //
        3, 30, 300, //
        -4, -40, -400,
    ];
    assert_eq!(query_body(&product, 3, 0, 0, 4, 4), vec![1, 2, 3, -4]);
    assert_eq!(query_body(&product, 3, 2, 0, 4, 4), vec![100, 200, 300, -400]);
    assert_eq!(query_body(&product, 3, 1, 2, 2, 4), vec![30, -40, 0, 0]);
    let alone: Vec<i128> = vec![10, 20, 30, -40];
    assert_eq!(
        query_body(&product, 3, 1, 1, 2, 3),
        query_body(&alone, 1, 0, 1, 2, 3)
    );
    assert_eq!(query_body(&alone, 1, 0, 4, 0, 2), vec![0, 0]);
}

#[test]
fn reports_and_memory_start_empty_and_are_cloned_whole() {
    let memory = ServerMemory::default();
    assert_eq!(
        (
            memory.database,
            memory.precomputation,
            memory.online_scratch_pool,
            memory.total()
        ),
        (0, 0, 0, 0)
    );
    let mut online = OnlineTimings::default();
    online.add_pack("a", nanos(3));
    let copy = online.clone();
    online.add_pack("b", nanos(4));
    assert_eq!((copy.total(), online.total()), (nanos(3), nanos(7)));
    let mut offline = OfflineTimings::default();
    offline.add_ua_mask("a", nanos(5));
    assert_eq!(offline.clone().total(), nanos(5));
}
