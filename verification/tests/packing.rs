use poulpy_pir::limbs::LimbVec;
use poulpy_pir::packing::bsgs_pack::{
    baby_automorphism, giant_automorphism, giant_automorphisms, mask_column_automorphisms,
    pack_program, PackOp,
};
use poulpy_pir::packing::collapse::{collapse_plan, secret_view};
use poulpy_pir::packing::keys::{
    baby_rotations, check_full_pack_keys, check_partial_pack_key, key_entries, key_g_rotation,
    key_view, mask_key_layout, KeyHeader, KeyLayout, KeyMismatch, KeyView,
};
use poulpy_pir::packing::mask_preprocessing::{
    mask_column_plans, mask_preprocessing_arithmetic_base2k, mask_preprocessing_arithmetic_size,
    mask_tree_schedule, packing_mask_preprocessing_tmp_bytes,
    packing_mask_preprocessing_work_tmp_bytes,
};
use poulpy_pir::packing::precompute_infos::arithmetic_precompute_metadata;
use poulpy_pir::packing::recursion::{
    balance_base2k16_data, decompose_digits, limb_to_digit, modulus_switch_to_digits,
    qtilde_glwe_layout,
};
use poulpy_pir::packing::scratch::{
    fixed_mask_1x1_vmp_body_addend_tmp_bytes, pack_precompute_tmp_bytes,
    packing_mask_keys_precompute_tmp_bytes,
    precompute_sequential_keyswitch_collapse_aggregate_mask_tmp_bytes,
    sequential_collapse_bsgs_dft_build_tmp_bytes, ProductScratch,
};
use poulpy_pir::packing::PackingPrecomputeInfos;
use poulpy_pir::ring::{galois_element, galois_element_inv};

type Poly = Vec<i128>;

fn automorphism(p: i64, f: &Poly) -> Poly {
    let n = f.len() as i64;
    let mut out = vec![0i128; f.len()];
    for (i, &c) in f.iter().enumerate() {
        let e = (i as i64 * p).rem_euclid(2 * n);
        if e < n {
            out[e as usize] += c;
        } else {
            out[(e - n) as usize] -= c;
        }
    }
    out
}

fn rotate(k: usize, f: &Poly) -> Poly {
    let n = f.len();
    let mut out = vec![0i128; n];
    for (i, &c) in f.iter().enumerate() {
        let e = (i + k) % (2 * n);
        if e < n {
            out[e] += c;
        } else {
            out[e - n] -= c;
        }
    }
    out
}

fn sum(a: &Poly, b: &Poly) -> Poly {
    a.iter().zip(b).map(|(x, y)| x + y).collect()
}

fn product(a: &Poly, b: &Poly) -> Poly {
    let n = a.len();
    let mut out = vec![0i128; n];
    for i in 0..n {
        for j in 0..n {
            if i + j < n {
                out[i + j] += a[i] * b[j];
            } else {
                out[i + j - n] -= a[i] * b[j];
            }
        }
    }
    out
}

fn noise(n: usize, seed: u64) -> Poly {
    let mut x = seed.wrapping_mul(0x9E37_79B9_7F4A_7C15) | 1;
    (0..n)
        .map(|_| {
            x ^= x << 13;
            x ^= x >> 7;
            x ^= x << 17;
            (x % 2001) as i128 - 1000
        })
        .collect()
}

/// Streams the leaves through a binary-counter tree as the schedule says.
fn tree_sum(schedule: &[usize], leaves: Vec<Poly>) -> Poly {
    let n = leaves[0].len();
    let levels = n.trailing_zeros() as usize;
    let mut tree = vec![vec![0i128; n]; levels];
    let mut out = None;
    for (leaf, &level) in leaves.into_iter().zip(schedule) {
        let mut stage = leaf;
        for below in tree.iter().take(level) {
            stage = sum(&stage, below);
        }
        if level < levels {
            tree[level] = stage;
        } else {
            out = Some(stage);
        }
    }
    out.expect("the last leaf leaves the tree")
}

/// Every aggregate column times its share, summed, is `n` times the polynomial of the
/// inner products of the rows with the secret.
#[test]
fn aggregate_decrypts_to_inner_products() {
    for n in [4usize, 8, 16, 32] {
        let rows: Vec<Poly> = (0..n).map(|k| noise(n, 100 + k as u64)).collect();
        let secret = noise(n, 7);
        let plans = mask_column_plans(n);
        let schedule = mask_tree_schedule(n.trailing_zeros() as usize);
        assert_eq!(plans.len(), n / 2);
        assert_eq!(schedule.len(), n);
        let mut total = vec![0i128; n];
        for plan in &plans {
            let images: Vec<Poly> = rows
                .iter()
                .map(|r| automorphism(plan.automorphism, r))
                .collect();
            let first = tree_sum(
                &schedule,
                images
                    .iter()
                    .enumerate()
                    .map(|(k, f)| rotate(k, &automorphism(-1, f)))
                    .collect(),
            );
            let second = tree_sum(
                &schedule,
                images
                    .iter()
                    .enumerate()
                    .map(|(k, f)| rotate(k, f))
                    .collect(),
            );
            let j = plan.first_col;
            let share = automorphism(secret_view(n, 1, false, j), &secret);
            total = sum(&total, &product(&first, &share));
            let share = automorphism(secret_view(n, 1, true, plan.second_col - n / 2), &secret);
            total = sum(&total, &product(&second, &share));
        }
        for k in 0..n {
            let inner: i128 = rows[k].iter().zip(&secret).map(|(a, s)| a * s).sum();
            assert_eq!(total[k], n as i128 * inner, "n = {n}, coefficient {k}");
        }
    }
}

#[test]
fn tree_schedule_of_eight_leaves() {
    assert_eq!(mask_tree_schedule(3), vec![0, 1, 0, 2, 0, 1, 0, 3]);
}

/// A collapse with exact key switches keeps the phase.
#[test]
fn collapse_keeps_the_phase() {
    let n = 16usize;
    let infos = PackingPrecomputeInfos::new(n - 1, 3, 18, 8);
    let plan = collapse_plan(n, infos);
    assert_eq!(plan.first_half.len(), n / 2 - 1);
    assert_eq!(plan.second_half.len(), n / 2 - 1);
    assert_eq!(plan.second_half_offset, n / 2);
    assert_eq!(plan.key_h_step, Some(n - 2));
    let secret = noise(n, 3);
    for (half, steps) in [(false, &plan.first_half), (true, &plan.second_half)] {
        let mut work: Vec<Poly> = (0..n / 2).map(|c| noise(n, 50 + c as u64)).collect();
        let share = |c: usize| automorphism(secret_view(n, 1, half, c), &secret);
        let mut want = vec![0i128; n];
        for (c, f) in work.iter().enumerate() {
            want = sum(&want, &product(f, &share(c)));
        }
        // Key switch of a term under the share of column one to the share of column zero,
        // with a mask that does not matter for the phase.
        let mut body = vec![0i128; n];
        for (i, s) in steps.iter().enumerate() {
            assert_eq!(s.step, if half { n / 2 - 1 + i } else { i });
            assert_eq!(s.source_col, s.target_col + 1);
            let term = automorphism(s.term_automorphism, &work[s.source_col]);
            let mask = noise(n, 900 + i as u64);
            let masked = product(&mask, &secret);
            let phase = product(&term, &automorphism(5, &secret));
            let addend: Poly = phase.iter().zip(&masked).map(|(p, m)| p - m).collect();
            body = sum(&body, &automorphism(s.addend_automorphism, &addend));
            let image = automorphism(s.addend_automorphism, &mask);
            work[s.target_col] = sum(&work[s.target_col], &image);
            work[s.source_col] = vec![0i128; n];
        }
        let got = sum(&body, &product(&work[0], &share(0)));
        assert_eq!(got, want);
    }
    let partial = collapse_plan(n, PackingPrecomputeInfos::new_partial(3, 3, 18, 8, 2));
    assert_eq!(partial.first_half.len(), 3);
    assert!(partial.second_half.is_empty());
    assert_eq!(partial.second_half_offset, 4);
    assert_eq!(partial.key_h_step, None);
}

/// The program multiplies every stored mask exactly once and rebuilds each step's
/// automorphism from a giant and a baby one, for every chunk size.
#[test]
fn pack_program_visits_every_step_once() {
    let n = 32usize;
    let infos = PackingPrecomputeInfos::new(n - 1, 3, 18, 8);
    let giants = giant_automorphisms(n, infos);
    assert_eq!(giants.len(), infos.bsgs_group_count());
    let views = mask_column_automorphisms(n, infos);
    let mut reference: Option<Vec<(usize, Vec<(usize, usize)>)>> = None;
    for chunk in [1usize, 2, 3, 7] {
        let mut slots = vec![(0usize, 0usize); chunk * infos.baby_size()];
        let mut group = Vec::new();
        let mut closed = Vec::new();
        let mut last = Vec::new();
        for op in pack_program(infos, chunk) {
            match op {
                PackOp::Product { slot, step, baby } => slots[slot] = (step, baby),
                PackOp::ClearGroup => group = Vec::new(),
                PackOp::AddProduct { slot } => group.push(slots[slot]),
                PackOp::CloseGroup { group_idx } => closed.push((group_idx, group.clone())),
                PackOp::FinalProduct { step } => last.push(step),
            }
        }
        assert_eq!(last, vec![infos.bsgs_kg_steps()]);
        let mut seen = vec![0; infos.bsgs_kg_steps()];
        for (g, terms) in &closed {
            assert_eq!(giants[*g], giant_automorphism(n, infos, *g));
            assert_eq!(terms.len(), infos.bsgs_group_len(*g));
            for &(step, _) in terms {
                seen[step] += 1;
                assert!(step < views.len());
            }
        }
        assert!(seen.iter().all(|&c| c == 1));
        if let Some(r) = &reference {
            assert_eq!(r, &closed);
        }
        reference = Some(closed);
    }
}

#[test]
fn group_shape_of_the_default_ring() {
    let infos = PackingPrecomputeInfos::new(2047, 3, 18, 8);
    assert_eq!(infos.steps(), 2047);
    assert_eq!(infos.size(), 3);
    assert_eq!(infos.base2k(), 18);
    assert_eq!(infos.baby_size(), 8);
    assert_eq!(infos.stride(), 1);
    assert!(!infos.partial());
    assert_eq!(infos.bsgs_kg_steps(), 2046);
    assert_eq!(infos.bsgs_half_steps(), 1023);
    assert_eq!(infos.bsgs_groups_per_half(), 128);
    assert_eq!(infos.bsgs_group_count(), 256);
    assert_eq!(infos.bsgs_group_start_step(0), 0);
    assert_eq!(infos.bsgs_group_start_step(128), 1023);
    assert_eq!(infos.bsgs_group_len(127), 7);
    assert_eq!(infos.bsgs_group_len(128), 8);
    let total: usize = (0..256).map(|g| infos.bsgs_group_len(g)).sum();
    assert_eq!(total, 2046);
    let wide = arithmetic_precompute_metadata(infos);
    assert_eq!(wide.steps(), infos.steps());
    assert_eq!(wide.stride(), infos.stride());
}

#[test]
fn galois_elements_of_degree_eight() {
    assert_eq!(galois_element(0, 16), 1);
    assert_eq!(galois_element(1, 16), 5);
    assert_eq!(galois_element(2, 16), 9);
    assert_eq!(galois_element(3, 16), 13);
    assert_eq!(galois_element(-1, 16), -5);
    for g in [1i64, 5, 9, 13, 3, 7] {
        let inv = galois_element_inv(g, 16);
        assert_eq!((g * inv).rem_euclid(16), 1);
        let inv = galois_element_inv(-g, 16);
        assert_eq!((-g * inv).rem_euclid(16), 1);
    }
    assert_eq!(baby_automorphism(8, 1, 0), 1);
}

fn layout() -> KeyLayout {
    KeyLayout {
        n: 64,
        base2k: 18,
        k: 54,
        rank_in: 1,
        rank_out: 1,
        dnum: 3,
        dsize: 1,
    }
}

fn header(p: i64) -> KeyHeader {
    KeyHeader {
        layout: layout(),
        p,
        seeds: vec![[1; 32], [2; 32], [3; 32]],
    }
}

#[test]
fn every_key_mismatch_is_named() {
    let n = 64usize;
    let g = key_g_rotation(n, 1);
    assert_eq!(g, 5);
    assert_eq!(check_full_pack_keys(&header(g), &header(-1), n), Ok(()));
    assert_eq!(
        check_full_pack_keys(&header(3), &header(-1), n),
        Err(KeyMismatch::KeyGRotation)
    );
    assert_eq!(
        check_full_pack_keys(&header(g), &header(1), n),
        Err(KeyMismatch::KeyHRotation)
    );
    let mut h = header(-1);
    h.seeds[2] = [9; 32];
    assert_eq!(
        check_full_pack_keys(&header(g), &h, n),
        Err(KeyMismatch::MaskSeed)
    );
    let cases: [(fn(&mut KeyLayout), KeyMismatch); 6] = [
        (|l| l.n = 32, KeyMismatch::Degree),
        (|l| l.base2k = 17, KeyMismatch::Base2k),
        (|l| l.k = 53, KeyMismatch::Precision),
        (|l| l.rank_in = 2, KeyMismatch::InputRank),
        (|l| l.dnum = 2, KeyMismatch::Dnum),
        (|l| l.dsize = 2, KeyMismatch::Dsize),
    ];
    for (change, want) in cases {
        let mut h = header(-1);
        change(&mut h.layout);
        assert_eq!(check_full_pack_keys(&header(g), &h, n), Err(want));
    }
    let stride = 4;
    let partial = key_g_rotation(n, stride);
    assert_eq!(partial, 625 % 128);
    assert_eq!(check_partial_pack_key(&header(partial), n, stride), Ok(()));
    assert_eq!(
        check_partial_pack_key(&header(5), n, stride),
        Err(KeyMismatch::KeyGRotation)
    );
}

#[test]
fn key_entries_follow_rows() {
    let entries = key_entries(2, 3);
    let flat: Vec<(usize, usize, usize)> =
        entries.iter().map(|e| (e.row, e.col, e.seed)).collect();
    assert_eq!(
        flat,
        vec![(0, 0, 0), (0, 1, 1), (0, 2, 2), (1, 0, 3), (1, 1, 4), (1, 2, 5)]
    );
    assert_eq!(key_view(1), KeyView::Copy);
    assert_eq!(key_view(-1), KeyView::Automorphism(-1));
    assert_eq!(mask_key_layout(layout()).n, 64);
    let rotations = baby_rotations(64, 5, 1, 4);
    assert_eq!(rotations.len(), 4);
    assert_eq!(rotations[0], 5);
}

#[test]
fn aggregation_widths_and_scratch() {
    assert_eq!(mask_preprocessing_arithmetic_base2k(18), 60);
    assert_eq!(mask_preprocessing_arithmetic_base2k(61), 61);
    assert_eq!(mask_preprocessing_arithmetic_size(3, 18), 1);
    assert_eq!(mask_preprocessing_arithmetic_size(4, 18), 2);
    assert_eq!(mask_preprocessing_arithmetic_size(0, 18), 1);
    // 64 * 64 * 8 bytes transposed, 512 per column, 6 tree levels, 128 rounded up.
    let work = packing_mask_preprocessing_work_tmp_bytes(64, 6, 1, 100, 65);
    assert_eq!(work, 32768 + 2 * 512 + 2 * 3072 + 128);
    let all = packing_mask_preprocessing_tmp_bytes(64, 6, 1, 200, 100, 65);
    assert_eq!(all, 2 * 32768 + work + 256);
}

#[test]
fn scratch_of_the_mask_side() {
    let product = fixed_mask_1x1_vmp_body_addend_tmp_bytes(ProductScratch {
        mask_dft: 100,
        key_dft: 128,
        key_big: 129,
        vmp_tmp: 7,
        idft_tmp: 9,
        normalize_tmp: 8,
    });
    // 128 + 128 + 192, and the largest of the three.
    assert_eq!(product, 457);
    let keys = packing_mask_keys_precompute_tmp_bytes(1000, 50);
    assert_eq!(keys, 2 * 1024 + 50);
    // Half of 64 components and four columns of two limbs, one column of three limbs.
    let collapse =
        precompute_sequential_keyswitch_collapse_aggregate_mask_tmp_bytes(64, 2, 3, 457, 11);
    assert_eq!(collapse, 64 * 32 * 2 * 8 + 4 * 1024 + 1536 + 457);
    let infos = PackingPrecomputeInfos::new(63, 3, 18, 8);
    assert_eq!(sequential_collapse_bsgs_dft_build_tmp_bytes(64, infos), 1536);
    // 54 bits take two limbs of 50 bits.
    assert_eq!(pack_precompute_tmp_bytes(64, infos, keys, 457, 5), collapse);
    assert_eq!(pack_precompute_tmp_bytes(64, infos, 1 << 20, 457, 5), 1 << 20);
    assert_eq!(pack_precompute_tmp_bytes(64, infos, keys, 457, 1 << 21), 1 << 21);
}

#[test]
fn balancing_carries_into_the_next_limb() {
    assert_eq!(decompose_digits(32), 2);
    assert_eq!(decompose_digits(33), 3);
    assert_eq!(decompose_digits(0), 0);
    assert_eq!(limb_to_digit(32768), -32768);
    assert_eq!(limb_to_digit(-32769), 32767);
    assert_eq!(limb_to_digit(65537), 1);
    let mut v = LimbVec::zeros(4, 1, 3);
    // Coefficient 0: 1, 32768, 65535 -> carries ripple to the top.
    v.set(0, 0, 0, 1);
    v.set(0, 1, 0, 32767);
    v.set(0, 2, 0, 65535);
    // Coefficient 1: the top limb wraps around the torus.
    v.set(0, 0, 1, 32767);
    v.set(0, 1, 1, 40000);
    balance_base2k16_data(&mut v);
    assert_eq!((v.get(0, 0, 0), v.get(0, 1, 0), v.get(0, 2, 0)), (2, -32768, -1));
    assert_eq!((v.get(0, 0, 1), v.get(0, 1, 1)), (-32768, 40000 - 65536));
    let once = v.data.clone();
    balance_base2k16_data(&mut v);
    assert_eq!(v.data, once);
}

#[test]
fn modulus_switch_rounds_to_digits() {
    let layout = qtilde_glwe_layout(64, 32);
    assert_eq!((layout.n, layout.base2k, layout.k, layout.rank), (64, 16, 32, 1));
    let mut v = LimbVec::zeros(2, 1, 3);
    // 2^-18 + 2^-36: 32 bits keep 2^-18 and round 2^-36 away.
    v.set(0, 0, 0, 1);
    v.set(0, 1, 0, 1);
    // 1/4.
    v.set(0, 0, 1, 1 << 16);
    let d = modulus_switch_to_digits(&v, 18, 32);
    assert_eq!(d.size, 2);
    assert_eq!((d.get(0, 0, 0), d.get(0, 1, 0)), (0, 1 << 14));
    assert_eq!((d.get(0, 0, 1), d.get(0, 1, 1)), (1 << 14, 0));
}

#[test]
fn pack_program_takes_chunks_in_order() {
    // Three steps in groups of two, both groups in one chunk: products baby step by baby
    // step, then the sums group by group.
    let infos = PackingPrecomputeInfos::new_partial(3, 3, 18, 2, 2);
    let clear = PackOp::ClearGroup;
    let one_chunk = vec![
        PackOp::Product { slot: 0, step: 0, baby: 0 },
        PackOp::Product { slot: 2, step: 2, baby: 0 },
        PackOp::Product { slot: 1, step: 1, baby: 1 },
        clear,
        PackOp::AddProduct { slot: 0 },
        PackOp::AddProduct { slot: 1 },
        PackOp::CloseGroup { group_idx: 0 },
        clear,
        PackOp::AddProduct { slot: 2 },
        PackOp::CloseGroup { group_idx: 1 },
    ];
    assert_eq!(pack_program(infos, 2), one_chunk);
    // A chunk of its own for every group: the slots are used again.
    let two_chunks = vec![
        PackOp::Product { slot: 0, step: 0, baby: 0 },
        PackOp::Product { slot: 1, step: 1, baby: 1 },
        clear,
        PackOp::AddProduct { slot: 0 },
        PackOp::AddProduct { slot: 1 },
        PackOp::CloseGroup { group_idx: 0 },
        PackOp::Product { slot: 0, step: 2, baby: 0 },
        clear,
        PackOp::AddProduct { slot: 0 },
        PackOp::CloseGroup { group_idx: 1 },
    ];
    assert_eq!(pack_program(infos, 1), two_chunks);
}
