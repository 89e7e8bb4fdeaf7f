use poulpy_pir::encoding::{relimb, ModPEncoder};
use poulpy_pir::limbs::LimbVec;

fn negacyclic_rotate_mod_p(src: &[i64], shift: i64, encoder: ModPEncoder) -> Vec<i64> {
    let n = src.len() as i64;
    let period = 2 * n;
    let shift = shift.rem_euclid(period);
    let mut dst = vec![0i64; src.len()];

    for (idx, &value) in src.iter().enumerate() {
        let rotated = (idx as i64 + shift).rem_euclid(period);
        if rotated < n {
            dst[rotated as usize] = encoder.normalize(value);
        } else {
            dst[(rotated - n) as usize] = encoder.sub(0, value);
        }
    }

    dst
}

#[test]
fn mod_p_encoder_round_trips() {
    let n = 32usize;
    let p = 65537i64;

    let mut values = vec![0i64; n];
    for (idx, value) in values.iter_mut().enumerate() {
        *value = ((idx as i64 * 12345) - 70000).rem_euclid(p);
    }
    values[0] = 0;
    values[1] = 1;
    values[2] = -1;
    values[3] = p / 2;
    values[4] = p / 2 + 1;

    for (base2k, torus_bits) in [(18usize, 36usize), (18, 54), (27, 54)] {
        let encoder = ModPEncoder::new(p, torus_bits);
        let mut encoded = LimbVec::zeros(n, 1, torus_bits.div_ceil(base2k));

        encoder.encode_vec_i64(&mut encoded, base2k, 0, &values);

        let mut decoded = vec![0i64; n];
        encoder.decode_vec_i64(&encoded, base2k, 0, &mut decoded);

        let expected: Vec<i64> = values
            .iter()
            .map(|&value| encoder.normalize(value))
            .collect();
        assert_eq!(
            decoded, expected,
            "base2k {base2k}, torus_bits {torus_bits}"
        );
    }
}

#[test]
fn mod_p_encoder_rotate_add_matches_mod_p() {
    let n = 32usize;
    let base2k = 18usize;
    let torus_bits = 36usize;
    let p = 65537i64;
    let encoder = ModPEncoder::new(p, torus_bits);
    let size = torus_bits.div_ceil(base2k);

    let mut lhs_values = vec![0i64; n];
    let mut rhs_values = vec![0i64; n];
    for idx in 0..n {
        lhs_values[idx] = ((idx as i64 * 223 + 17) % p) - (p / 2);
        rhs_values[idx] = ((idx as i64 * 397 + 991) % p) - (p / 2);
    }

    for shift in [-35i64, -7, -1, 0, 1, 9, 31, 34] {
        let mut lhs = LimbVec::zeros(n, 1, size);
        let mut rhs = LimbVec::zeros(n, 1, size);
        let mut got = LimbVec::zeros(n, 1, size);

        encoder.encode_vec_i64(&mut lhs, base2k, 0, &lhs_values);
        encoder.encode_vec_i64(&mut rhs, base2k, 0, &rhs_values);

        for limb in 0..size {
            for i in 0..n {
                let to = (i as i64 + shift).rem_euclid(2 * n as i64) as usize;
                let (slot, sign) = if to < n { (to, 1) } else { (to - n, -1) };
                got.set(0, limb, slot, sign * lhs.get(0, limb, i));
            }
            for i in 0..n {
                let sum = got.get(0, limb, i) + rhs.get(0, limb, i);
                got.set(0, limb, i, sum);
            }
        }

        let mut decoded = vec![0i64; n];
        encoder.decode_vec_i64(&got, base2k, 0, &mut decoded);

        let rotated = negacyclic_rotate_mod_p(&lhs_values, shift, encoder);
        let mut expected = vec![0i64; n];
        for idx in 0..n {
            expected[idx] = encoder.add(rotated[idx], rhs_values[idx]);
        }

        assert_eq!(decoded, expected, "shift {shift}");
    }
}

/// The scaled unit agrees with scaling one (and zero scales to zero).
#[test]
fn encoded_unit_matches_general_encode_of_one() {
    for &(p, k) in &[
        (65535i64, 16usize),
        (65535, 36),
        (65535, 54),
        (65537, 18),
        (257, 30),
    ] {
        let encoder = ModPEncoder::new(p, k);
        assert_eq!(
            encoder.encoded_unit(),
            encoder.encode_coeff_i64(1),
            "encoded_unit differs from encode_coeff_i64(1) for p={p}, k={k}",
        );
        assert_eq!(encoder.encode_coeff_i64(0), 0);
    }
}

/// Decoding a one-hot plaintext yields `1` at the chosen slot and `0` everywhere else.
#[test]
fn encode_one_hot_into_decodes_to_one_at_hot_slot() {
    let n: usize = 8;
    let base2k: usize = 18;
    let k: usize = 36;
    let size: usize = k.div_ceil(base2k);

    let encoder = ModPEncoder::new(65535, k);

    for hot_slot in [0, 1, n / 2, n - 1] {
        let mut pt = LimbVec::zeros(n, 1, size);
        // Stamp garbage in every limb to confirm the helper clears it.
        for limb in 0..size {
            for i in 0..n {
                pt.set(0, limb, i, 12345);
            }
        }

        encoder.encode_one_hot_into(&mut pt, base2k, 0, hot_slot);

        let mut decoded = vec![0i64; n];
        encoder.decode_vec_i64(&pt, base2k, 0, &mut decoded);
        for (i, &v) in decoded.iter().enumerate() {
            let want = i64::from(i == hot_slot);
            assert_eq!(v, want, "hot_slot={hot_slot}, coeff={i}");
        }
    }
}

/// Zeroing clears every limb of the target column and leaves other columns alone.
#[test]
fn encode_zero_into_zeros_only_the_target_column() {
    let n: usize = 8;
    let base2k: usize = 18;
    let k: usize = 36;
    let size: usize = k.div_ceil(base2k);

    let encoder = ModPEncoder::new(65535, k);
    let mut pt = LimbVec::zeros(n, 2, size);

    for col in 0..2 {
        for limb in 0..size {
            for i in 0..n {
                pt.set(col, limb, i, 7777);
            }
        }
    }

    encoder.encode_zero_into(&mut pt, 0);

    for limb in 0..size {
        for i in 0..n {
            assert_eq!(pt.get(0, limb, i), 0, "column 0 not fully zeroed at limb {limb}");
            assert_eq!(pt.get(1, limb, i), 7777, "column 1 was modified at limb {limb}");
        }
    }

    let mut decoded = vec![0i64; n];
    encoder.decode_vec_i64(&pt, base2k, 0, &mut decoded);
    assert!(
        decoded.iter().all(|&v| v == 0),
        "zero plaintext did not decode to all zeros",
    );
}

#[test]
fn scaled_values_are_nearest_multiples() {
    let encoder = ModPEncoder::new(65535, 16);
    assert_eq!(encoder.encode_coeff_i64(1), 1);
    assert_eq!(encoder.encode_coeff_i64(-1), -1);
    let encoder = ModPEncoder::new(257, 30);
    // 2^30 / 257 = 4177983.75...
    assert_eq!(encoder.encode_coeff_i64(1), 4177984);
    assert_eq!(encoder.encode_coeff_i64(258), 4177984);
    assert_eq!(encoder.decode_coeff_i64(4177984), 1);
    assert_eq!(encoder.decode_coeff_i64(4177984 + (1 << 30)), 1);
    assert_eq!(encoder.decode_coeff_i64(-4177984), -1);
    assert_eq!(encoder.normalize(128), 128);
    assert_eq!(encoder.normalize(129), -128);
    assert_eq!(encoder.add(128, 1), -128);
    assert_eq!(encoder.sub(-128, 1), 128);
}

/// Moving to 63-bit limbs and back gives the same limbs.
#[test]
fn relimbing_there_and_back_is_exact() {
    let (n, k) = (16usize, 54usize);
    for (base2k, size) in [(18usize, 3usize), (16, 4)] {
        let encoder = ModPEncoder::new(65535, k);
        let values: Vec<i64> = (0..n as i64).map(|i| i * i * 4321 - 30000).collect();
        let mut working = LimbVec::zeros(n, 2, size);
        encoder.encode_vec_i64(&mut working, base2k, 0, &values);
        encoder.encode_one_hot_into(&mut working, base2k, 1, 3);
        let dense = relimb(k, &working, base2k, 63, 1);
        assert_eq!(dense.size, 1);
        let back = relimb(k, &dense, 63, base2k, size);
        assert_eq!(back.data, working.data);
        let mut decoded = vec![0i64; n];
        encoder.decode_vec_i64(&dense, 63, 0, &mut decoded);
        let want: Vec<i64> = values.iter().map(|&v| encoder.normalize(v)).collect();
        assert_eq!(decoded, want);
    }
}
