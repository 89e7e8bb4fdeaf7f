use poulpy_pir::payload::{
    centred_i16_to_digit, digit_to_centred_i16, Payload, U256P65535, U256P65536,
};

fn u256_le_from_u64(low: u64) -> [u8; 32] {
    let mut v = [0u8; 32];
    v[0..8].copy_from_slice(&low.to_le_bytes());
    v
}

#[test]
fn roundtrips_zero_and_small_values() {
    for n in [0u64, 1, 2, 65534, 65535, 65536, 65537, 1_000_000, u64::MAX] {
        let v = u256_le_from_u64(n);
        let mut digits = [0i16; U256P65535::EXPONENT];
        U256P65535::encode(&mut digits, v);
        let mut decoded = [0u8; 32];
        U256P65535::decode(&mut decoded, &digits);
        assert_eq!(decoded, v, "round-trip failed for n = {n}");
    }
}

#[test]
fn p65536_roundtrips_and_digits_are_le_words() {
    for n in [
        0u64,
        1,
        65535,
        65536,
        65537,
        0x1234_5678_9abc_def0,
        u64::MAX,
    ] {
        let v = u256_le_from_u64(n);
        let mut digits = [0i16; U256P65536::EXPONENT];
        U256P65536::encode(&mut digits, v);
        // digit 0 is the least-significant 16-bit word (centred i16).
        assert_eq!(
            digits[0],
            (n as u16) as i16,
            "low word mismatch for n = {n}"
        );
        let mut decoded = [0u8; 32];
        U256P65536::decode(&mut decoded, &digits);
        assert_eq!(decoded, v, "P65536 round-trip failed for n = {n}");
    }
}

#[test]
fn digit_extremes_match_centred_mod_p() {
    assert_eq!(digit_to_centred_i16(0), 0);
    assert_eq!(digit_to_centred_i16(32767), 32767);
    assert_eq!(digit_to_centred_i16(32768), -32767);
    assert_eq!(digit_to_centred_i16(65534), -1);
    assert_eq!(centred_i16_to_digit(0), 0);
    assert_eq!(centred_i16_to_digit(32767), 32767);
    assert_eq!(centred_i16_to_digit(-32767), 32768);
    assert_eq!(centred_i16_to_digit(-1), 65534);
}

#[test]
fn roundtrips_full_range_blocks() {
    let mut patterns: Vec<[u8; 32]> = vec![[0xFFu8; 32], [0xAAu8; 32], [0x80u8; 32]];
    for seed in 0..50u32 {
        let mut v = [0u8; 32];
        for (i, b) in v.iter_mut().enumerate() {
            *b = (seed.wrapping_mul(2654435761).rotate_left(i as u32) >> 7) as u8;
        }
        patterns.push(v);
    }
    for v in patterns {
        let mut digits = [0i16; U256P65535::EXPONENT];
        U256P65535::encode(&mut digits, v);
        assert!(digits.iter().all(|&d| d != i16::MIN));
        let mut decoded = [1u8; 32];
        U256P65535::decode(&mut decoded, &digits);
        assert_eq!(decoded, v);

        let mut digits = [0i16; U256P65536::EXPONENT];
        U256P65536::encode(&mut digits, v);
        let mut decoded = [1u8; 32];
        U256P65536::decode(&mut decoded, &digits);
        assert_eq!(decoded, v);
    }
}

#[test]
fn base_65535_digits_of_65536() {
    let mut digits = [0i16; U256P65535::EXPONENT];
    U256P65535::encode(&mut digits, u256_le_from_u64(65536));
    assert_eq!(digits[0], 1);
    assert_eq!(digits[1], 1);
    assert!(digits[2..].iter().all(|&d| d == 0));
}
