use poulpy_pir::database::DatabaseLayout;
use poulpy_pir::error::PirError;
use poulpy_pir::payload::{Payload, U256P65535, U256P65536};
use poulpy_pir::store::Database;

type L = DatabaseLayout<U256P65535>;

/// A payload is laid out as consecutive row coefficients of one column, one digit per
/// row. The test fills the database with full-range payloads, then walks the stored
/// matrices and reads each payload at its computed position.
#[test]
fn database_encode_shard_roundtrips_via_matrix_inspection() {
    let n: usize = 32; // power of two; 32 / 17 = 1 payload per column (15 rows slack)
    let block_cols: usize = 2;
    let block_rows: usize = 3;

    let layout = L::new(block_rows * n, block_cols * n);
    let mut db = Database::instantiate(layout, n, n);

    let capacity = db.payload_capacity();
    assert_eq!(capacity, layout.num_payloads(n));
    assert_eq!(
        capacity,
        block_rows * (n / U256P65535::EXPONENT) * (block_cols * n)
    );

    // Deterministic distinct full-range payloads (no top-bit masking).
    let mut payloads: Vec<[u8; 32]> = (0..capacity)
        .map(|e| {
            let mut v = [0u8; 32];
            for (i, byte) in v.iter_mut().enumerate() {
                *byte = ((e.wrapping_mul(31).wrapping_add(i * 17 + 5)) & 0xFF) as u8;
            }
            v
        })
        .collect();
    payloads[0] = [0u8; 32];
    payloads[1] = [0xFFu8; 32]; // 2^256 - 1, the full-range extreme
    payloads[2] = [0xAAu8; 32];

    db.encode_shard(0, &payloads);

    let digits_per = U256P65535::EXPONENT; // 17
    let payloads_per_column = n / digits_per;
    let payloads_per_matrix = payloads_per_column * (block_cols * n);
    let cols = block_cols * n;

    for (e, expected) in payloads.iter().enumerate() {
        assert_eq!(
            db.payload(e),
            *expected,
            "payload {e} did not round-trip through Database::payload"
        );

        let m = e / payloads_per_matrix;
        let e_local = e % payloads_per_matrix;
        let c = e_local % cols;
        let row_out_start = (e_local / cols) * digits_per;
        let block = c / n;
        let row_in = c % n;

        let sub = &db.matrices()[m * block_cols + block];
        let mut digits = vec![0i16; digits_per];
        for (k, slot) in digits.iter_mut().enumerate() {
            let stored = sub.at(row_out_start + k, row_in);
            assert!(
                (-32767..=32767).contains(&stored),
                "stored value {stored} outside centred Z_65535 range at e={e}, k={k}",
            );
            *slot = stored;
        }
        let mut got = [0u8; 32];
        U256P65535::decode(&mut got, &digits);
        assert_eq!(
            &got, expected,
            "payload {e} did not round-trip through encode_shard"
        );
    }
}

#[test]
fn writing_a_shard_leaves_other_payloads_alone() {
    let n = 64;
    let layout = DatabaseLayout::<U256P65536>::new(2 * n, n);
    let mut db = Database::instantiate(layout, n, 32);
    let capacity = db.payload_capacity();
    assert_eq!(capacity, 4 * 2 * 64);
    let all: Vec<[u8; 32]> = (0..capacity).map(|e| [(e % 251) as u8; 32]).collect();
    db.encode_shard(0, &all);
    db.encode_shard(100, &[[0xEE; 32], [0xDD; 32]]);
    for e in 0..capacity {
        let want = match e {
            100 => [0xEE; 32],
            101 => [0xDD; 32],
            _ => all[e],
        };
        assert_eq!(db.payload(e), want, "payload {e}");
    }
}

#[test]
fn a_write_past_the_capacity_changes_nothing() {
    let n: usize = 32;
    let layout = L::new(n, n);
    let mut db = Database::instantiate(layout, n, n);
    let capacity = db.payload_capacity();
    let too_many = vec![[7u8; 32]; capacity + 1];
    let err = db.try_update_shard(0, &too_many).unwrap_err();
    assert_eq!(
        err,
        PirError::ShardOutOfBounds {
            start: 0,
            len: capacity + 1,
            capacity
        }
    );
    assert!(db.matrices().iter().all(|m| m.flat().iter().all(|&d| d == 0)));
    assert!(db.try_update_shard(0, &too_many[..capacity]).is_ok());
    assert_eq!(db.payload(capacity - 1), [7u8; 32]);
    assert!(db.try_update_shard(usize::MAX, &too_many).is_err());
}

/// Records are stored as centred residues, record `i` in column `i % cols` of matrix
/// `i / cols`.
#[test]
fn records_are_columns_of_centred_residues() {
    let (n, t, cols, gamma0) = (64usize, 5usize, 70usize, 32usize);
    let layout = DatabaseLayout::<U256P65536>::new(t * gamma0, cols);
    let mut db = Database::instantiate(layout, n, gamma0);
    assert_eq!(db.t(), t);
    assert_eq!(db.column_blocks(), 2);
    assert_eq!(db.physical_rows(), 3);
    assert_eq!(db.rows_per_physical_group(), 2);
    let p = 1i64 << 16;
    let records: Vec<Vec<i64>> = (0..t * cols - 3)
        .map(|r| {
            (0..gamma0)
                .map(|j| (r as i64 * 131 + j as i64 * 97717).rem_euclid(p))
                .collect()
        })
        .collect();
    db.encode(&records);
    for i1 in 0..t {
        for i0 in 0..cols {
            let got = db.record(i0, i1);
            assert_eq!(got.len(), gamma0);
            let r = i1 * cols + i0;
            for j in 0..gamma0 {
                let want = if r < records.len() { records[r][j] } else { 0 };
                assert!((-32768..=32767).contains(&got[j]));
                assert_eq!(got[j].rem_euclid(p), want);
            }
        }
    }
    assert_eq!(db.record(1, 0)[0], 131);
    // 64362 is stored as its signed representative.
    let mut one = Database::instantiate(DatabaseLayout::<U256P65536>::new(32, 1), n, gamma0);
    one.encode(&[vec![64362; 32]]);
    assert_eq!(one.record(0, 0)[5], -1174);
    let block = one.physical_block(0, 0);
    assert_eq!(block.at(5, 0), -1174);
    assert_eq!(block.rows_out(), n);
    assert_eq!(block.rows_in(), n);
}
