use poulpy_pir::config::{
    Collapse, DefaultPirConfig32B, DefaultPirParameters32B, DefaultScheme,
};
use poulpy_pir::database::DatabaseLayout;
use poulpy_pir::payload::{Payload, U256P65535};
use poulpy_pir::store::Database;

/// Layout for full 256-bit payloads (17 base-65535 digits).
type L = DatabaseLayout<U256P65535>;
const DIGITS: usize = U256P65535::EXPONENT; // 17

/// The `block_rows x block_cols` grid is the input; coefficient dimensions and capacity
/// are derived.
#[test]
fn layout_shape_and_capacity() {
    const N: usize = 2048;
    let layout = L::new(4 * N, 32 * N);

    assert_eq!(layout.payload_digits(), DIGITS);
    assert_eq!(layout.payload_digits(), 17); // full 2^256, not the 16-digit bound
    assert_eq!(layout.p(), 65535);

    assert_eq!(layout.rows(), 4 * N);
    assert_eq!(layout.cols(), 32 * N);
    // payloads/col = floor(N / 17) = 120 (8 rows per column are unused slack).
    assert_eq!(layout.payloads_per_column(N), N / DIGITS);
    assert_eq!(layout.payloads_per_column(N), 120);
    assert_eq!(layout.payloads_per_block_row(N), (N / DIGITS) * 32 * N);
    assert_eq!(layout.num_payloads(N), 4 * (N / DIGITS) * 32 * N);
    assert_eq!(layout.interpolation_t(N), 4); // next_pow2(block_rows)
    assert_eq!(layout.total_i16_slots(), layout.rows() * layout.cols());
    assert_eq!(layout.total_payload_bytes(N), layout.num_payloads(N) * 32);
}

/// Block-rows sized to just fit a target payload count.
#[test]
fn with_capacity_is_tight() {
    const N: usize = 2048;
    let target = 1usize << 30;
    let block_cols = 2;
    let per_block_row = (N / DIGITS) * (block_cols * N);
    let block_rows = target.div_ceil(per_block_row.max(1)).max(1);
    let layout = L::new(block_rows * N, block_cols * N);
    assert!(layout.num_payloads(N) >= target);
    // one block-row fewer would not fit.
    assert!((layout.block_rows(N) - 1) * layout.payloads_per_block_row(N) < target);
}

/// Block-rows sized for a byte budget cover it and stay within `2n`.
#[test]
fn from_total_bytes_covers_budget() {
    const N: usize = 2048;
    const TOTAL_BYTES: usize = 32 << 30; // 32 GB of 32-byte payloads
    let block_cols = 2;
    let target = TOTAL_BYTES / size_of::<[u8; 32]>();
    let per_block_row = (N / DIGITS) * (block_cols * N);
    let block_rows = target.div_ceil(per_block_row.max(1)).max(1);
    let layout = L::new(block_rows * N, block_cols * N);
    assert!(layout.total_payload_bytes(N) >= TOTAL_BYTES);
    assert!(layout.interpolation_t(N) <= 2 * N);
}

/// A database has the capacity of its layout.
#[test]
fn instantiate_matches_capacity() {
    let n: usize = 32; // small ring (n >= 17 so a payload fits a column)
    let layout = L::new(3 * n, 2 * n);
    let db = Database::instantiate(layout, n, n);
    assert_eq!(db.payload_capacity(), layout.num_payloads(n));
    // 3 block-rows x 2 block-cols => 6 sub-matrices.
    assert_eq!(db.matrices().len(), 3 * 2);
}

/// The second dimension cannot exceed `2n`, the count of distinct roots of unity.
#[test]
fn second_dimension_over_2n_has_no_roots() {
    let n: usize = 32; // 2n = 64
    assert_eq!(L::new(65 * n, n).try_interpolation_t(n), None); // next_pow2(65) = 128 > 64
    assert_eq!(L::new(64 * n, n).try_interpolation_t(n), Some(64));
    assert_eq!(L::new(5 * n, n).try_interpolation_t(n), Some(8));
    assert_eq!(L::new(n, n).try_interpolation_t(n), Some(1));
    assert_eq!(L::new(n - 1, n).try_interpolation_t(n), Some(1));
}

/// `interpolation_t == 2n` is the largest allowed second dimension.
#[test]
fn accepts_second_dimension_exactly_2n() {
    let n: usize = 32; // 2n = 64
    let layout = L::new(64 * n, n); // next_pow2(64) = 64
    assert_eq!(layout.interpolation_t(n), 64);
}

/// The default 32-byte recursion shape of 1 GiB: gamma0 = 32, gamma1 = 1024, gamma2 = 32.
#[test]
fn recursion_default_matches_paper_32_byte_payloads() {
    let default = DefaultPirParameters32B::canonical(DefaultScheme::Recursion { gamma0: 32 }, 1)
        .recursion()
        .expect("the canonical 1 GiB recursion set must resolve to recursion parameters");
    let params = default.config.new();
    let layout = default.layout;
    assert_eq!(
        params.collapse(),
        Collapse::Recursion {
            gamma0: 32,
            gamma1: 1024,
            gamma2: 32
        }
    );
    assert_eq!(params.n(), 2048);
    assert_eq!(layout.grid_rows_for(32), 2048);
    assert_eq!(layout.cols(), 8192);
    assert_eq!(layout.payloads_per_column(32), 2);
    assert_eq!(layout.num_payloads(32), 1usize << 25);
    assert_eq!(layout.total_payload_bytes(32), 1usize << 30);
    assert_eq!(layout.column_blocks(params.n()), 4);
}

#[test]
fn default_sets_fill_their_databases() {
    for db_gib in [1, 2, 4, 8, 16, 32] {
        for scheme in [
            DefaultScheme::Interpolation,
            DefaultScheme::Recursion { gamma0: 16 },
            DefaultScheme::Recursion { gamma0: 32 },
            DefaultScheme::Recursion { gamma0: 64 },
        ] {
            let p = DefaultPirParameters32B::canonical(scheme, db_gib);
            assert_eq!(p.rows(), 1 << 16);
            assert_eq!(p.rows() * p.cols(), p.total_u16());
            match p.resolve() {
                DefaultPirConfig32B::Interpolation(r) => {
                    assert_eq!(p.gamma0(), None);
                    assert_eq!(p.gamma1(), None);
                    assert_eq!(p.gamma2(), None);
                    assert_eq!(r.db_size_gib, db_gib);
                    assert_eq!(r.layout.rows(), p.rows());
                    assert_eq!(r.layout.cols(), p.cols());
                    assert!(r.layout.num_payloads(r.config.n()) > 0);
                    assert!(r.config.try_new().is_ok());
                    assert!(p.interpolation().is_some() && p.recursion().is_none());
                }
                DefaultPirConfig32B::Recursion(r) => {
                    assert_eq!(p.gamma0(), Some(r.gamma0));
                    assert_eq!(p.gamma1(), Some(1024));
                    assert_eq!(p.gamma2(), Some(r.gamma0));
                    assert_eq!(r.gamma1, 1024);
                    assert_eq!(r.gamma2, r.gamma0);
                    assert_eq!(r.layout.grid_rows_for(r.gamma0), p.rows() / r.gamma0);
                    assert!(r.layout.num_payloads(r.gamma0) > 0);
                    assert!(r.config.try_new().is_ok());
                    assert!(p.recursion().is_some() && p.interpolation().is_none());
                }
            }
        }
    }
}

#[test]
fn address_walks_columns_then_slots() {
    let n = 64;
    let layout = L::new(2 * n, 2 * n);
    // 64 / 17 = 3 payloads per column, 128 columns, 384 per block-row.
    let a = layout.address(0, n, n);
    assert_eq!((a.matrix, a.column, a.row_offset), (0, 0, 0));
    let a = layout.address(127, n, n);
    assert_eq!((a.matrix, a.column, a.row_offset), (0, 127, 0));
    assert_eq!((a.block, a.column_in_block), (1, 63));
    let a = layout.address(128, n, n);
    assert_eq!((a.matrix, a.column, a.row_offset), (0, 0, 17));
    let a = layout.address(384 + 256 + 5, n, n);
    assert_eq!((a.matrix, a.column, a.row_offset), (1, 5, 34));
    assert!(layout.try_address(768, n, n).is_err());
    assert!(layout.try_address(767, n, n).is_ok());
}

#[test]
fn default_32b_grid_is_valid_and_covers_table2() {
    let all = DefaultPirParameters32B::all();

    // 27 shapes for each of 4 constructions.
    assert_eq!(all.len(), 108, "grid size");

    // Names are unique and lead back.
    let mut names = std::collections::BTreeSet::new();
    for &p in &all {
        assert!(names.insert(p.name()), "duplicate name {}", p.name());
        assert_eq!(DefaultPirParameters32B::from_name(&p.name()), Some(p));
    }

    for &p in &all {
        // The database is filled exactly, and both dimensions are powers of two.
        assert_eq!(p.rows() * p.cols(), p.total_u16(), "{}", p.name());
        assert!(p.cols().is_power_of_two() && p.rows().is_power_of_two());

        // cols lies in the size's window.
        let (lo, hi) = DefaultPirParameters32B::cols_window(p.db_gib);
        let c = p.cols().trailing_zeros();
        assert!((lo..=hi).contains(&c), "{}: cols 2^{c} out of window", p.name());

        // Sizes are not zero.
        assert!(p.query_bytes() > 0 && p.response_bytes() > 0, "{}", p.name());

        // The set resolves.
        match p.resolve() {
            DefaultPirConfig32B::Interpolation(r) => {
                assert!(matches!(p.scheme, DefaultScheme::Interpolation));
                assert_eq!(p.gamma0(), None);
                assert_eq!(r.db_size_gib, p.db_gib);
                assert_eq!(r.layout.rows(), p.rows());
                assert_eq!(r.layout.cols(), p.cols());
                assert!(r.layout.interpolation_t(r.config.n()) <= 2 * r.config.n());
                assert!(r.layout.num_payloads(r.config.n()) > 0);
                assert!(p.interpolation().is_some() && p.recursion().is_none());
            }
            DefaultPirConfig32B::Recursion(r) => {
                let DefaultScheme::Recursion { gamma0 } = p.scheme else {
                    panic!("recursion resolve for non-recursion scheme")
                };
                assert_eq!(p.gamma0(), Some(gamma0));
                assert_eq!(p.gamma1(), Some(1024));
                assert_eq!(p.gamma2(), Some(gamma0));
                assert_eq!(r.gamma0, gamma0);
                assert_eq!(r.gamma1, 1024);
                assert_eq!(r.gamma2, gamma0);
                assert_eq!(r.layout.rows(), p.rows());
                assert_eq!(r.layout.cols(), p.cols());
                assert_eq!(r.layout.grid_rows_for(gamma0), p.rows() / gamma0);
                assert!(r.layout.num_payloads(gamma0) > 0);
                assert!(p.recursion().is_some() && p.interpolation().is_none());
            }
        }
    }

    // Every listed point is present (rows derived).
    let listed: &[(DefaultScheme, usize, usize)] = &[
        // InsPIRe
        (DefaultScheme::Interpolation, 1, 8192),
        (DefaultScheme::Interpolation, 1, 16384),
        (DefaultScheme::Interpolation, 1, 32768),
        (DefaultScheme::Interpolation, 8, 65536),
        (DefaultScheme::Interpolation, 8, 131072),
        (DefaultScheme::Interpolation, 32, 131072),
        (DefaultScheme::Interpolation, 32, 262144),
        // InsPIRe², gamma0 = 64
        (DefaultScheme::Recursion { gamma0: 64 }, 1, 4096),
        (DefaultScheme::Recursion { gamma0: 64 }, 1, 8192),
        (DefaultScheme::Recursion { gamma0: 64 }, 1, 16384),
        (DefaultScheme::Recursion { gamma0: 64 }, 1, 32768),
        (DefaultScheme::Recursion { gamma0: 64 }, 8, 8192),
        (DefaultScheme::Recursion { gamma0: 64 }, 8, 16384),
        (DefaultScheme::Recursion { gamma0: 64 }, 8, 32768),
        (DefaultScheme::Recursion { gamma0: 64 }, 8, 65536),
        (DefaultScheme::Recursion { gamma0: 64 }, 32, 32768),
        (DefaultScheme::Recursion { gamma0: 64 }, 32, 65536),
        (DefaultScheme::Recursion { gamma0: 64 }, 32, 131072),
        // InsPIRe², gamma0 = 32
        (DefaultScheme::Recursion { gamma0: 32 }, 1, 16384),
        (DefaultScheme::Recursion { gamma0: 32 }, 1, 32768),
        (DefaultScheme::Recursion { gamma0: 32 }, 8, 131072),
        (DefaultScheme::Recursion { gamma0: 32 }, 32, 65536),
        (DefaultScheme::Recursion { gamma0: 32 }, 32, 131072),
        (DefaultScheme::Recursion { gamma0: 32 }, 32, 262144),
    ];
    for &(scheme, db_gib, cols) in listed {
        let want = DefaultPirParameters32B {
            scheme,
            db_gib,
            cols,
        };
        assert!(all.contains(&want), "missing listed point {}", want.name());
    }

    // Canonical points (2^16 rows) exist for every construction and size.
    for scheme in DefaultPirParameters32B::schemes() {
        for db in DefaultPirParameters32B::DB_SIZES_GIB {
            let canon = DefaultPirParameters32B::canonical(scheme, db);
            assert_eq!(canon.rows(), 1 << 16, "canonical rows for {}", canon.name());
            assert!(all.contains(&canon), "canonical {} missing", canon.name());
        }
    }
}

/// Names that no set has lead nowhere.
#[test]
fn unknown_names_lead_nowhere() {
    let p = DefaultPirParameters32B::canonical(DefaultScheme::Recursion { gamma0: 32 }, 8);
    assert_eq!(p.name(), "inspire2_32-8-65536");
    let q = DefaultPirParameters32B::canonical(DefaultScheme::Interpolation, 1);
    assert_eq!(q.name(), "inspire-1-8192");
    for name in ["", "inspire", "inspire-1-8193", "inspire2_33-8-65536", "inspire-1-8192 "] {
        assert_eq!(DefaultPirParameters32B::from_name(name), None);
    }
    // 4 blocks of 80 + 16384 bytes, 2 keys, a selector.
    let key = 16 + 96 + 3 * (44 + 16384);
    let selector = 8 + 192 + 6 * (44 + 16384);
    assert_eq!(q.query_bytes(), 1 + 8 + 4 * (80 + 16384) + 2 * key + selector);
    assert_eq!(q.response_bytes(), 1 + 44 + 2 * 16384);
}
