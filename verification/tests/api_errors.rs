use std::marker::PhantomData;

use poulpy_pir::client::{Client, RecursionResponse, Response};
use poulpy_pir::config::{Collapse, Config, DEFAULT_BASE2K, DEFAULT_K};
use poulpy_pir::database::DatabaseLayout;
use poulpy_pir::error::{CollapseKind, ConfigIssue, PirError};
use poulpy_pir::limbs::LimbVec;
use poulpy_pir::messages::{AutoKey, CompressedKey, RecursionQuery};
use poulpy_pir::payload::{U256P65535, U256P65536};
use poulpy_pir::server::{Query, Server};

#[test]
fn fallible_layout_rejects_zero_dimensions() {
    let Err(err) = DatabaseLayout::<U256P65535>::try_new(0, 64) else {
        panic!("zero-row layout was accepted");
    };
    assert!(matches!(err, PirError::InvalidLayout { .. }));
    assert!(DatabaseLayout::<U256P65535>::try_new(64, 0).is_err());
    assert!(DatabaseLayout::<U256P65535>::try_new(1, 1).is_ok());
}

#[test]
fn fallible_config_rejects_payload_that_does_not_fit_gamma0() {
    let config = Config::<U256P65536> {
        n: 64,
        base2k: DEFAULT_BASE2K,
        k: DEFAULT_K,
        collapse: Collapse::Recursion {
            gamma0: 40,
            gamma1: 32,
            gamma2: 16,
        },
        _phantom: PhantomData,
    };
    let Err(err) = config.try_new() else {
        panic!("invalid gamma0 config was accepted");
    };
    assert!(matches!(err, PirError::InvalidConfig { .. }));
}

#[test]
fn fallible_query_rejects_out_of_range_payload_index() {
    let config = Config::<U256P65535> {
        n: 64,
        base2k: DEFAULT_BASE2K,
        k: DEFAULT_K,
        collapse: Collapse::Interpolation,
        _phantom: PhantomData,
    };
    let layout = DatabaseLayout::<U256P65535>::new(64, 64);
    let client = Client::<U256P65535>::new(config, layout);
    let Err(err) = client.try_query(layout.num_payloads(config.n())) else {
        panic!("out-of-range query was accepted");
    };
    assert!(matches!(err, PirError::PayloadOutOfBounds { .. }));
}

#[test]
fn fallible_shard_update_rejects_out_of_range_write() {
    let config = Config::<U256P65535> {
        n: 64,
        base2k: DEFAULT_BASE2K,
        k: DEFAULT_K,
        collapse: Collapse::Interpolation,
        _phantom: PhantomData,
    };
    let layout = DatabaseLayout::<U256P65535>::new(64, 64);
    let mut server = Server::<U256P65535>::new(config, layout);
    let Err(err) = server.try_update_shard(layout.num_payloads(config.n()), &[[0u8; 32]]) else {
        panic!("out-of-range shard update was accepted");
    };
    assert!(matches!(err, PirError::ShardOutOfBounds { .. }));
}

fn key() -> CompressedKey {
    CompressedKey {
        stride: 1,
        key: AutoKey {
            p: 5,
            seeds: vec![[0; 32]; 3],
            bodies: (0..3).map(|_| LimbVec::zeros(64, 1, 1)).collect(),
        },
    }
}

#[test]
fn fallible_server_rejects_query_for_other_collapse() {
    let interp_config = Config::<U256P65535> {
        n: 64,
        base2k: DEFAULT_BASE2K,
        k: DEFAULT_K,
        collapse: Collapse::Interpolation,
        _phantom: PhantomData,
    };
    let interp_layout = DatabaseLayout::<U256P65535>::new(64, 64);
    let server = Server::<U256P65535>::new(interp_config, interp_layout);
    let query = Query::Recursion(RecursionQuery {
        src0: Vec::new(),
        src1: Vec::new(),
        gamma0: key(),
        gamma1: key(),
        gamma2: key(),
    });

    let Err(err) = server.try_respond(&query) else {
        panic!("mismatched query variant was accepted");
    };
    assert!(matches!(err, PirError::WrongQueryVariant { .. }));

    let rec_config = Config::<U256P65536> {
        n: 64,
        base2k: DEFAULT_BASE2K,
        k: DEFAULT_K,
        collapse: Collapse::Recursion {
            gamma0: 32,
            gamma1: 32,
            gamma2: 16,
        },
        _phantom: PhantomData,
    };
    let rec_layout = DatabaseLayout::<U256P65536>::new(64, 64);
    let server = Server::<U256P65536>::new(rec_config, rec_layout);
    assert_eq!(server.try_respond(&query), Ok(CollapseKind::Recursion));
}

#[test]
fn fallible_client_rejects_response_for_other_collapse() {
    let config = Config::<U256P65535> {
        n: 64,
        base2k: DEFAULT_BASE2K,
        k: DEFAULT_K,
        collapse: Collapse::Interpolation,
        _phantom: PhantomData,
    };
    let layout = DatabaseLayout::<U256P65535>::new(64, 64);
    let client = Client::<U256P65535>::new(config, layout);
    let (_, state) = client.query(0);
    let response = Response::Recursion(RecursionResponse::new(Vec::new(), Vec::new()));

    let Err(err) = client.try_decode(&response, &state, &[]) else {
        panic!("mismatched response variant was accepted");
    };
    assert!(matches!(err, PirError::WrongResponseVariant { .. }));
}

fn recursion(n: usize, base2k: usize, k: usize, g: [usize; 3]) -> Config<U256P65536> {
    Config {
        n,
        base2k,
        k,
        collapse: Collapse::Recursion {
            gamma0: g[0],
            gamma1: g[1],
            gamma2: g[2],
        },
        _phantom: PhantomData,
    }
}

#[test]
fn every_broken_rule_is_named() {
    let issue = |c: Config<U256P65536>| match c.try_new() {
        Ok(_) => None,
        Err(PirError::InvalidConfig { issue }) => Some(issue),
        Err(e) => panic!("unexpected {e:?}"),
    };
    assert_eq!(issue(recursion(64, 18, 54, [32, 32, 16])), None);
    assert_eq!(
        issue(recursion(63, 18, 54, [32, 32, 16])),
        Some(ConfigIssue::RingDegree)
    );
    assert_eq!(
        issue(recursion(2, 18, 54, [1, 1, 1])),
        Some(ConfigIssue::RingDegree)
    );
    assert_eq!(
        issue(recursion(64, 18, 54, [64, 32, 16])),
        Some(ConfigIssue::Gamma0)
    );
    assert_eq!(
        issue(recursion(64, 18, 54, [32, 3, 16])),
        Some(ConfigIssue::Gamma1)
    );
    assert_eq!(
        issue(recursion(64, 18, 54, [32, 32, 0])),
        Some(ConfigIssue::Gamma2)
    );
    assert_eq!(
        issue(recursion(64, 18, 53, [32, 32, 16])),
        Some(ConfigIssue::Precision)
    );
    assert_eq!(
        issue(recursion(64, 0, 54, [32, 32, 16])),
        Some(ConfigIssue::Precision)
    );
    assert_eq!(
        issue(recursion(64, 18, 18, [32, 32, 16])),
        Some(ConfigIssue::Qtilde)
    );
    assert_eq!(
        issue(recursion(64, 18, 54, [8, 32, 16])),
        Some(ConfigIssue::PayloadHeight)
    );
    let narrow = Config::<U256P65535> {
        n: 16,
        base2k: 18,
        k: 54,
        collapse: Collapse::Interpolation,
        _phantom: PhantomData,
    };
    let Err(err) = narrow.try_new() else {
        panic!("17 digits do not fit 16 rows");
    };
    assert_eq!(
        err,
        PirError::InvalidConfig {
            issue: ConfigIssue::PayloadHeight
        }
    );
}
