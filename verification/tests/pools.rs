use pool_indexer::amm::pool_created_topic0;
use pool_indexer::api::{ApiError, Status};
use pool_indexer::logs::{DecodeError, EthLog};
use pool_indexer::pools::{pools_request, PoolScan, PoolsRequest};

fn gateway() -> String {
    format!("0x{}", hex::encode([9; 20]))
}

fn created(id: u8) -> EthLog {
    let address = |id: u8| format!("0x{}{}", "00".repeat(12), hex::encode([id; 20]));
    EthLog {
        address: gateway(),
        block_number: "0x64".into(),
        block_hash: None,
        transaction_hash: "0xab".into(),
        log_index: "0x1".into(),
        removed: false,
        topics: Some(vec![pool_created_topic0(), address(id), address(id), address(200)]),
        data: "00".repeat(128),
    }
}

fn pool(id: u8) -> String {
    format!("0x{}", hex::encode([id; 20]))
}

fn found(scan: PoolScan) -> Vec<String> {
    scan.into_pools().into_iter().map(|pool| pool.meme_pool).collect()
}

#[test]
fn request_takes_its_defaults() {
    let configured = Some("0xconfigured".to_string());
    assert_eq!(
        pools_request(&configured, 17, None, None, None),
        Ok(PoolsRequest {
            gateway: "0xconfigured".into(),
            from_block: 17,
            limit: 200
        })
    );
    assert_eq!(
        pools_request(&None, 17, Some(&gateway().to_uppercase().replace("0X", "0x")), Some(3), Some(5)),
        Ok(PoolsRequest {
            gateway: gateway(),
            from_block: 3,
            limit: 5
        })
    );
    let limit = |limit: usize| {
        pools_request(&configured, 17, None, None, Some(limit)).unwrap().limit
    };
    assert_eq!((limit(0), limit(1), limit(1000), limit(1001)), (1, 1, 1000, 1000));
}

#[test]
fn request_needs_a_gateway() {
    let bad = |message: &str| {
        Err(ApiError {
            status: Status::BadRequest,
            message: message.into(),
        })
    };
    assert_eq!(
        pools_request(&None, 17, Some("  "), None, None),
        bad("gateway required (no PRIVACYBTC_INDEXER_AMM_SETTLEMENT configured)")
    );
    assert_eq!(
        pools_request(&Some("0xconfigured".into()), 17, Some("0x12"), None, None),
        bad("invalid gateway address")
    );
}

#[test]
fn scan_goes_window_by_window_up_to_the_head() {
    let scan = PoolScan::new(&gateway(), 10, 5, 30);
    assert_eq!(scan.next_block(), Some(10));
    let scan = scan.read(19, &vec![created(1), created(2)]).unwrap();
    assert_eq!(scan.next_block(), Some(20));
    let scan = scan.read(30, &vec![created(3)]).unwrap();
    assert_eq!(scan.next_block(), None);
    assert_eq!(found(scan), vec![pool(1), pool(2), pool(3)]);
    assert_eq!(PoolScan::new(&gateway(), 31, 5, 30).next_block(), None);
    assert_eq!(PoolScan::new(&gateway(), 30, 0, 30).next_block(), None);
}

#[test]
fn scan_stops_at_its_limit() {
    let mut malformed = created(4);
    malformed.removed = true;
    let scan = PoolScan::new(&gateway(), 10, 2, 30);
    let scan = scan.read(19, &vec![created(1), created(2), created(3), malformed]).unwrap();
    assert_eq!(scan.next_block(), None);
    assert_eq!(found(scan), vec![pool(1), pool(2)]);
}

#[test]
fn scan_skips_other_logs_and_refuses_malformed_ones() {
    let mut elsewhere = created(1);
    elsewhere.address = "0xother".into();
    elsewhere.removed = true;
    let mut unrelated = created(2);
    unrelated.topics = None;
    let scan = PoolScan::new(&gateway(), 0, 5, 30);
    let scan = scan.read(3, &vec![elsewhere, unrelated, created(3)]).unwrap();
    let mut malformed = created(4);
    malformed.removed = true;
    assert_eq!(
        scan.clone().read(9, &vec![malformed]).err(),
        Some(DecodeError::RemovedPoolCreated)
    );
    assert_eq!(found(scan), vec![pool(3)]);
}

#[test]
fn scan_ends_at_the_last_block_there_can_be() {
    let scan = PoolScan::new(&gateway(), 10, 5, u64::MAX);
    let scan = scan.read(u64::MAX, &vec![]).unwrap();
    assert_eq!(scan.next_block(), None);
}

#[test]
fn refused_window_is_narrowed_unless_it_is_one_block() {
    let scan = PoolScan::new(&gateway(), 10, 5, 30);
    assert_eq!(scan.refused_width(19), Some(10));
    assert_eq!(scan.refused_width(11), Some(2));
    assert_eq!(scan.refused_width(10), None);
}

#[test]
fn windows_do_not_matter() {
    let logs: Vec<EthLog> = (1..=6).map(created).collect();
    let whole = PoolScan::new(&gateway(), 0, 4, 30).read(30, &logs).unwrap();
    let first = PoolScan::new(&gateway(), 0, 4, 30).read(9, &logs[..3].to_vec()).unwrap();
    let both = first.read(30, &logs[3..].to_vec()).unwrap();
    assert_eq!(found(whole), found(both));
}
