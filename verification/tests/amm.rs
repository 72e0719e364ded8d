use pool_indexer::amm::{
    decode_pool_created_log, decode_settled, decode_settled_log, default_gateway,
    expected_outputs, pool_created_topic0, pool_id_to_address, settled_answer, settled_topic0,
    slot_for_pool,
};
use pool_indexer::api::{ApiError, Status};
use pool_indexer::logs::{hex32_0x, DecodeError, EthLog, ReceiptWithLogs};
use sha3::Digest;

fn log(topics: Vec<String>, data: Vec<u8>) -> EthLog {
    EthLog {
        address: format!("0x{}", hex::encode([9; 20])),
        block_number: "0x64".into(),
        block_hash: Some(hex32_0x(&[7; 32])),
        transaction_hash: hex32_0x(&[8; 32]),
        log_index: "0x1".into(),
        removed: false,
        topics: Some(topics),
        data: format!("0x{}", hex::encode(data)),
    }
}

fn addr_topic(id: u8) -> String {
    format!("0x{}{}", "00".repeat(12), hex::encode([id; 20]))
}

fn receipt(logs: Vec<EthLog>) -> ReceiptWithLogs {
    ReceiptWithLogs {
        success: true,
        block_number: 100,
        block_hash: hex32_0x(&[7; 32]),
        logs,
    }
}

#[test]
fn settled_decodes_and_maps_slots() {
    let mut data = vec![0u8; 160];
    data[31] = 0xaa;
    data[63] = 0xbb;
    data[95] = 7;
    data[127] = 8;
    data[159] = 9;
    let l = log(vec![settled_topic0(), addr_topic(1)], data);
    let s = decode_settled_log(&l, None).unwrap().unwrap();
    assert_eq!(s.meme_pool, format!("0x{}", hex::encode([1; 20])));
    assert_eq!(
        (s.blind_payout.as_str(), s.blind_fee_c.as_str(), s.blind_fee_t.as_str()),
        ("7", "8", "9")
    );
    assert!(s.tip_cm_x.ends_with("aa") && s.tip_cm_y.ends_with("bb"));
    assert_eq!(slot_for_pool(&s.meme_pool, 0, &s), Some((0, None)));
    assert_eq!(slot_for_pool(&s.meme_pool, 1, &s), Some((1, Some("7".into()))));
    assert_eq!(slot_for_pool(&s.meme_pool, 2, &s), None);
    assert_eq!(slot_for_pool("0xquote", 1, &s), Some((3, Some("7".into()))));
    assert_eq!(slot_for_pool("0xquote", 2, &s), Some((4, Some("8".into()))));
    assert_eq!(slot_for_pool("0xquote", 3, &s), Some((5, Some("9".into()))));
    assert_eq!(slot_for_pool("0xquote", 4, &s), None);
    assert_eq!(expected_outputs(&s.meme_pool, &s), 2);
    assert_eq!(expected_outputs("0xquote", &s), 4);
    // A filter on the gateway, malformed data and a pool number that is no address all refuse.
    assert!(
        decode_settled_log(&l, Some("0x0000000000000000000000000000000000000001"))
            .unwrap()
            .is_none()
    );
    let mut short = l.clone();
    short.data.truncate(10);
    assert!(decode_settled_log(&short, None).is_err());
    let bad = log(vec![settled_topic0(), hex32_0x(&[1; 32])], vec![0u8; 160]);
    assert!(decode_settled_log(&bad, None).is_err());
}

#[test]
fn two_settled_logs_are_ambiguous() {
    let l = log(vec![settled_topic0(), addr_topic(1)], vec![0u8; 160]);
    let r = ReceiptWithLogs {
        success: true,
        block_number: 100,
        block_hash: hex32_0x(&[7; 32]),
        logs: vec![l.clone(), l],
    };
    assert!(decode_settled(&r, None).is_err());
}

#[test]
fn pool_created_decodes() {
    let mut data = vec![0u8; 128];
    data[12..32].copy_from_slice(&[5; 20]);
    data[63] = 42;
    data[95] = 1;
    data[127] = 2;
    let l = log(
        vec![pool_created_topic0(), addr_topic(1), addr_topic(1), addr_topic(2)],
        data,
    );
    let p = decode_pool_created_log(&l, None).unwrap().unwrap();
    assert_eq!(p.quote_pool, format!("0x{}", hex::encode([2; 20])));
    assert_eq!(p.creator_evm, format!("0x{}", hex::encode([5; 20])));
    assert_eq!(p.creator_addr_commit, "42");
    let mismatch = log(
        vec![pool_created_topic0(), addr_topic(3), addr_topic(1), addr_topic(2)],
        vec![0u8; 128],
    );
    assert!(decode_pool_created_log(&mismatch, None).is_err());
}

#[test]
fn event_topics_are_keccak_of_the_signatures() {
    let digest = |signature: &[u8]| -> String {
        let word: [u8; 32] = sha3::Keccak256::digest(signature).into();
        format!("0x{}", hex::encode(word))
    };
    assert_eq!(
        settled_topic0(),
        digest(b"Settled(uint256,bytes32,bytes32,uint256,uint256,uint256)")
    );
    assert_eq!(
        pool_created_topic0(),
        digest(b"PoolCreated(uint256,address,address,address,uint256,bytes32,bytes32)")
    );
}

#[test]
fn settled_fields_are_exact() {
    let mut data = vec![0u8; 160];
    data[0] = 0xab;
    data[64..96].copy_from_slice(&[0xff; 32]);
    data[98] = 1;
    let mut l = log(vec![settled_topic0().to_uppercase(), addr_topic(1)], data);
    l.address = "0xABcd".into();
    l.transaction_hash = "AB01".into();
    let s = decode_settled_log(&l, Some("0xabCD")).unwrap().unwrap();
    assert_eq!(s.gateway, "0xabcd");
    assert_eq!(s.tx_hash, "0xab01");
    assert_eq!(s.block_number, 100);
    assert_eq!(s.pool_id, "5731378969925109483151705226338364782964441345");
    assert_eq!(s.tip_cm_x, format!("0xab{}", "00".repeat(31)));
    assert_eq!(
        s.blind_payout,
        "115792089237316195423570985008687907853269984665640564039457584007913129639935"
    );
    assert_eq!(s.blind_fee_c, format!("{}", ethabi::Uint::from(1u8) << 232));
    assert_eq!(s.blind_fee_t, "0");
}

#[test]
fn settled_logs_are_refused_for_each_reason() {
    let good = log(vec![settled_topic0(), addr_topic(1)], vec![0u8; 160]);
    let refused = |change: &dyn Fn(&mut EthLog)| {
        let mut l = good.clone();
        change(&mut l);
        decode_settled_log(&l, None).unwrap_err()
    };
    assert_eq!(refused(&|l| l.removed = true), DecodeError::RemovedSettled);
    assert_eq!(
        refused(&|l| l.topics = Some(vec![settled_topic0()])),
        DecodeError::SettledTopicCount
    );
    assert_eq!(
        refused(&|l| l.topics = Some(vec![settled_topic0(), "0x12".into()])),
        DecodeError::InvalidPoolId
    );
    assert_eq!(
        refused(&|l| l.topics = Some(vec![settled_topic0(), hex32_0x(&[0; 32])])),
        DecodeError::PoolIdNotAddress
    );
    assert_eq!(refused(&|l| l.data = "0xzz".into()), DecodeError::DataNotHex);
    assert_eq!(refused(&|l| l.data = "0x00".into()), DecodeError::SettledDataLength);
    assert_eq!(refused(&|l| l.block_number = "ten".into()), DecodeError::InvalidNumber);
    assert_eq!(
        refused(&|l| l.block_number = "0x10000000000000000".into()),
        DecodeError::InvalidNumber
    );
    let mut other = good.clone();
    other.topics = None;
    assert_eq!(decode_settled_log(&other, None), Ok(None));
    other.topics = Some(vec![pool_created_topic0(), addr_topic(1)]);
    assert_eq!(decode_settled_log(&other, None), Ok(None));
}

#[test]
fn pool_created_logs_are_refused_for_each_reason() {
    let topics = |a: String, b: String, c: String| Some(vec![pool_created_topic0(), a, b, c]);
    let mut good = log(vec![], vec![0u8; 128]);
    good.topics = topics(addr_topic(1), addr_topic(1), addr_topic(2));
    assert!(decode_pool_created_log(&good, None).unwrap().is_some());
    let refused = |change: &dyn Fn(&mut EthLog)| {
        let mut l = good.clone();
        change(&mut l);
        decode_pool_created_log(&l, None).unwrap_err()
    };
    assert_eq!(refused(&|l| l.removed = true), DecodeError::RemovedPoolCreated);
    assert_eq!(
        refused(&|l| l.topics = Some(vec![pool_created_topic0(), addr_topic(1)])),
        DecodeError::PoolCreatedTopicCount
    );
    assert_eq!(
        refused(&|l| l.topics = topics("1".into(), addr_topic(1), addr_topic(2))),
        DecodeError::InvalidPoolId
    );
    assert_eq!(
        refused(&|l| l.topics = topics(addr_topic(1), "1".into(), addr_topic(2))),
        DecodeError::InvalidMemePool
    );
    assert_eq!(
        refused(&|l| l.topics = topics(addr_topic(1), addr_topic(1), "1".into())),
        DecodeError::InvalidQuotePool
    );
    assert_eq!(
        refused(&|l| l.topics = topics(addr_topic(3), addr_topic(1), addr_topic(2))),
        DecodeError::PoolIdMismatch
    );
    assert_eq!(refused(&|l| l.data = "0xzz".into()), DecodeError::DataNotHex);
    assert_eq!(refused(&|l| l.data = "0x".into()), DecodeError::PoolCreatedDataLength);
    assert_eq!(
        refused(&|l| l.data = "11".repeat(128)),
        DecodeError::InvalidCreator
    );
    assert_eq!(refused(&|l| l.block_number = "".into()), DecodeError::InvalidNumber);
    assert_eq!(
        decode_pool_created_log(&good, Some("0x0000000000000000000000000000000000000001")),
        Ok(None)
    );
}

#[test]
fn pool_number_is_a_nonzero_address() {
    assert_eq!(
        pool_id_to_address(&addr_topic(3)),
        Some(format!("0x{}", hex::encode([3; 20])))
    );
    assert_eq!(pool_id_to_address(&hex32_0x(&[0; 32])), None);
    assert_eq!(pool_id_to_address(&hex32_0x(&[1; 32])), None);
    assert_eq!(pool_id_to_address("0x"), None);
}

#[test]
fn one_settlement_among_other_logs_is_found() {
    let settled = log(vec![settled_topic0(), addr_topic(1)], vec![0u8; 160]);
    let other = log(vec![hex32_0x(&[3; 32])], vec![]);
    let r = receipt(vec![other.clone(), settled.clone(), other.clone()]);
    let found = decode_settled(&r, None).unwrap().unwrap();
    assert_eq!(Some(found), decode_settled_log(&settled, None).unwrap());
    assert_eq!(decode_settled(&receipt(vec![other]), None), Ok(None));
    assert_eq!(
        decode_settled(&receipt(vec![settled.clone(), settled.clone()]), None),
        Err(DecodeError::AmbiguousAmmSettlement)
    );
    let mut removed = settled.clone();
    removed.removed = true;
    assert_eq!(
        decode_settled(&receipt(vec![settled, removed]), None),
        Err(DecodeError::RemovedSettled)
    );
}

#[test]
fn blinds_request_is_answered_or_refused() {
    let settled = log(vec![settled_topic0(), addr_topic(1)], vec![0u8; 160]);
    assert!(settled_answer(&receipt(vec![settled.clone()]), None).is_ok());
    assert_eq!(
        settled_answer(&receipt(vec![]), None),
        Err(ApiError {
            status: Status::NotFound,
            message: "no AmmSettlement.Settled event".into()
        })
    );
    assert_eq!(
        settled_answer(&receipt(vec![settled.clone(), settled]), None),
        Err(ApiError {
            status: Status::ServiceUnavailable,
            message: "Settled event is malformed or ambiguous".into()
        })
    );
}

#[test]
fn named_gateway_goes_before_the_configured_one() {
    let configured = Some("0xconfigured".to_string());
    let named = format!("  {}  ", "AB".repeat(20));
    assert_eq!(
        default_gateway(&configured, Some(&named)),
        Ok(Some(format!("0x{}", "ab".repeat(20))))
    );
    assert_eq!(default_gateway(&configured, Some(" \t")), Ok(configured.clone()));
    assert_eq!(default_gateway(&configured, None), Ok(configured.clone()));
    assert_eq!(default_gateway(&None, None), Ok(None));
    assert_eq!(
        default_gateway(&configured, Some("0x1234")),
        Err(ApiError {
            status: Status::BadRequest,
            message: "invalid gateway address".into()
        })
    );
}

#[test]
fn slots_are_shared_out_between_the_pools() {
    let l = log(vec![settled_topic0(), addr_topic(1)], vec![0u8; 160]);
    let s = decode_settled_log(&l, None).unwrap().unwrap();
    let meme = s.meme_pool.to_uppercase().replace("0X", "0x");
    let mut slots = vec![];
    for pool in [meme.as_str(), "0xquote"] {
        for index in 0..expected_outputs(pool, &s) {
            let (slot, blind) = slot_for_pool(pool, index, &s).unwrap();
            assert_eq!(blind.is_none(), slot == 0 || slot == 2);
            slots.push(slot);
        }
        assert_eq!(slot_for_pool(pool, expected_outputs(pool, &s), &s), None);
    }
    assert_eq!(slots, vec![0, 1, 2, 3, 4, 5]);
}
