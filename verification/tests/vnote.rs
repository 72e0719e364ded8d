use pool_indexer::api::{requested_transaction, ApiError, NoReply, Status};
use pool_indexer::logs::{event_topic0, hex32_0x, DecodeError, EthLog, ReceiptWithLogs};
use pool_indexer::vnote::{
    available_receipt, check_canonical, confirm_receipt, decode_blinds, nullifier_texts,
    readable_settlement, requested_nullifier, settle_slot_for_pool, settlement_answer,
    verify_log_provenance, SettlementBlinds,
};

fn receipt() -> ReceiptWithLogs {
    let word = |id: u8| format!("0x{}{}", "00".repeat(12), hex::encode([id; 20]));
    let mut data = vec![0u8; 256];
    data[12..32].copy_from_slice(&[3; 20]);
    data[63] = 100;
    for i in 0..6 {
        data[95 + i * 32] = i as u8 + 10;
    }
    ReceiptWithLogs {
        success: true,
        block_number: 100,
        block_hash: hex32_0x(&[7; 32]),
        logs: vec![EthLog {
            address: format!("0x{}", hex::encode([4; 20])),
            block_number: "0x64".into(),
            block_hash: Some(hex32_0x(&[7; 32])),
            transaction_hash: hex32_0x(&[8; 32]),
            log_index: "0x2".into(),
            removed: false,
            topics: Some(vec![
                event_topic0(b"SettlementExecuted(address,address,address,uint256,uint256[6])"),
                word(1),
                word(2),
            ]),
            data: format!("0x{}", hex::encode(data)),
        }],
    }
}

fn unavailable(message: &str) -> ApiError {
    ApiError {
        status: Status::ServiceUnavailable,
        message: message.into(),
    }
}

fn bad_request(message: &str) -> ApiError {
    ApiError {
        status: Status::BadRequest,
        message: message.into(),
    }
}

#[test]
fn canonical_receipt_event_decoding_is_exact_and_rejects_ambiguity() {
    let mut r = receipt();
    verify_log_provenance(&r, &hex32_0x(&[8; 32]), &r.block_hash).unwrap();
    let decoded = decode_blinds(&r, None).unwrap().unwrap();
    assert_eq!(decoded.fee_unshield_total, "100");
    assert_eq!(decoded.blinds.len(), 6);
    assert!(decoded.blinds[5].ends_with("0f"));
    assert!(
        decode_blinds(&r, Some("0x0000000000000000000000000000000000000001"))
            .unwrap()
            .is_none()
    );
    r.logs.push(receipt().logs.remove(0));
    assert!(decode_blinds(&r, None).is_err());
    assert!(verify_log_provenance(&r, &hex32_0x(&[8; 32]), &r.block_hash).is_err());
    r.logs.pop();
    r.logs[0].data.truncate(20);
    assert!(decode_blinds(&r, None).is_err());
}

#[test]
fn receipt_provenance_never_accepts_removed_or_reorged_logs() {
    for case in 0..4 {
        let mut r = receipt();
        match case {
            0 => r.logs[0].removed = true,
            1 => r.logs[0].block_hash = Some(hex32_0x(&[9; 32])),
            2 => r.logs[0].transaction_hash = hex32_0x(&[9; 32]),
            _ => r.logs[0].block_number = "0x65".into(),
        }
        assert!(verify_log_provenance(&r, &hex32_0x(&[8; 32]), &r.block_hash).is_err());
    }
}

#[test]
fn fee_pool_alias_keeps_global_slots() {
    let mut r = SettlementBlinds {
        pool_x: "x".into(),
        pool_y: "y".into(),
        fee_pool: "f".into(),
        gateway: "g".into(),
        fee_unshield_total: "2".into(),
        blinds: vec![],
    };
    assert_eq!(settle_slot_for_pool("x", 1, &r), Some(1));
    assert_eq!(settle_slot_for_pool("y", 1, &r), Some(3));
    assert_eq!(settle_slot_for_pool("f", 1, &r), Some(5));
    r.fee_pool = "x".into();
    assert_eq!(settle_slot_for_pool("x", 2, &r), Some(4));
    assert_eq!(settle_slot_for_pool("x", 3, &r), Some(5));
    assert_eq!(settle_slot_for_pool("x", 4, &r), None);
    r.fee_pool = "y".into();
    assert_eq!(settle_slot_for_pool("y", 2, &r), Some(4));
}

#[test]
fn settlement_fields_are_exact() {
    let decoded = decode_blinds(&receipt(), Some(&format!("0x{}", "04".repeat(20)))).unwrap();
    let word = |last: &str| format!("0x{}{}", "00".repeat(31), last);
    assert_eq!(
        decoded,
        Some(SettlementBlinds {
            pool_x: format!("0x{}", "01".repeat(20)),
            pool_y: format!("0x{}", "02".repeat(20)),
            fee_pool: format!("0x{}", "03".repeat(20)),
            gateway: format!("0x{}", "04".repeat(20)),
            fee_unshield_total: "100".into(),
            blinds: ["0a", "0b", "0c", "0d", "0e", "0f"].iter().map(|last| word(last)).collect(),
        })
    );
}

#[test]
fn settlements_are_refused_for_each_reason() {
    let refused = |change: &dyn Fn(&mut EthLog)| {
        let mut r = receipt();
        change(&mut r.logs[0]);
        decode_blinds(&r, None).unwrap_err()
    };
    let topic = |l: &mut EthLog, place: usize, text: &str| {
        l.topics.as_mut().unwrap()[place] = text.into();
    };
    assert_eq!(refused(&|l| l.removed = true), DecodeError::AmbiguousSettlement);
    assert_eq!(
        refused(&|l| l.topics.as_mut().unwrap().truncate(2)),
        DecodeError::AmbiguousSettlement
    );
    assert_eq!(refused(&|l| topic(l, 1, "0x1")), DecodeError::InvalidPoolX);
    assert_eq!(refused(&|l| topic(l, 2, "0x1")), DecodeError::InvalidPoolY);
    assert_eq!(
        refused(&|l| topic(l, 1, &hex32_0x(&[1; 32]))),
        DecodeError::InvalidSettlementPools
    );
    assert_eq!(
        refused(&|l| topic(l, 2, &format!("0x{}{}", "00".repeat(12), "01".repeat(20)))),
        DecodeError::InvalidSettlementPools
    );
    assert_eq!(refused(&|l| l.data = "0xzz".into()), DecodeError::DataNotHex);
    assert_eq!(refused(&|l| l.data = "0x00".into()), DecodeError::BlindsDataLength);
    assert_eq!(
        refused(&|l| l.data = "11".repeat(256)),
        DecodeError::InvalidFeePool
    );
    let mut r = receipt();
    r.logs[0].topics = None;
    assert_eq!(decode_blinds(&r, None), Ok(None));
    r.logs = vec![];
    assert_eq!(decode_blinds(&r, None), Ok(None));
}

#[test]
fn provenance_ignores_case_and_refuses_unreadable_numbers() {
    let mut r = receipt();
    let hash = hex32_0x(&[0xab; 32]);
    r.logs[0].transaction_hash = "AB".repeat(32);
    r.logs[0].block_hash = Some(hex32_0x(&[0xcd; 32]).to_uppercase().replace("0X", "0x"));
    let canonical = hex32_0x(&[0xcd; 32]);
    assert_eq!(verify_log_provenance(&r, &hash.to_uppercase().replace("0X", "0x"), &canonical), Ok(()));
    assert_eq!(
        verify_log_provenance(&r, &hash, &canonical.to_uppercase()),
        Err(DecodeError::ProvenanceMismatch)
    );
    r.logs[0].log_index = "0x".into();
    assert_eq!(
        verify_log_provenance(&r, &hash, &canonical),
        Err(DecodeError::InvalidNumber)
    );
    r.logs[0].block_number = "block".into();
    assert_eq!(
        verify_log_provenance(&r, &hash, &canonical),
        Err(DecodeError::InvalidNumber)
    );
    r.logs[0].block_hash = None;
    assert_eq!(
        verify_log_provenance(&r, &hash, &canonical),
        Err(DecodeError::ProvenanceMismatch)
    );
}

#[test]
fn logs_in_two_places_are_accepted() {
    let mut r = receipt();
    let mut second = r.logs[0].clone();
    second.log_index = "0x3".into();
    r.logs.push(second);
    let hash = hex32_0x(&[8; 32]);
    assert_eq!(verify_log_provenance(&r, &hash, &r.block_hash), Ok(()));
    r.logs[1].log_index = "02".into();
    assert_eq!(
        verify_log_provenance(&r, &hash, &r.block_hash),
        Err(DecodeError::ProvenanceMismatch)
    );
}

#[test]
fn only_confirmed_canonical_receipts_pass() {
    assert_eq!(
        available_receipt(Err(NoReply)),
        Err(unavailable("receipt RPC unavailable"))
    );
    assert_eq!(
        available_receipt(Ok(None)),
        Err(unavailable("transaction receipt not available yet"))
    );
    let mut reverted = receipt();
    reverted.success = false;
    assert_eq!(
        available_receipt(Ok(Some(reverted))),
        Err(unavailable("spend transaction reverted"))
    );
    let r = available_receipt(Ok(Some(receipt()))).unwrap();
    assert_eq!(r, receipt());
    assert_eq!(
        confirm_receipt(&r, Err(NoReply)),
        Err(unavailable("canonical confirmation head unavailable"))
    );
    assert_eq!(
        confirm_receipt(&r, Ok(99)),
        Err(unavailable("spend transaction is not yet confirmed"))
    );
    assert_eq!(confirm_receipt(&r, Ok(100)), Ok(()));
    let hash = hex32_0x(&[8; 32]);
    assert_eq!(
        check_canonical(&r, &hash, Err(NoReply)),
        Err(unavailable("canonical block unavailable"))
    );
    assert_eq!(
        check_canonical(&r, &hash, Ok(hex32_0x(&[6; 32]))),
        Err(unavailable("spend receipt is not canonical"))
    );
    assert_eq!(
        check_canonical(&r, &hex32_0x(&[9; 32]), Ok(r.block_hash.clone())),
        Err(unavailable("receipt log provenance mismatch"))
    );
    assert_eq!(check_canonical(&r, &hash, Ok(r.block_hash.clone())), Ok(()));
}

#[test]
fn settlement_request_is_answered_or_refused() {
    let mut r = receipt();
    let record = settlement_answer(&r, None).unwrap();
    assert_eq!(readable_settlement(&r, None), Ok(Some(record)));
    let elsewhere = Some("0x0000000000000000000000000000000000000001");
    assert_eq!(readable_settlement(&r, elsewhere), Ok(None));
    assert_eq!(
        settlement_answer(&r, elsewhere),
        Err(ApiError {
            status: Status::NotFound,
            message: "no SettlementExecuted event".into()
        })
    );
    r.logs[0].removed = true;
    let malformed = "settlement event is malformed or ambiguous";
    assert_eq!(readable_settlement(&r, None), Err(unavailable(malformed)));
    assert_eq!(settlement_answer(&r, None), Err(unavailable(malformed)));
}

#[test]
fn requests_name_a_transaction_or_a_nullifier() {
    let text = "AB".repeat(32);
    assert_eq!(requested_transaction(&text), Ok(hex32_0x(&[0xab; 32])));
    assert_eq!(
        requested_transaction("0x1"),
        Err(bad_request("invalid transaction hash"))
    );
    assert_eq!(requested_nullifier(&text), Ok([0xab; 32]));
    assert_eq!(requested_nullifier("0xab"), Err(bad_request("invalid nullifier")));
    assert_eq!(
        requested_nullifier(&hex32_0x(&[0; 32])),
        Err(bad_request("zero nullifier is not a spend identity"))
    );
    assert_eq!(
        nullifier_texts(&[0xab; 32]),
        vec!["ab".repeat(32), format!("0x{}", "ab".repeat(32))]
    );
}

#[test]
fn six_slots_are_shared_out_among_the_pools() {
    let mut record = decode_blinds(&receipt(), None).unwrap().unwrap();
    let x = record.pool_x.clone();
    let y = record.pool_y.clone();
    for fee in [record.fee_pool.clone(), x.clone(), y.clone()] {
        record.fee_pool = fee.clone();
        let mut pools = vec![x.clone(), y.clone()];
        if !pools.contains(&fee) {
            pools.push(fee);
        }
        let mut slots: Vec<usize> = pools
            .iter()
            .flat_map(|pool| (0..5).filter_map(|i| settle_slot_for_pool(pool, i, &record)))
            .collect();
        slots.sort_unstable();
        assert_eq!(slots, vec![0, 1, 2, 3, 4, 5]);
    }
    assert_eq!(settle_slot_for_pool("0xother", 0, &record), None);
}
