use pool_indexer::api::{ApiError, NoReply, Status};
use pool_indexer::logs::{DecodeError, EthLog, ReceiptWithLogs};
use pool_indexer::spend::{
    is_spent_calldata, note_logs, placed_notes, spend_outputs, spend_transaction, unspent_answer,
    NoteOutput, ReceiptNote, SpendRecord,
};
use pool_indexer::vnote::SettlementBlinds;
use sha3::Digest;

fn unavailable(message: &str) -> ApiError {
    ApiError {
        status: Status::ServiceUnavailable,
        message: message.into(),
    }
}

fn log(address: &str, topics: Option<Vec<String>>, place: &str) -> EthLog {
    EthLog {
        address: address.into(),
        block_number: "0x1".into(),
        block_hash: None,
        transaction_hash: "0x".into(),
        log_index: place.into(),
        removed: false,
        topics,
        data: "0x".into(),
    }
}

fn note(id: u8) -> ReceiptNote {
    ReceiptNote {
        cmx: [id; 32],
        nf_old: [id + 100; 32],
        enc_ciphertext: vec![id, 0xff],
    }
}

fn record(fee_pool: &str) -> SettlementBlinds {
    SettlementBlinds {
        pool_x: "0xaa".into(),
        pool_y: "0xbb".into(),
        fee_pool: fee_pool.into(),
        gateway: "0xcc".into(),
        fee_unshield_total: "1".into(),
        blinds: (0..6).map(|i| format!("blind {i}")).collect(),
    }
}

fn spends(hashes: &[(u8, &str)]) -> Vec<SpendRecord> {
    hashes
        .iter()
        .map(|(id, hash)| SpendRecord {
            nf_old: [*id; 32],
            tx_hash: hash.to_string(),
        })
        .collect()
}

#[test]
fn archive_names_one_spend_or_is_ambiguous() {
    let notes = spends(&[(1, "0xAB"), (2, "0xcd"), (1, "ab")]);
    let none: Vec<String> = vec![];
    assert_eq!(spend_transaction(&[1; 32], &notes, &none), Ok(Some("0xab".into())));
    assert_eq!(spend_transaction(&[2; 32], &notes, &none), Ok(Some("0xcd".into())));
    assert_eq!(spend_transaction(&[3; 32], &notes, &none), Ok(None));
    let rows = vec!["0xaB".to_string()];
    assert_eq!(spend_transaction(&[1; 32], &notes, &rows), Ok(Some("0xab".into())));
    assert_eq!(spend_transaction(&[3; 32], &notes, &rows), Ok(Some("0xab".into())));
    assert_eq!(
        spend_transaction(&[2; 32], &notes, &rows),
        Err(DecodeError::AmbiguousSpend)
    );
    let twice = spends(&[(1, "0xab"), (1, "0xac")]);
    assert_eq!(
        spend_transaction(&[1; 32], &twice, &none),
        Err(DecodeError::AmbiguousSpend)
    );
    let two_rows = vec!["0x01".to_string(), "0x02".to_string()];
    assert_eq!(
        spend_transaction(&[9; 32], &notes, &two_rows),
        Err(DecodeError::AmbiguousSpend)
    );
}

#[test]
fn call_is_the_selector_and_the_nullifier() {
    let digest: [u8; 32] = sha3::Keccak256::digest(b"isSpent(bytes32)").into();
    let call = is_spent_calldata(&[5; 32]);
    assert_eq!(call.len(), 36);
    assert_eq!(call[..4], digest[..4]);
    assert_eq!(call[4..], [5; 32]);
}

#[test]
fn spent_nullifier_is_never_reported_as_unspent() {
    assert_eq!(
        unspent_answer(Err(NoReply)),
        unavailable("nullifier state unavailable")
    );
    assert_eq!(
        unspent_answer(Ok(vec![0; 31])),
        unavailable("invalid nullifier state response")
    );
    let mut spent = vec![0; 32];
    spent[31] = 1;
    assert_eq!(
        unspent_answer(Ok(spent)),
        unavailable("spent nullifier has no durable spend record yet")
    );
    assert_eq!(
        unspent_answer(Ok(vec![0; 32])),
        ApiError {
            status: Status::NotFound,
            message: "nullifier is unspent".into()
        }
    );
}

#[test]
fn notes_of_a_pool_are_told_by_address_and_topic() {
    let topics = vec!["0xaa".to_string(), "0xbb".to_string()];
    let of = |address: &str, topic: &str| log(address, Some(vec![topic.into()]), "0x0");
    let receipt = ReceiptWithLogs {
        success: true,
        block_number: 1,
        block_hash: "0x".into(),
        logs: vec![
            of("0xPool", "0xBB"),
            of("0xPool", "0xcc"),
            of("0xother", "0xaa"),
            log("0xpool", Some(vec![]), "0x0"),
            log("0xpool", None, "0x0"),
            of("0xpool", "0xaa"),
        ],
    };
    assert_eq!(note_logs(&receipt, "0xpOOL", &topics), vec![0, 5]);
    assert_eq!(note_logs(&receipt, "0xother", &topics), vec![2]);
    assert!(note_logs(&receipt, "0xpool", &vec![]).is_empty());
}

#[test]
fn notes_are_placed_by_their_logs() {
    let good = log("a", None, "0x1f");
    let other = log("a", None, "0x2");
    let bad = log("a", None, "nowhere");
    assert_eq!(
        placed_notes(vec![(&good, Some(note(1))), (&other, Some(note(2)))]),
        Ok(vec![(31, note(1)), (2, note(2))])
    );
    assert_eq!(placed_notes(vec![]), Ok(vec![]));
    assert_eq!(
        placed_notes(vec![(&good, Some(note(1))), (&bad, Some(note(1))), (&good, None)]),
        Err(unavailable("receipt note position invalid"))
    );
    assert_eq!(
        placed_notes(vec![(&bad, None)]),
        Err(unavailable("receipt note data is malformed"))
    );
}

#[test]
fn outputs_come_in_log_order_with_slots_and_blinds() {
    let notes = vec![(7, note(2)), (3, note(1))];
    let outputs = spend_outputs("0xBB", &[102; 32], notes, &Some(record("0xff"))).unwrap();
    let output = |id: u8, index: usize, slot: usize| NoteOutput {
        pool: "0xbb".into(),
        cmx_hex: format!("0x{}", hex::encode([id; 32])),
        nf_old_hex: format!("0x{}", hex::encode([id + 100; 32])),
        enc_ciphertext_hex: hex::encode([id, 0xff]),
        action_index: index,
        settle_slot: Some(slot),
        blind: Some(format!("blind {slot}")),
    };
    assert_eq!(outputs, vec![output(1, 0, 2), output(2, 1, 3)]);
}

#[test]
fn outputs_without_a_settlement_have_no_slot() {
    let notes = vec![(5, note(1)), (4, note(2)), (5, note(3))];
    let outputs = spend_outputs("0xAA", &[101; 32], notes, &None).unwrap();
    let cmxs: Vec<String> = outputs.iter().map(|output| output.cmx_hex.clone()).collect();
    let cmx = |id: u8| format!("0x{}", hex::encode([id; 32]));
    assert_eq!(cmxs, vec![cmx(2), cmx(1), cmx(3)]);
    assert!(outputs.iter().all(|output| output.settle_slot.is_none() && output.blind.is_none()));
    assert_eq!(outputs[2].action_index, 2);
}

#[test]
fn pool_that_takes_the_fee_too_has_four_outputs() {
    let notes: Vec<(u64, ReceiptNote)> = (0..4).map(|i| (i as u64, note(i))).collect();
    let outputs = spend_outputs("0xaa", &[100; 32], notes.clone(), &Some(record("0xaa"))).unwrap();
    let slots: Vec<usize> = outputs.iter().map(|output| output.settle_slot.unwrap()).collect();
    assert_eq!(slots, vec![0, 1, 4, 5]);
    assert_eq!(
        spend_outputs("0xaa", &[100; 32], notes[..2].to_vec(), &Some(record("0xaa"))),
        Err(unavailable("settlement receipt has an incomplete output set"))
    );
}

#[test]
fn partial_output_sets_are_refused() {
    let incomplete = "settlement receipt has an incomplete output set";
    let settled = Some(record("0xff"));
    let one = vec![(1, note(1))];
    let two = vec![(1, note(1)), (2, note(2))];
    assert_eq!(
        spend_outputs("0xaa", &[101; 32], one, &settled),
        Err(unavailable(incomplete))
    );
    assert_eq!(
        spend_outputs("0xaa", &[9; 32], two.clone(), &settled),
        Err(unavailable("durable spend identity disagrees with canonical receipt"))
    );
    assert_eq!(
        spend_outputs("0xaa", &[9; 32], vec![], &None),
        Err(unavailable("durable spend identity disagrees with canonical receipt"))
    );
    assert_eq!(
        spend_outputs("0xother", &[101; 32], two, &settled),
        Err(unavailable("settlement pool slot mapping failed"))
    );
}
