//! Recovery reads over receipts: the settlement that a receipt tells of, where its logs come from,
//! and the notes that a spend created.

use crate::amm::{uint_dec, word, word_decimal, word_hex, word_text};
use crate::api::{api_error, refuses, unavailable, ApiError, NoReply, Status};
use crate::bytes::be_value;
use crate::frontier::same_word;
use crate::logs::{
    address_text, comes_from, event_topic0, hex32_0x, is_event, is_from, is_zero_extended,
    log_views, normalize_hex_0x, normalized, option_str, parse_hex, parse_hex32, parse_hex_u64,
    signature_topic, sized_bytes, starts_with_zeros, text_bytes, text_number, texts,
    topic_address, DecodeError, EthLog, LogView, ReceiptWithLogs,
};
use crate::text::{
    decimal, hex_0x, hex_bytes, hex_encode, hex_text, law_hex_round_trip, lemma_hex_text_is_lower,
    lowercase, same_ignoring_case, with_0x, without_0x,
};
use std::collections::HashSet;
use vstd::prelude::*;
use vstd::slice::slice_subrange;
use vstd::utf8::encode_utf8;

verus! {

/// The blinds of one settlement, as its event tells them.
#[derive(Clone, Debug, PartialEq, Eq)]
pub struct SettlementBlinds {
    pub pool_x: String,
    pub pool_y: String,
    pub fee_pool: String,
    pub gateway: String,
    pub fee_unshield_total: String,
    pub blinds: Vec<String>,
}

#[verifier::ext_equal]
pub struct SettlementBlindsView {
    pub pool_x: Seq<char>,
    pub pool_y: Seq<char>,
    pub fee_pool: Seq<char>,
    pub gateway: Seq<char>,
    pub fee_unshield_total: Seq<char>,
    pub blinds: Seq<Seq<char>>,
}

impl View for SettlementBlinds {
    type V = SettlementBlindsView;

    open spec fn view(&self) -> SettlementBlindsView {
        SettlementBlindsView {
            pool_x: self.pool_x@,
            pool_y: self.pool_y@,
            fee_pool: self.fee_pool@,
            gateway: self.gateway@,
            fee_unshield_total: self.fee_unshield_total@,
            blinds: texts(self.blinds@),
        }
    }
}

/// The number of blinds in a settlement.
pub const BLINDS: usize = 6;

/// The topic of the `SettlementExecuted` event.
pub open spec fn settlement_topic() -> Seq<char> {
    signature_topic(
        encode_utf8("SettlementExecuted(address,address,address,uint256,uint256[6])"@),
    )
}

/// What a log says of a settlement through `gateway`, if it is of one, or what is wrong with it;
/// `another` says that a log before it told of one.
pub open spec fn blinds_of(log: LogView, gateway: Option<Seq<char>>, another: bool) -> Result<
    Option<SettlementBlindsView>,
    DecodeError,
> {
    if !is_event(log, settlement_topic()) || !is_from(log, gateway) {
        Ok(None)
    } else if log.removed || log.topics.len() != 3 || another {
        Err(DecodeError::AmbiguousSettlement)
    } else if sized_bytes(log.topics[1], 32) is None {
        Err(DecodeError::InvalidPoolX)
    } else if sized_bytes(log.topics[2], 32) is None {
        Err(DecodeError::InvalidPoolY)
    } else {
        let x = sized_bytes(log.topics[1], 32)->0;
        let y = sized_bytes(log.topics[2], 32)->0;
        if !is_zero_extended(x) || !is_zero_extended(y) || x == y {
            Err(DecodeError::InvalidSettlementPools)
        } else if text_bytes(log.data) is None {
            Err(DecodeError::DataNotHex)
        } else if text_bytes(log.data)->0.len() != 256 {
            Err(DecodeError::BlindsDataLength)
        } else if !is_zero_extended(text_bytes(log.data)->0) {
            Err(DecodeError::InvalidFeePool)
        } else {
            let data = text_bytes(log.data)->0;
            Ok(
                Some(
                    SettlementBlindsView {
                        pool_x: address_text(x),
                        pool_y: address_text(y),
                        fee_pool: address_text(word(data, 0)),
                        gateway: lowercase(log.address),
                        fee_unshield_total: word_decimal(data, 1),
                        blinds: Seq::new(BLINDS as nat, |i: int| word_text(data, 2 + i)),
                    },
                ),
            )
        }
    }
}

/// The settlement that the first `count` logs tell of, if they tell of one, or what is wrong with
/// them.
pub open spec fn blinds_among(logs: Seq<LogView>, gateway: Option<Seq<char>>, count: nat) -> Result<
    Option<SettlementBlindsView>,
    DecodeError,
>
    decreases count,
{
    if count == 0 {
        Ok(None)
    } else {
        match blinds_among(logs, gateway, (count - 1) as nat) {
            Err(error) => Err(error),
            Ok(found) => match blinds_of(logs[count - 1], gateway, found is Some) {
                Err(error) => Err(error),
                Ok(None) => Ok(found),
                Ok(Some(record)) => Ok(Some(record)),
            },
        }
    }
}

/// What a decoder returned, as what its values say.
pub open spec fn blinds_view(r: Result<Option<SettlementBlinds>, DecodeError>) -> Result<
    Option<SettlementBlindsView>,
    DecodeError,
> {
    match r {
        Ok(Some(record)) => Ok(Some(record@)),
        Ok(None) => Ok(None),
        Err(error) => Err(error),
    }
}

/// What is wrong with the first logs stays wrong with more of them.
proof fn lemma_blinds_error_stays(
    logs: Seq<LogView>,
    gateway: Option<Seq<char>>,
    count: nat,
    more: nat,
)
    requires
        count <= more,
        blinds_among(logs, gateway, count) is Err,
    ensures
        blinds_among(logs, gateway, more) == blinds_among(logs, gateway, count),
    decreases more,
{
    if count < more {
        lemma_blinds_error_stays(logs, gateway, count, (more - 1) as nat);
    }
}

/// Decodes one log, `another` saying that a log before it told of a settlement.
fn decode_blinds_log(log: &EthLog, gateway: Option<&str>, another: bool) -> (r: Result<
    Option<SettlementBlinds>,
    DecodeError,
>)
    ensures
        blinds_view(r) == blinds_of(log@, option_str(gateway), another),
{
    let topic0 = event_topic0(
        "SettlementExecuted(address,address,address,uint256,uint256[6])".as_bytes(),
    );
    if !log.has_topic0(&topic0) || !comes_from(log, gateway) {
        return Ok(None);
    }
    if log.removed || log.topic_count() != 3 || another {
        return Err(DecodeError::AmbiguousSettlement);
    }
    let x = match parse_hex32(log.topic(1)) {
        Some(x) => x,
        None => return Err(DecodeError::InvalidPoolX),
    };
    let y = match parse_hex32(log.topic(2)) {
        Some(y) => y,
        None => return Err(DecodeError::InvalidPoolY),
    };
    if !starts_with_zeros(x.as_slice(), 12) || !starts_with_zeros(y.as_slice(), 12) || same_word(
        &x,
        &y,
    ) {
        return Err(DecodeError::InvalidSettlementPools);
    }
    let data = match parse_hex(log.data.as_str()) {
        Some(data) => data,
        None => return Err(DecodeError::DataNotHex),
    };
    if data.len() != 8 * 32 {
        return Err(DecodeError::BlindsDataLength);
    }
    if !starts_with_zeros(data.as_slice(), 12) {
        return Err(DecodeError::InvalidFeePool);
    }
    let mut blinds: Vec<String> = Vec::new();
    let mut i: usize = 0;
    while i < BLINDS
        invariant
            i <= BLINDS,
            data@.len() == 256,
            blinds@.len() == i,
            forall|k: int|
                0 <= k < i ==> (#[trigger] blinds@[k])@ == word_text(data@, 2 + k),
        decreases BLINDS - i,
    {
        blinds.push(word_hex(&data, 2 + i));
        i = i + 1;
    }
    assert(texts(blinds@) =~= Seq::new(BLINDS as nat, |i: int| word_text(data@, 2 + i)));
    assert(word(data@, 0).subrange(12, 32) =~= data@.subrange(12, 32));
    Ok(
        Some(
            SettlementBlinds {
                pool_x: hex_0x(slice_subrange(x.as_slice(), 12, 32)),
                pool_y: hex_0x(slice_subrange(y.as_slice(), 12, 32)),
                fee_pool: hex_0x(slice_subrange(data.as_slice(), 12, 32)),
                gateway: log.address.as_str().to_lowercase(),
                fee_unshield_total: uint_dec(&data, 1),
                blinds,
            },
        ),
    )
}

/// The one settlement of a receipt, or none. Two are ambiguous and refused.
pub fn decode_blinds(receipt: &ReceiptWithLogs, gateway: Option<&str>) -> (r: Result<
    Option<SettlementBlinds>,
    DecodeError,
>)
    ensures
        blinds_view(r) == blinds_among(
            log_views(receipt.logs@),
            option_str(gateway),
            receipt.logs@.len(),
        ),
{
    let ghost logs = log_views(receipt.logs@);
    let mut found: Option<SettlementBlinds> = None;
    let mut i: usize = 0;
    while i < receipt.logs.len()
        invariant
            i <= receipt.logs@.len(),
            logs == log_views(receipt.logs@),
            blinds_view(Ok(found)) == blinds_among(logs, option_str(gateway), i as nat),
        decreases receipt.logs.len() - i,
    {
        assert(logs[i as int] == receipt.logs@[i as int]@);
        proof {
            if blinds_among(logs, option_str(gateway), (i + 1) as nat) is Err {
                lemma_blinds_error_stays(
                    logs,
                    option_str(gateway),
                    (i + 1) as nat,
                    receipt.logs@.len(),
                );
            }
        }
        match decode_blinds_log(&receipt.logs[i], gateway, found.is_some()) {
            Ok(Some(record)) => {
                found = Some(record);
            },
            Ok(None) => {},
            Err(error) => return Err(error),
        }
        i = i + 1;
    }
    Ok(found)
}

/// The global slot of the `index`-th note of a pool in a settlement. Fee calls follow both trade
/// calls, so that where the fee pool is a trade pool, its third and fourth notes are in the fee
/// slots, not in another pair of trade slots.
pub open spec fn settle_slot(pool: Seq<char>, index: usize, record: SettlementBlindsView) -> Option<
    usize,
> {
    let fee = same_ignoring_case(pool, record.fee_pool);
    if same_ignoring_case(pool, record.pool_x) {
        if index < 2 {
            Some(index)
        } else if fee && index < 4 {
            Some((index + 2) as usize)
        } else {
            None
        }
    } else if same_ignoring_case(pool, record.pool_y) {
        if index < 2 {
            Some((index + 2) as usize)
        } else if fee && index < 4 {
            Some((index + 2) as usize)
        } else {
            None
        }
    } else if fee && index < 2 {
        Some((index + 4) as usize)
    } else {
        None
    }
}

pub fn settle_slot_for_pool(pool: &str, index: usize, record: &SettlementBlinds) -> (r: Option<
    usize,
>)
    ensures
        r == settle_slot(pool@, index, record@),
        r is Some ==> r->0 < BLINDS,
{
    let trade: Option<usize> = if pool.eq_ignore_ascii_case(record.pool_x.as_str()) {
        Some(0)
    } else if pool.eq_ignore_ascii_case(record.pool_y.as_str()) {
        Some(2)
    } else {
        None
    };
    match trade {
        Some(base) => {
            if index < 2 {
                return Some(base + index);
            }
            if pool.eq_ignore_ascii_case(record.fee_pool.as_str()) && index < 4 {
                return Some(4 + index - 2);
            }
        },
        None => {
            if pool.eq_ignore_ascii_case(record.fee_pool.as_str()) && index < 2 {
                return Some(4 + index);
            }
        },
    }
    None
}

/// The lower case of an optional text.
pub open spec fn option_lowercase(text: Option<Seq<char>>) -> Option<Seq<char>> {
    match text {
        Some(text) => Some(lowercase(text)),
        None => None,
    }
}

/// Whether a log is not removed, and is of the transaction `hash` and of the block `canonical`.
pub open spec fn is_of_transaction(log: LogView, hash: Seq<char>, canonical: Seq<char>) -> bool {
    &&& !log.removed
    &&& lowercase(normalized(log.transaction_hash)) == lowercase(hash)
    &&& option_lowercase(log.block_hash) == Some(canonical)
}

/// The place in its block of a log of a receipt of block `block_number`, given the places of the
/// logs before it; or what is wrong with the log.
pub open spec fn log_place(
    log: LogView,
    block_number: u64,
    hash: Seq<char>,
    canonical: Seq<char>,
    taken: Set<u64>,
) -> Result<u64, DecodeError> {
    if !is_of_transaction(log, hash, canonical) {
        Err(DecodeError::ProvenanceMismatch)
    } else if text_number(log.block_number) is None {
        Err(DecodeError::InvalidNumber)
    } else if text_number(log.block_number) != Some(block_number) {
        Err(DecodeError::ProvenanceMismatch)
    } else if text_number(log.log_index) is None {
        Err(DecodeError::InvalidNumber)
    } else if taken.contains(text_number(log.log_index)->0) {
        Err(DecodeError::ProvenanceMismatch)
    } else {
        Ok(text_number(log.log_index)->0)
    }
}

/// The places of the first `count` logs of a receipt, or what is wrong with the first of them with
/// which something is.
pub open spec fn places(
    logs: Seq<LogView>,
    block_number: u64,
    hash: Seq<char>,
    canonical: Seq<char>,
    count: nat,
) -> Result<Set<u64>, DecodeError>
    decreases count,
{
    if count == 0 {
        Ok(Set::empty())
    } else {
        match places(logs, block_number, hash, canonical, (count - 1) as nat) {
            Err(error) => Err(error),
            Ok(taken) => match log_place(logs[count - 1], block_number, hash, canonical, taken) {
                Err(error) => Err(error),
                Ok(place) => Ok(taken.insert(place)),
            },
        }
    }
}

/// What is wrong with the first logs stays wrong with more of them.
proof fn lemma_places_error_stays(
    logs: Seq<LogView>,
    block_number: u64,
    hash: Seq<char>,
    canonical: Seq<char>,
    count: nat,
    more: nat,
)
    requires
        count <= more,
        places(logs, block_number, hash, canonical, count) is Err,
    ensures
        places(logs, block_number, hash, canonical, more) == places(
            logs,
            block_number,
            hash,
            canonical,
            count,
        ),
    decreases more,
{
    if count < more {
        lemma_places_error_stays(logs, block_number, hash, canonical, count, (more - 1) as nat);
    }
}

/// Finds the place of one log, given those of the logs before it.
fn place_of(
    log: &EthLog,
    block_number: u64,
    hash: &str,
    canonical: &str,
    taken: &HashSet<u64>,
) -> (r: Result<u64, DecodeError>)
    ensures
        r == log_place(log@, block_number, hash@, canonical@, taken@),
{
    if log.removed {
        return Err(DecodeError::ProvenanceMismatch);
    }
    let transaction = normalize_hex_0x(log.transaction_hash.as_str()).as_str().to_lowercase();
    if transaction != hash.to_lowercase() {
        return Err(DecodeError::ProvenanceMismatch);
    }
    match &log.block_hash {
        Some(block_hash) => {
            if block_hash.as_str().to_lowercase() != canonical.to_owned() {
                return Err(DecodeError::ProvenanceMismatch);
            }
        },
        None => return Err(DecodeError::ProvenanceMismatch),
    }
    match parse_hex_u64(log.block_number.as_str()) {
        Some(number) => {
            if number != block_number {
                return Err(DecodeError::ProvenanceMismatch);
            }
        },
        None => return Err(DecodeError::InvalidNumber),
    }
    match parse_hex_u64(log.log_index.as_str()) {
        Some(place) => {
            if taken.contains(&place) {
                Err(DecodeError::ProvenanceMismatch)
            } else {
                Ok(place)
            }
        },
        None => Err(DecodeError::InvalidNumber),
    }
}

/// Checks that every log of a receipt is of the transaction `hash` and of the block `canonical`,
/// and that no two are in the same place.
pub fn verify_log_provenance(receipt: &ReceiptWithLogs, hash: &str, canonical: &str) -> (r: Result<
    (),
    DecodeError,
>)
    ensures
        match places(
            log_views(receipt.logs@),
            receipt.block_number,
            hash@,
            canonical@,
            receipt.logs@.len(),
        ) {
            Ok(_) => r is Ok,
            Err(error) => r == Err::<(), _>(error),
        },
{
    let ghost logs = log_views(receipt.logs@);
    let mut taken: HashSet<u64> = HashSet::new();
    let mut i: usize = 0;
    while i < receipt.logs.len()
        invariant
            i <= receipt.logs@.len(),
            logs == log_views(receipt.logs@),
            places(logs, receipt.block_number, hash@, canonical@, i as nat) == Ok::<
                Set<u64>,
                DecodeError,
            >(taken@),
        decreases receipt.logs.len() - i,
    {
        assert(logs[i as int] == receipt.logs@[i as int]@);
        match place_of(&receipt.logs[i], receipt.block_number, hash, canonical, &taken) {
            Ok(place) => {
                taken.insert(place);
            },
            Err(error) => {
                proof {
                    lemma_places_error_stays(
                        logs,
                        receipt.block_number,
                        hash@,
                        canonical@,
                        (i + 1) as nat,
                        receipt.logs@.len(),
                    );
                }
                return Err(error);
            },
        }
        i = i + 1;
    }
    Ok(())
}

/// The receipt that a node replied with, if there is one and its transaction succeeded.
pub fn available_receipt(reply: Result<Option<ReceiptWithLogs>, NoReply>) -> (r: Result<
    ReceiptWithLogs,
    ApiError,
>)
    ensures
        match reply {
            Err(_) => refuses(r, Status::ServiceUnavailable, "receipt RPC unavailable"@),
            Ok(None) => refuses(
                r,
                Status::ServiceUnavailable,
                "transaction receipt not available yet"@,
            ),
            Ok(Some(receipt)) => if receipt.success {
                r == Ok::<_, ApiError>(receipt)
            } else {
                refuses(r, Status::ServiceUnavailable, "spend transaction reverted"@)
            },
        },
{
    let receipt = match reply {
        Err(_) => return Err(unavailable("receipt RPC unavailable")),
        Ok(None) => return Err(unavailable("transaction receipt not available yet")),
        Ok(Some(receipt)) => receipt,
    };
    if !receipt.success {
        return Err(unavailable("spend transaction reverted"));
    }
    Ok(receipt)
}

/// Checks that a receipt is not above the confirmation head that a node replied with.
pub fn confirm_receipt(receipt: &ReceiptWithLogs, head: Result<u64, NoReply>) -> (r: Result<
    (),
    ApiError,
>)
    ensures
        match head {
            Err(_) => refuses(
                r,
                Status::ServiceUnavailable,
                "canonical confirmation head unavailable"@,
            ),
            Ok(head) => if receipt.block_number <= head {
                r is Ok
            } else {
                refuses(r, Status::ServiceUnavailable, "spend transaction is not yet confirmed"@)
            },
        },
{
    let head = match head {
        Err(_) => return Err(unavailable("canonical confirmation head unavailable")),
        Ok(head) => head,
    };
    if receipt.block_number > head {
        return Err(unavailable("spend transaction is not yet confirmed"));
    }
    Ok(())
}

/// Checks that a receipt is of the block that a node replied is canonical at its height, and that
/// its logs are of the transaction `hash` in that block.
pub fn check_canonical(
    receipt: &ReceiptWithLogs,
    hash: &str,
    canonical: Result<String, NoReply>,
) -> (r: Result<(), ApiError>)
    ensures
        match canonical {
            Err(_) => refuses(r, Status::ServiceUnavailable, "canonical block unavailable"@),
            Ok(canonical) => if canonical@ != receipt.block_hash@ {
                refuses(r, Status::ServiceUnavailable, "spend receipt is not canonical"@)
            } else if places(
                log_views(receipt.logs@),
                receipt.block_number,
                hash@,
                canonical@,
                receipt.logs@.len(),
            ) is Err {
                refuses(r, Status::ServiceUnavailable, "receipt log provenance mismatch"@)
            } else {
                r is Ok
            },
        },
{
    let canonical = match canonical {
        Err(_) => return Err(unavailable("canonical block unavailable")),
        Ok(canonical) => canonical,
    };
    if canonical != receipt.block_hash {
        return Err(unavailable("spend receipt is not canonical"));
    }
    match verify_log_provenance(receipt, hash, canonical.as_str()) {
        Ok(_) => Ok(()),
        Err(_) => Err(unavailable("receipt log provenance mismatch")),
    }
}

/// The settlement that a receipt tells of, if it tells of one.
pub fn readable_settlement(receipt: &ReceiptWithLogs, gateway: Option<&str>) -> (r: Result<
    Option<SettlementBlinds>,
    ApiError,
>)
    ensures
        match blinds_among(
            log_views(receipt.logs@),
            option_str(gateway),
            receipt.logs@.len(),
        ) {
            Ok(record) => r matches Ok(found) && blinds_view(Ok(found)) == Ok::<_, DecodeError>(
                record,
            ),
            Err(_) => refuses(
                r,
                Status::ServiceUnavailable,
                "settlement event is malformed or ambiguous"@,
            ),
        },
{
    match decode_blinds(receipt, gateway) {
        Ok(record) => Ok(record),
        Err(_) => Err(unavailable("settlement event is malformed or ambiguous")),
    }
}

/// The settlement that a confirmed receipt tells of, as a request for its blinds is answered.
pub fn settlement_answer(receipt: &ReceiptWithLogs, gateway: Option<&str>) -> (r: Result<
    SettlementBlinds,
    ApiError,
>)
    ensures
        match blinds_among(
            log_views(receipt.logs@),
            option_str(gateway),
            receipt.logs@.len(),
        ) {
            Ok(Some(record)) => r matches Ok(found) && found@ == record,
            Ok(None) => refuses(r, Status::NotFound, "no SettlementExecuted event"@),
            Err(_) => refuses(
                r,
                Status::ServiceUnavailable,
                "settlement event is malformed or ambiguous"@,
            ),
        },
{
    match readable_settlement(receipt, gateway) {
        Ok(Some(record)) => Ok(record),
        Ok(None) => Err(api_error(Status::NotFound, "no SettlementExecuted event")),
        Err(error) => Err(error),
    }
}

/// The nullifier that a request names. The zero word names no spend.
pub fn requested_nullifier(text: &str) -> (r: Result<[u8; 32], ApiError>)
    ensures
        match sized_bytes(text@, 32) {
            None => refuses(r, Status::BadRequest, "invalid nullifier"@),
            Some(word) => if forall|i: int| 0 <= i < 32 ==> #[trigger] word[i] == 0 {
                refuses(r, Status::BadRequest, "zero nullifier is not a spend identity"@)
            } else {
                r matches Ok(nullifier) && nullifier@ == word
            },
        },
{
    let nullifier = match parse_hex32(text) {
        Some(nullifier) => nullifier,
        None => return Err(api_error(Status::BadRequest, "invalid nullifier")),
    };
    if starts_with_zeros(nullifier.as_slice(), 32) {
        return Err(api_error(Status::BadRequest, "zero nullifier is not a spend identity"));
    }
    Ok(nullifier)
}

/// The two texts under which an archive may have recorded a nullifier.
pub fn nullifier_texts(nullifier: &[u8; 32]) -> (r: Vec<String>)
    ensures
        texts(r@) == seq![hex_text(nullifier@), with_0x(hex_text(nullifier@))],
{
    let mut r: Vec<String> = Vec::new();
    r.push(hex_encode(nullifier.as_slice()));
    r.push(hex32_0x(nullifier));
    assert(texts(r@) =~= seq![hex_text(nullifier@), with_0x(hex_text(nullifier@))]);
    r
}

/// Whether a log is of a settlement through `gateway`.
pub open spec fn is_settlement(log: LogView, gateway: Option<Seq<char>>) -> bool {
    is_event(log, settlement_topic()) && is_from(log, gateway)
}

/// Logs among which there is a settlement either tell of one or are wrong.
proof fn lemma_settlement_is_not_lost(
    logs: Seq<LogView>,
    gateway: Option<Seq<char>>,
    i: int,
    count: nat,
)
    requires
        0 <= i < count,
        is_settlement(logs[i], gateway),
    ensures
        blinds_among(logs, gateway, count) !is Ok || blinds_among(
            logs,
            gateway,
            count,
        )->Ok_0 is Some,
    decreases count,
{
    if i < count - 1 {
        lemma_settlement_is_not_lost(logs, gateway, i, (count - 1) as nat);
    }
}

/// A receipt with two settlements through a gateway is refused.
pub proof fn law_two_settlements_are_refused(
    logs: Seq<LogView>,
    gateway: Option<Seq<char>>,
    i: int,
    j: int,
)
    requires
        0 <= i < j < logs.len(),
        is_settlement(logs[i], gateway),
        is_settlement(logs[j], gateway),
    ensures
        blinds_among(logs, gateway, logs.len()) is Err,
{
    lemma_settlement_is_not_lost(logs, gateway, i, j as nat);
    assert(blinds_among(logs, gateway, (j + 1) as nat) is Err);
    lemma_blinds_error_stays(logs, gateway, (j + 1) as nat, logs.len());
}

/// A receipt with a settlement log that was removed, or that does not read as a settlement, is
/// refused.
pub proof fn law_bad_settlement_is_refused(
    logs: Seq<LogView>,
    gateway: Option<Seq<char>>,
    i: int,
)
    requires
        0 <= i < logs.len(),
        is_settlement(logs[i], gateway),
        logs[i].removed || blinds_of(logs[i], gateway, false) is Err,
    ensures
        blinds_among(logs, gateway, logs.len()) is Err,
{
    assert(blinds_among(logs, gateway, (i + 1) as nat) is Err);
    lemma_blinds_error_stays(logs, gateway, (i + 1) as nat, logs.len());
}

/// The settlement of a receipt with only one is found, whatever other logs are around it.
pub proof fn law_only_settlement_is_found(
    logs: Seq<LogView>,
    gateway: Option<Seq<char>>,
    i: int,
    count: nat,
)
    requires
        0 <= i < logs.len(),
        count <= logs.len(),
        forall|k: int|
            0 <= k < logs.len() && is_settlement(#[trigger] logs[k], gateway) ==> k == i,
    ensures
        blinds_among(logs, gateway, count) == if i < count {
            blinds_of(logs[i], gateway, false)
        } else {
            Ok(None)
        },
    decreases count,
{
    if count > 0 {
        law_only_settlement_is_found(logs, gateway, i, (count - 1) as nat);
        let log = logs[count - 1];
        if count - 1 > i && blinds_of(logs[i], gateway, false) is Ok {
            assert(!is_settlement(log, gateway));
        }
    }
}

/// The pools of a settlement that a log tells of differ, whatever the case of their letters.
pub proof fn law_settlement_pools_differ(
    log: LogView,
    gateway: Option<Seq<char>>,
    another: bool,
)
    ensures
        blinds_of(log, gateway, another) matches Ok(Some(record)) ==> !same_ignoring_case(
            record.pool_x,
            record.pool_y,
        ) && record.blinds.len() == BLINDS,
{
    if let Ok(Some(record)) = blinds_of(log, gateway, another) {
        let x = sized_bytes(log.topics[1], 32)->0;
        let y = sized_bytes(log.topics[2], 32)->0;
        let last_x = x.subrange(12, 32);
        let last_y = y.subrange(12, 32);
        lemma_hex_text_is_lower(last_x);
        lemma_hex_text_is_lower(last_y);
        law_hex_round_trip(last_x);
        law_hex_round_trip(last_y);
        if same_ignoring_case(record.pool_x, record.pool_y) {
            assert(last_x == last_y);
            assert forall|i: int| 0 <= i < 32 implies x[i] == y[i] by {
                if i >= 12 {
                    assert(last_x[i - 12] == last_y[i - 12]);
                }
            }
            assert(x =~= y);
        }
    }
}

/// Whether a slot is given to a note of a pool of the settlement.
pub open spec fn is_given(slot: usize, record: SettlementBlindsView) -> bool {
    exists|pool: Seq<char>, index: usize|
        (pool == record.pool_x || pool == record.pool_y || pool == record.fee_pool)
            && #[trigger] settle_slot(pool, index, record) == Some(slot)
}

/// The six slots of a settlement between two pools are shared out among its pools: no slot is given
/// twice, neither to two notes of one pool nor to notes of two pools, and each is given to a note
/// of a trade pool or of the fee pool.
pub proof fn law_settlement_slots(record: SettlementBlindsView)
    requires
        !same_ignoring_case(record.pool_x, record.pool_y),
    ensures
        forall|a: Seq<char>, i: usize, b: Seq<char>, j: usize|
            (#[trigger] settle_slot(a, i, record)) is Some && settle_slot(a, i, record) == (
            #[trigger] settle_slot(b, j, record)) ==> same_ignoring_case(a, b) && i == j,
        forall|slot: usize| slot < BLINDS ==> #[trigger] is_given(slot, record),
{
    assert forall|slot: usize| slot < BLINDS implies #[trigger] is_given(slot, record) by {
        if slot < 2 {
            assert(settle_slot(record.pool_x, slot, record) == Some(slot));
        } else if slot < 4 {
            assert(settle_slot(record.pool_y, (slot - 2) as usize, record) == Some(slot));
        } else if same_ignoring_case(record.fee_pool, record.pool_x) || same_ignoring_case(
            record.fee_pool,
            record.pool_y,
        ) {
            assert(settle_slot(record.fee_pool, (slot - 2) as usize, record) == Some(slot));
        } else {
            assert(settle_slot(record.fee_pool, (slot - 4) as usize, record) == Some(slot));
        }
    }
}

/// Whether a log belongs in a receipt of the transaction `hash` in the block `canonical`.
pub open spec fn log_belongs(
    log: LogView,
    block_number: u64,
    hash: Seq<char>,
    canonical: Seq<char>,
) -> bool {
    &&& is_of_transaction(log, hash, canonical)
    &&& text_number(log.block_number) == Some(block_number)
    &&& text_number(log.log_index) is Some
}

/// The logs of a receipt are accepted exactly if none was removed, each is of the transaction and
/// of the canonical block, and no two are in the same place.
pub proof fn law_provenance(
    logs: Seq<LogView>,
    block_number: u64,
    hash: Seq<char>,
    canonical: Seq<char>,
    count: nat,
)
    requires
        count <= logs.len(),
    ensures
        places(logs, block_number, hash, canonical, count) is Ok <==> {
            &&& forall|i: int|
                0 <= i < count ==> log_belongs(#[trigger] logs[i], block_number, hash, canonical)
            &&& forall|i: int, j: int|
                0 <= i < j < count ==> text_number((#[trigger] logs[i]).log_index) != text_number(
                    (#[trigger] logs[j]).log_index,
                )
        },
        places(logs, block_number, hash, canonical, count) matches Ok(taken) ==> forall|place: u64|
            #[trigger] taken.contains(place) <==> exists|i: int|
                0 <= i < count && text_number((#[trigger] logs[i]).log_index) == Some(place),
    decreases count,
{
    if count > 0 {
        let last = (count - 1) as nat;
        law_provenance(logs, block_number, hash, canonical, last);
        match places(logs, block_number, hash, canonical, last) {
            Err(_) => {},
            Ok(taken) => {
                if log_belongs(logs[last as int], block_number, hash, canonical) {
                    let place = text_number(logs[last as int].log_index)->0;
                    if taken.contains(place) {
                        let i = choose|i: int|
                            0 <= i < last && text_number((#[trigger] logs[i]).log_index) == Some(
                                place,
                            );
                        assert(text_number(logs[i].log_index) == text_number(
                            logs[last as int].log_index,
                        ));
                    } else {
                        assert forall|p: u64| #[trigger]
                            taken.insert(place).contains(p) <==> exists|i: int|
                                0 <= i < count && text_number((#[trigger] logs[i]).log_index)
                                    == Some(p) by {
                            if taken.insert(place).contains(p) && p == place {
                                assert(text_number(logs[last as int].log_index) == Some(p));
                            }
                        }
                    }
                }
            },
        }
    }
}

/// What a settlement says is what its fields hold, each in its own place.
pub proof fn law_settlement_fields(record: SettlementBlinds, i: int)
    ensures
        record@.pool_x == record.pool_x@,
        record@.pool_y == record.pool_y@,
        record@.fee_pool == record.fee_pool@,
        record@.gateway == record.gateway@,
        record@.fee_unshield_total == record.fee_unshield_total@,
        record@.blinds.len() == record.blinds@.len(),
        0 <= i < record.blinds@.len() ==> record@.blinds[i] == record.blinds@[i]@,
        blinds_view(Ok(Some(record))) == Ok::<_, DecodeError>(Some(record@)),
        blinds_view(Ok(None)) == Ok::<Option<SettlementBlindsView>, DecodeError>(None),
        forall|error: DecodeError|
            #[trigger] blinds_view(Err(error)) == Err::<Option<SettlementBlindsView>, _>(error),
{
}

/// A settlement is read from its log word by word: the pool X from the topic behind the first, the
/// pool Y from the one behind that, whichever address is the greater, then the fee pool, the total
/// of the fee and six blinds from the eight words of the data in this order.
pub proof fn law_settlement_is_read_from_its_log(
    log: LogView,
    gateway: Option<Seq<char>>,
    another: bool,
    i: int,
)
    requires
        0 <= i < 6,
    ensures
        blinds_of(log, gateway, another) matches Ok(Some(record)) ==> {
            let data = hex_bytes(without_0x(log.data));
            &&& Some(record.pool_x) == topic_address(log.topics[1])
            &&& Some(record.pool_y) == topic_address(log.topics[2])
            &&& record.fee_pool == with_0x(hex_text(data.subrange(12, 32)))
            &&& record.gateway == lowercase(log.address)
            &&& record.fee_unshield_total == decimal(be_value(data.subrange(32, 64)))
            &&& record.blinds.len() == 6
            &&& record.blinds[i] == with_0x(hex_text(data.subrange(64 + 32 * i, 96 + 32 * i)))
        },
{
    if let Ok(Some(record)) = blinds_of(log, gateway, another) {
        let data = hex_bytes(without_0x(log.data));
        assert(word(data, 0).subrange(12, 32) =~= data.subrange(12, 32));
        assert(32 * (2 + i) == 64 + 32 * i);
    }
}

/// A log is read as a settlement exactly if it is one from the gateway, is the first one and is in
/// order, is passed over exactly if it is not one, and is otherwise refused for the first thing
/// that is wrong with it.
pub proof fn law_settlement_is_read_or_refused(
    log: LogView,
    gateway: Option<Seq<char>>,
    another: bool,
)
    ensures
        blinds_of(log, gateway, another) matches Ok(None) <==> !is_event(log, settlement_topic())
            || !is_from(log, gateway),
        is_event(log, settlement_topic()) && is_from(log, gateway) ==> ({
            let r = blinds_of(log, gateway, another);
            let x = sized_bytes(log.topics[1], 32);
            let y = sized_bytes(log.topics[2], 32);
            let bytes = text_bytes(log.data);
            if log.removed || log.topics.len() != 3 || another {
                r == Err::<Option<SettlementBlindsView>, _>(DecodeError::AmbiguousSettlement)
            } else if x is None {
                r == Err::<Option<SettlementBlindsView>, _>(DecodeError::InvalidPoolX)
            } else if y is None {
                r == Err::<Option<SettlementBlindsView>, _>(DecodeError::InvalidPoolY)
            } else if x == y || (exists|i: int| 0 <= i < 12 && #[trigger] x->0[i] != 0) || (exists|
                i: int,
            |
                0 <= i < 12 && #[trigger] y->0[i] != 0) {
                r == Err::<Option<SettlementBlindsView>, _>(DecodeError::InvalidSettlementPools)
            } else if bytes is None {
                r == Err::<Option<SettlementBlindsView>, _>(DecodeError::DataNotHex)
            } else if bytes->0.len() != 256 {
                r == Err::<Option<SettlementBlindsView>, _>(DecodeError::BlindsDataLength)
            } else if exists|i: int| 0 <= i < 12 && #[trigger] bytes->0[i] != 0 {
                r == Err::<Option<SettlementBlindsView>, _>(DecodeError::InvalidFeePool)
            } else {
                r matches Ok(Some(_))
            }
        }),
{
}

/// A receipt is refused only for cause: one of its settlement logs is not in order, or there are
/// two of them. Without a settlement log there is no settlement.
pub proof fn law_settlement_is_refused_for_cause(
    logs: Seq<LogView>,
    gateway: Option<Seq<char>>,
    count: nat,
)
    requires
        count <= logs.len(),
    ensures
        blinds_among(logs, gateway, count) is Err ==> {
            ||| exists|i: int|
                0 <= i < count && (#[trigger] blinds_of(logs[i], gateway, false)) is Err
            ||| exists|i: int, j: int|
                0 <= i < j < count && is_settlement(#[trigger] logs[i], gateway) && is_settlement(
                    #[trigger] logs[j],
                    gateway,
                )
        },
        blinds_among(logs, gateway, count) matches Ok(Some(record)) ==> exists|i: int|
            0 <= i < count && (#[trigger] blinds_of(logs[i], gateway, false)) == Ok::<
                _,
                DecodeError,
            >(Some(record)),
        (forall|i: int| 0 <= i < count ==> !is_settlement(#[trigger] logs[i], gateway))
            ==> blinds_among(logs, gateway, count) == Ok::<
            Option<SettlementBlindsView>,
            DecodeError,
        >(None),
    decreases count,
{
    if count > 0 {
        let last = count - 1;
        law_settlement_is_refused_for_cause(logs, gateway, last as nat);
        let here = blinds_of(logs[last], gateway, false);
        if let Ok(Some(record)) = blinds_among(logs, gateway, last as nat) {
            let i = choose|i: int|
                0 <= i < last && (#[trigger] blinds_of(logs[i], gateway, false)) == Ok::<
                    _,
                    DecodeError,
                >(Some(record));
            assert(is_settlement(logs[i], gateway));
            if is_settlement(logs[last], gateway) {
                assert(i < last);
            }
        }
    }
}

/// The place of each note: those of the pool X are in slots 0 and 1, those of the pool Y in slots 2
/// and 3, and those of the fee in slots 4 and 5; where a trade pool takes the fee too, the notes of
/// the fee are its third and fourth. Nothing else has a slot.
pub proof fn law_settle_slot_places(pool: Seq<char>, index: usize, record: SettlementBlindsView)
    ensures
        ({
            let x = same_ignoring_case(pool, record.pool_x);
            let y = same_ignoring_case(pool, record.pool_y);
            let fee = same_ignoring_case(pool, record.fee_pool);
            let slot = settle_slot(pool, index, record);
            &&& x && index < 2 ==> slot == Some(index)
            &&& !x && y && index < 2 ==> slot == Some((index + 2) as usize)
            &&& (x || y) && fee && 2 <= index < 4 ==> slot == Some((index + 2) as usize)
            &&& !x && !y && fee && index < 2 ==> slot == Some((index + 4) as usize)
            &&& index >= 4 ==> slot is None
            &&& index >= 2 && !fee ==> slot is None
            &&& index >= 2 && !x && !y ==> slot is None
            &&& !x && !y && !fee ==> slot is None
        }),
{
}

/// A log belongs in a receipt exactly if it was not removed, names the transaction and the block of
/// the receipt, whatever the case of their letters, and says at which height and in which place it
/// is. What is wrong with another log is told: a number that cannot be read, or a mismatch.
pub proof fn law_log_place(
    log: LogView,
    block_number: u64,
    hash: Seq<char>,
    canonical: Seq<char>,
    taken: Set<u64>,
)
    ensures
        ({
            let same = !log.removed && lowercase(normalized(log.transaction_hash)) == lowercase(
                hash,
            ) && log.block_hash is Some && lowercase(log.block_hash->0) == canonical;
            let height = text_number(log.block_number);
            let place = text_number(log.log_index);
            let r = log_place(log, block_number, hash, canonical, taken);
            &&& log_belongs(log, block_number, hash, canonical) <==> same && height == Some(
                block_number,
            ) && place is Some
            &&& r is Ok <==> same && height == Some(block_number) && place is Some
                && !taken.contains(place->0)
            &&& r is Ok ==> r == Ok::<u64, DecodeError>(place->0)
            &&& same && (height is None || (height == Some(block_number) && place is None))
                <==> r == Err::<u64, _>(DecodeError::InvalidNumber)
            &&& r matches Err(error) ==> error == DecodeError::InvalidNumber || error
                == DecodeError::ProvenanceMismatch
        }),
{
}

/// One more log of a receipt changes nothing if it is of no settlement, and is the settlement of
/// the receipt if it is the first one; another one, or one that is not in order, makes the receipt
/// wrong.
pub proof fn law_settlement_log_by_log(logs: Seq<LogView>, gateway: Option<Seq<char>>, count: nat)
    ensures
        blinds_among(logs, gateway, 0) == Ok::<Option<SettlementBlindsView>, DecodeError>(None),
        ({
            let before = blinds_among(logs, gateway, count);
            let now = blinds_among(logs, gateway, count + 1);
            &&& before is Err ==> now == before
            &&& before matches Ok(None) ==> now == blinds_of(logs[count as int], gateway, false)
            &&& before matches Ok(Some(_)) ==> now == if is_event(
                logs[count as int],
                settlement_topic(),
            ) && is_from(logs[count as int], gateway) {
                Err(DecodeError::AmbiguousSettlement)
            } else {
                before
            }
        }),
{
}

/// The places of the logs of a receipt are taken one by one, and what is wrong with the first log
/// that is not in order is wrong with the receipt.
pub proof fn law_places_log_by_log(
    logs: Seq<LogView>,
    block_number: u64,
    hash: Seq<char>,
    canonical: Seq<char>,
    count: nat,
)
    ensures
        places(logs, block_number, hash, canonical, 0) matches Ok(taken) && taken.len() == 0,
        ({
            let before = places(logs, block_number, hash, canonical, count);
            let now = places(logs, block_number, hash, canonical, count + 1);
            &&& before is Err ==> now == before
            &&& before matches Ok(taken) ==> match log_place(
                logs[count as int],
                block_number,
                hash,
                canonical,
                taken,
            ) {
                Ok(place) => now == Ok::<_, DecodeError>(taken.insert(place)),
                Err(error) => now == Err::<Set<u64>, _>(error),
            }
        }),
{
}

} // verus!
