//! Settlements of the privacy AMM: the `Settled` and `PoolCreated` events, the public blinds that a
//! recipient subtracts a pad from, and the global slot that each output of a pool occupies.
//!
//! The slots are fixed by asset. A call of the meme pool fills slots 0 (reserve) and 1 (user); a
//! call of the quote pool fills slots 2 (reserve), 3 (user), 4 (fee of the creator) and 5 (fee of
//! the treasury). The payout blind opens whichever of slots 1 and 3 carries value, and the fee
//! blinds open slots 4 and 5.

use crate::api::{api_error, refuses, unavailable, ApiError, Status};
use crate::bytes::be_value;
use crate::logs::{
    address_text, comes_from, event_topic0, is_address, is_event, is_from, is_zero_extended,
    log_views, normalize_hex_0x, normalized, option_str, option_text, parse_hex, parse_hex32,
    parse_hex_u64, signature_topic, sized_bytes, starts_with_zeros, text_bytes, text_number,
    topic_address, topic_to_address, DecodeError, EthLog, LogView, ReceiptWithLogs,
};
use crate::text::{
    be_decimal, decimal, hex_0x, hex_bytes, hex_text, lowercase, same_ignoring_case, trimmed,
    with_0x, without_0x,
};
use vstd::prelude::*;
use vstd::slice::slice_subrange;
use vstd::utf8::encode_utf8;

verus! {

/// The number of outputs of a meme pool in a settlement.
pub const MEME_ACTIONS: usize = 2;

/// The number of outputs of a quote pool in a settlement.
pub const QUOTE_ACTIONS: usize = 4;

/// One settlement, as its event tells it.
#[derive(Clone, Debug, PartialEq, Eq)]
pub struct AmmSettled {
    pub gateway: String,
    pub pool_id: String,
    /// The pool number is the address of the meme pool.
    pub meme_pool: String,
    pub tip_cm_x: String,
    pub tip_cm_y: String,
    pub blind_payout: String,
    pub blind_fee_c: String,
    pub blind_fee_t: String,
    pub block_number: u64,
    pub tx_hash: String,
}

#[verifier::ext_equal]
pub struct AmmSettledView {
    pub gateway: Seq<char>,
    pub pool_id: Seq<char>,
    pub meme_pool: Seq<char>,
    pub tip_cm_x: Seq<char>,
    pub tip_cm_y: Seq<char>,
    pub blind_payout: Seq<char>,
    pub blind_fee_c: Seq<char>,
    pub blind_fee_t: Seq<char>,
    pub block_number: u64,
    pub tx_hash: Seq<char>,
}

impl View for AmmSettled {
    type V = AmmSettledView;

    open spec fn view(&self) -> AmmSettledView {
        AmmSettledView {
            gateway: self.gateway@,
            pool_id: self.pool_id@,
            meme_pool: self.meme_pool@,
            tip_cm_x: self.tip_cm_x@,
            tip_cm_y: self.tip_cm_y@,
            blind_payout: self.blind_payout@,
            blind_fee_c: self.blind_fee_c@,
            blind_fee_t: self.blind_fee_t@,
            block_number: self.block_number,
            tx_hash: self.tx_hash@,
        }
    }
}

/// One pool, as the event of its creation tells it.
#[derive(Clone, Debug, PartialEq, Eq)]
pub struct AmmPoolCreated {
    pub gateway: String,
    pub pool_id: String,
    pub meme_pool: String,
    pub quote_pool: String,
    pub creator_evm: String,
    pub creator_addr_commit: String,
    pub tip_cm_x: String,
    pub tip_cm_y: String,
    pub block_number: u64,
    pub tx_hash: String,
}

#[verifier::ext_equal]
pub struct AmmPoolCreatedView {
    pub gateway: Seq<char>,
    pub pool_id: Seq<char>,
    pub meme_pool: Seq<char>,
    pub quote_pool: Seq<char>,
    pub creator_evm: Seq<char>,
    pub creator_addr_commit: Seq<char>,
    pub tip_cm_x: Seq<char>,
    pub tip_cm_y: Seq<char>,
    pub block_number: u64,
    pub tx_hash: Seq<char>,
}

impl View for AmmPoolCreated {
    type V = AmmPoolCreatedView;

    open spec fn view(&self) -> AmmPoolCreatedView {
        AmmPoolCreatedView {
            gateway: self.gateway@,
            pool_id: self.pool_id@,
            meme_pool: self.meme_pool@,
            quote_pool: self.quote_pool@,
            creator_evm: self.creator_evm@,
            creator_addr_commit: self.creator_addr_commit@,
            tip_cm_x: self.tip_cm_x@,
            tip_cm_y: self.tip_cm_y@,
            block_number: self.block_number,
            tx_hash: self.tx_hash@,
        }
    }
}

/// The topic of the `Settled` event.
pub open spec fn settled_topic() -> Seq<char> {
    signature_topic(encode_utf8("Settled(uint256,bytes32,bytes32,uint256,uint256,uint256)"@))
}

/// The topic of the `PoolCreated` event.
pub open spec fn pool_created_topic() -> Seq<char> {
    signature_topic(
        encode_utf8("PoolCreated(uint256,address,address,address,uint256,bytes32,bytes32)"@),
    )
}

pub fn settled_topic0() -> (r: String)
    ensures
        r@ == settled_topic(),
{
    event_topic0("Settled(uint256,bytes32,bytes32,uint256,uint256,uint256)".as_bytes())
}

pub fn pool_created_topic0() -> (r: String)
    ensures
        r@ == pool_created_topic(),
{
    event_topic0("PoolCreated(uint256,address,address,address,uint256,bytes32,bytes32)".as_bytes())
}

/// The word at a place of event data.
pub open spec fn word(data: Seq<u8>, place: int) -> Seq<u8> {
    data.subrange(32 * place, 32 * place + 32)
}

/// The text of the word at a place of event data.
pub open spec fn word_text(data: Seq<u8>, place: int) -> Seq<char> {
    with_0x(hex_text(word(data, place)))
}

/// The decimal text of the word at a place of event data.
pub open spec fn word_decimal(data: Seq<u8>, place: int) -> Seq<char> {
    decimal(be_value(word(data, place)))
}

pub(crate) fn word_hex(data: &Vec<u8>, place: usize) -> (r: String)
    requires
        32 * place + 32 <= data@.len(),
    ensures
        r@ == word_text(data@, place as int),
{
    hex_0x(word_slice(data, place))
}

pub(crate) fn uint_dec(data: &Vec<u8>, place: usize) -> (r: String)
    requires
        32 * place + 32 <= data@.len(),
    ensures
        r@ == word_decimal(data@, place as int),
{
    be_decimal(word_slice(data, place))
}

pub(crate) fn word_slice(data: &Vec<u8>, place: usize) -> (r: &[u8])
    requires
        32 * place + 32 <= data@.len(),
    ensures
        r@ == word(data@, place as int),
{
    let len: usize = data.len();
    assert(32 * place + 32 <= len);
    slice_subrange(data.as_slice(), 32 * place, 32 * place + 32)
}

/// The address that a pool number is, which must be a zero-extended address other than zero.
pub open spec fn pool_address(topic: Seq<char>) -> Option<Seq<char>> {
    match sized_bytes(topic, 32) {
        Some(word) => if is_zero_extended(word) && exists|i: int|
            12 <= i < 32 && #[trigger] word[i] != 0 {
            Some(address_text(word))
        } else {
            None
        },
        None => None,
    }
}

pub fn pool_id_to_address(topic: &str) -> (r: Option<String>)
    ensures
        option_text(r) == pool_address(topic@),
{
    let raw = match parse_hex32(topic) {
        Some(raw) => raw,
        None => return None,
    };
    if !starts_with_zeros(raw.as_slice(), 12) || starts_with_zeros(raw.as_slice(), 32) {
        return None;
    }
    Some(hex_0x(slice_subrange(raw.as_slice(), 12, 32)))
}

/// What a log says of a settlement through `gateway`, if it is of one, or what is wrong with it.
pub open spec fn settled_of(log: LogView, gateway: Option<Seq<char>>) -> Result<
    Option<AmmSettledView>,
    DecodeError,
> {
    if !is_event(log, settled_topic()) || !is_from(log, gateway) {
        Ok(None)
    } else if log.removed {
        Err(DecodeError::RemovedSettled)
    } else if log.topics.len() != 2 {
        Err(DecodeError::SettledTopicCount)
    } else if sized_bytes(log.topics[1], 32) is None {
        Err(DecodeError::InvalidPoolId)
    } else if pool_address(log.topics[1]) is None {
        Err(DecodeError::PoolIdNotAddress)
    } else if text_bytes(log.data) is None {
        Err(DecodeError::DataNotHex)
    } else if text_bytes(log.data)->0.len() != 160 {
        Err(DecodeError::SettledDataLength)
    } else if text_number(log.block_number) is None {
        Err(DecodeError::InvalidNumber)
    } else {
        let data = text_bytes(log.data)->0;
        Ok(
            Some(
                AmmSettledView {
                    gateway: lowercase(log.address),
                    pool_id: decimal(be_value(sized_bytes(log.topics[1], 32)->0)),
                    meme_pool: pool_address(log.topics[1])->0,
                    tip_cm_x: word_text(data, 0),
                    tip_cm_y: word_text(data, 1),
                    blind_payout: word_decimal(data, 2),
                    blind_fee_c: word_decimal(data, 3),
                    blind_fee_t: word_decimal(data, 4),
                    block_number: text_number(log.block_number)->0,
                    tx_hash: lowercase(normalized(log.transaction_hash)),
                },
            ),
        )
    }
}

/// What a decoder returned, as what its values say.
pub open spec fn settled_view(r: Result<Option<AmmSettled>, DecodeError>) -> Result<
    Option<AmmSettledView>,
    DecodeError,
> {
    match r {
        Ok(Some(record)) => Ok(Some(record@)),
        Ok(None) => Ok(None),
        Err(error) => Err(error),
    }
}

pub fn decode_settled_log(log: &EthLog, gateway: Option<&str>) -> (r: Result<
    Option<AmmSettled>,
    DecodeError,
>)
    ensures
        settled_view(r) == settled_of(log@, option_str(gateway)),
{
    if !log.has_topic0(&settled_topic0()) {
        return Ok(None);
    }
    if !comes_from(log, gateway) {
        return Ok(None);
    }
    if log.removed {
        return Err(DecodeError::RemovedSettled);
    }
    if log.topic_count() != 2 {
        return Err(DecodeError::SettledTopicCount);
    }
    let pool_id = match parse_hex32(log.topic(1)) {
        Some(pool_id) => pool_id,
        None => return Err(DecodeError::InvalidPoolId),
    };
    let meme_pool = match pool_id_to_address(log.topic(1)) {
        Some(meme_pool) => meme_pool,
        None => return Err(DecodeError::PoolIdNotAddress),
    };
    let data = match parse_hex(log.data.as_str()) {
        Some(data) => data,
        None => return Err(DecodeError::DataNotHex),
    };
    if data.len() != 5 * 32 {
        return Err(DecodeError::SettledDataLength);
    }
    let block_number = match parse_hex_u64(log.block_number.as_str()) {
        Some(block_number) => block_number,
        None => return Err(DecodeError::InvalidNumber),
    };
    Ok(
        Some(
            AmmSettled {
                gateway: log.address.as_str().to_lowercase(),
                pool_id: be_decimal(pool_id.as_slice()),
                meme_pool,
                tip_cm_x: word_hex(&data, 0),
                tip_cm_y: word_hex(&data, 1),
                blind_payout: uint_dec(&data, 2),
                blind_fee_c: uint_dec(&data, 3),
                blind_fee_t: uint_dec(&data, 4),
                block_number,
                tx_hash: normalize_hex_0x(log.transaction_hash.as_str()).as_str().to_lowercase(),
            },
        ),
    )
}

/// What a log says of a pool created through `gateway`, if it is of one, or what is wrong with it.
pub open spec fn pool_created_of(log: LogView, gateway: Option<Seq<char>>) -> Result<
    Option<AmmPoolCreatedView>,
    DecodeError,
> {
    if !is_event(log, pool_created_topic()) || !is_from(log, gateway) {
        Ok(None)
    } else if log.removed {
        Err(DecodeError::RemovedPoolCreated)
    } else if log.topics.len() != 4 {
        Err(DecodeError::PoolCreatedTopicCount)
    } else if sized_bytes(log.topics[1], 32) is None {
        Err(DecodeError::InvalidPoolId)
    } else if topic_address(log.topics[2]) is None {
        Err(DecodeError::InvalidMemePool)
    } else if topic_address(log.topics[3]) is None {
        Err(DecodeError::InvalidQuotePool)
    } else if pool_address(log.topics[1]) != topic_address(log.topics[2]) {
        Err(DecodeError::PoolIdMismatch)
    } else if text_bytes(log.data) is None {
        Err(DecodeError::DataNotHex)
    } else if text_bytes(log.data)->0.len() != 128 {
        Err(DecodeError::PoolCreatedDataLength)
    } else if !is_zero_extended(text_bytes(log.data)->0) {
        Err(DecodeError::InvalidCreator)
    } else if text_number(log.block_number) is None {
        Err(DecodeError::InvalidNumber)
    } else {
        let data = text_bytes(log.data)->0;
        Ok(
            Some(
                AmmPoolCreatedView {
                    gateway: lowercase(log.address),
                    pool_id: decimal(be_value(sized_bytes(log.topics[1], 32)->0)),
                    meme_pool: topic_address(log.topics[2])->0,
                    quote_pool: topic_address(log.topics[3])->0,
                    creator_evm: address_text(word(data, 0)),
                    creator_addr_commit: word_decimal(data, 1),
                    tip_cm_x: word_text(data, 2),
                    tip_cm_y: word_text(data, 3),
                    block_number: text_number(log.block_number)->0,
                    tx_hash: lowercase(normalized(log.transaction_hash)),
                },
            ),
        )
    }
}

/// What a decoder returned, as what its values say.
pub open spec fn pool_created_view(r: Result<Option<AmmPoolCreated>, DecodeError>) -> Result<
    Option<AmmPoolCreatedView>,
    DecodeError,
> {
    match r {
        Ok(Some(record)) => Ok(Some(record@)),
        Ok(None) => Ok(None),
        Err(error) => Err(error),
    }
}

pub fn decode_pool_created_log(log: &EthLog, gateway: Option<&str>) -> (r: Result<
    Option<AmmPoolCreated>,
    DecodeError,
>)
    ensures
        pool_created_view(r) == pool_created_of(log@, option_str(gateway)),
{
    if !log.has_topic0(&pool_created_topic0()) {
        return Ok(None);
    }
    if !comes_from(log, gateway) {
        return Ok(None);
    }
    if log.removed {
        return Err(DecodeError::RemovedPoolCreated);
    }
    if log.topic_count() != 4 {
        return Err(DecodeError::PoolCreatedTopicCount);
    }
    let pool_id = match parse_hex32(log.topic(1)) {
        Some(pool_id) => pool_id,
        None => return Err(DecodeError::InvalidPoolId),
    };
    let meme_pool = match topic_to_address(log.topic(2)) {
        Some(meme_pool) => meme_pool,
        None => return Err(DecodeError::InvalidMemePool),
    };
    let quote_pool = match topic_to_address(log.topic(3)) {
        Some(quote_pool) => quote_pool,
        None => return Err(DecodeError::InvalidQuotePool),
    };
    match pool_id_to_address(log.topic(1)) {
        Some(named) => {
            if named != meme_pool {
                return Err(DecodeError::PoolIdMismatch);
            }
        },
        None => return Err(DecodeError::PoolIdMismatch),
    }
    let data = match parse_hex(log.data.as_str()) {
        Some(data) => data,
        None => return Err(DecodeError::DataNotHex),
    };
    if data.len() != 4 * 32 {
        return Err(DecodeError::PoolCreatedDataLength);
    }
    if !starts_with_zeros(data.as_slice(), 12) {
        return Err(DecodeError::InvalidCreator);
    }
    let block_number = match parse_hex_u64(log.block_number.as_str()) {
        Some(block_number) => block_number,
        None => return Err(DecodeError::InvalidNumber),
    };
    assert(word(data@, 0).subrange(12, 32) =~= data@.subrange(12, 32));
    Ok(
        Some(
            AmmPoolCreated {
                gateway: log.address.as_str().to_lowercase(),
                pool_id: be_decimal(pool_id.as_slice()),
                meme_pool,
                quote_pool,
                creator_evm: hex_0x(slice_subrange(data.as_slice(), 12, 32)),
                creator_addr_commit: uint_dec(&data, 1),
                tip_cm_x: word_hex(&data, 2),
                tip_cm_y: word_hex(&data, 3),
                block_number,
                tx_hash: normalize_hex_0x(log.transaction_hash.as_str()).as_str().to_lowercase(),
            },
        ),
    )
}

/// The settlement that the first `count` logs tell of, if they tell of one: a log that is wrong
/// makes them wrong, and two settlements are ambiguous.
pub open spec fn settled_among(
    logs: Seq<LogView>,
    gateway: Option<Seq<char>>,
    count: nat,
) -> Result<Option<AmmSettledView>, DecodeError>
    decreases count,
{
    if count == 0 {
        Ok(None)
    } else {
        match settled_among(logs, gateway, (count - 1) as nat) {
            Err(error) => Err(error),
            Ok(found) => match settled_of(logs[count - 1], gateway) {
                Err(error) => Err(error),
                Ok(None) => Ok(found),
                Ok(Some(record)) => if found is Some {
                    Err(DecodeError::AmbiguousAmmSettlement)
                } else {
                    Ok(Some(record))
                },
            },
        }
    }
}

/// What is wrong with the first logs stays wrong with more of them.
proof fn lemma_settled_error_stays(
    logs: Seq<LogView>,
    gateway: Option<Seq<char>>,
    count: nat,
    more: nat,
)
    requires
        count <= more,
        settled_among(logs, gateway, count) is Err,
    ensures
        settled_among(logs, gateway, more) == settled_among(logs, gateway, count),
    decreases more,
{
    if count < more {
        lemma_settled_error_stays(logs, gateway, count, (more - 1) as nat);
    }
}

/// The one settlement of a receipt, or none. Two are ambiguous and refused.
pub fn decode_settled(receipt: &ReceiptWithLogs, gateway: Option<&str>) -> (r: Result<
    Option<AmmSettled>,
    DecodeError,
>)
    ensures
        settled_view(r) == settled_among(
            log_views(receipt.logs@),
            option_str(gateway),
            receipt.logs@.len(),
        ),
{
    let ghost logs = log_views(receipt.logs@);
    let mut found: Option<AmmSettled> = None;
    let mut i: usize = 0;
    while i < receipt.logs.len()
        invariant
            i <= receipt.logs@.len(),
            logs == log_views(receipt.logs@),
            settled_view(Ok(found)) == settled_among(logs, option_str(gateway), i as nat),
        decreases receipt.logs.len() - i,
    {
        assert(logs[i as int] == receipt.logs@[i as int]@);
        proof {
            if settled_among(logs, option_str(gateway), (i + 1) as nat) is Err {
                lemma_settled_error_stays(
                    logs,
                    option_str(gateway),
                    (i + 1) as nat,
                    receipt.logs@.len(),
                );
            }
        }
        match decode_settled_log(&receipt.logs[i], gateway) {
            Ok(Some(record)) => {
                if found.is_some() {
                    return Err(DecodeError::AmbiguousAmmSettlement);
                }
                found = Some(record);
            },
            Ok(None) => {},
            Err(error) => return Err(error),
        }
        i = i + 1;
    }
    Ok(found)
}

/// The global slot of the `index`-th output of a pool in a settlement, and the blind that opens it.
pub open spec fn slot_of(pool: Seq<char>, index: usize, record: AmmSettledView) -> Option<
    (usize, Option<Seq<char>>),
> {
    if same_ignoring_case(pool, record.meme_pool) {
        if index == 0 {
            Some((0, None))
        } else if index == 1 {
            Some((1, Some(record.blind_payout)))
        } else {
            None
        }
    } else if index == 0 {
        Some((2, None))
    } else if index == 1 {
        Some((3, Some(record.blind_payout)))
    } else if index == 2 {
        Some((4, Some(record.blind_fee_c)))
    } else if index == 3 {
        Some((5, Some(record.blind_fee_t)))
    } else {
        None
    }
}

/// The global slot of the `index`-th output of a pool in a settlement, and the decimal blind that
/// opens it. The reserve slots have no public blind: the matcher holds their opening.
pub fn slot_for_pool(pool: &str, index: usize, record: &AmmSettled) -> (r: Option<
    (usize, Option<String>),
>)
    ensures
        match slot_of(pool@, index, record@) {
            Some((slot, blind)) => r matches Some(found) && found.0 == slot && option_text(found.1)
                == blind,
            None => r is None,
        },
{
    if pool.eq_ignore_ascii_case(record.meme_pool.as_str()) {
        return match index {
            0 => Some((0, None)),
            1 => Some((1, Some(record.blind_payout.clone()))),
            _ => None,
        };
    }
    match index {
        0 => Some((2, None)),
        1 => Some((3, Some(record.blind_payout.clone()))),
        2 => Some((4, Some(record.blind_fee_c.clone()))),
        3 => Some((5, Some(record.blind_fee_t.clone()))),
        _ => None,
    }
}

/// The number of outputs of a pool in a settlement.
pub fn expected_outputs(pool: &str, record: &AmmSettled) -> (r: usize)
    ensures
        r == (if same_ignoring_case(pool@, record.meme_pool@) {
            MEME_ACTIONS
        } else {
            QUOTE_ACTIONS
        }),
{
    if pool.eq_ignore_ascii_case(record.meme_pool.as_str()) {
        MEME_ACTIONS
    } else {
        QUOTE_ACTIONS
    }
}

/// The gateway that a request names, or the configured one where it names none.
pub open spec fn named_gateway(requested: Option<Seq<char>>) -> Option<Seq<char>> {
    match requested {
        Some(text) if trimmed(text).len() > 0 => Some(trimmed(text)),
        _ => None,
    }
}

/// The gateway to read: that which the request names, or else the configured one, if there is one.
pub fn default_gateway(configured: &Option<String>, requested: Option<&str>) -> (r: Result<
    Option<String>,
    ApiError,
>)
    ensures
        match named_gateway(option_str(requested)) {
            Some(named) => if sized_bytes(named, 20) is Some {
                r matches Ok(Some(gateway)) && gateway@ == lowercase(normalized(named))
            } else {
                refuses(r, Status::BadRequest, "invalid gateway address"@)
            },
            None => r matches Ok(gateway) && option_text(gateway) == option_text(*configured),
        },
{
    if let Some(text) = requested {
        let named = text.trim();
        if named.unicode_len() > 0 {
            if !is_address(named) {
                return Err(api_error(Status::BadRequest, "invalid gateway address"));
            }
            return Ok(Some(normalize_hex_0x(named).as_str().to_lowercase()));
        }
    }
    match configured {
        Some(gateway) => Ok(Some(gateway.clone())),
        None => Ok(None),
    }
}

/// The settlement that a confirmed receipt tells of, as a request for its blinds is answered.
pub fn settled_answer(receipt: &ReceiptWithLogs, gateway: Option<&str>) -> (r: Result<
    AmmSettled,
    ApiError,
>)
    ensures
        match settled_among(
            log_views(receipt.logs@),
            option_str(gateway),
            receipt.logs@.len(),
        ) {
            Ok(Some(record)) => r matches Ok(found) && found@ == record,
            Ok(None) => refuses(r, Status::NotFound, "no AmmSettlement.Settled event"@),
            Err(_) => refuses(
                r,
                Status::ServiceUnavailable,
                "Settled event is malformed or ambiguous"@,
            ),
        },
{
    match decode_settled(receipt, gateway) {
        Ok(Some(record)) => Ok(record),
        Ok(None) => Err(api_error(Status::NotFound, "no AmmSettlement.Settled event")),
        Err(_) => Err(unavailable("Settled event is malformed or ambiguous")),
    }
}

/// Whether a log is of a settlement through `gateway`.
pub open spec fn is_settled(log: LogView, gateway: Option<Seq<char>>) -> bool {
    is_event(log, settled_topic()) && is_from(log, gateway)
}

/// Logs among which there is a settlement either tell of one or are wrong.
proof fn lemma_settled_is_not_lost(
    logs: Seq<LogView>,
    gateway: Option<Seq<char>>,
    i: int,
    count: nat,
)
    requires
        0 <= i < count,
        is_settled(logs[i], gateway),
    ensures
        settled_among(logs, gateway, count) !is Ok || settled_among(
            logs,
            gateway,
            count,
        )->Ok_0 is Some,
    decreases count,
{
    if i < count - 1 {
        lemma_settled_is_not_lost(logs, gateway, i, (count - 1) as nat);
    }
}

/// A receipt with two settlements through a gateway is refused.
pub proof fn law_two_settled_are_refused(
    logs: Seq<LogView>,
    gateway: Option<Seq<char>>,
    i: int,
    j: int,
)
    requires
        0 <= i < j < logs.len(),
        is_settled(logs[i], gateway),
        is_settled(logs[j], gateway),
    ensures
        settled_among(logs, gateway, logs.len()) is Err,
{
    lemma_settled_is_not_lost(logs, gateway, i, j as nat);
    assert(settled_among(logs, gateway, (j + 1) as nat) is Err);
    lemma_settled_error_stays(logs, gateway, (j + 1) as nat, logs.len());
}

/// A receipt with a settlement log that was removed, or that does not read as a settlement, is
/// refused.
pub proof fn law_bad_settled_is_refused(logs: Seq<LogView>, gateway: Option<Seq<char>>, i: int)
    requires
        0 <= i < logs.len(),
        is_settled(logs[i], gateway),
        logs[i].removed || settled_of(logs[i], gateway) is Err,
    ensures
        settled_among(logs, gateway, logs.len()) is Err,
{
    assert(settled_among(logs, gateway, (i + 1) as nat) is Err);
    lemma_settled_error_stays(logs, gateway, (i + 1) as nat, logs.len());
}

/// The settlement of a receipt with only one is found, whatever other logs are around it.
pub proof fn law_only_settled_is_found(
    logs: Seq<LogView>,
    gateway: Option<Seq<char>>,
    i: int,
    count: nat,
)
    requires
        0 <= i < logs.len(),
        count <= logs.len(),
        forall|k: int| 0 <= k < logs.len() && is_settled(#[trigger] logs[k], gateway) ==> k == i,
    ensures
        settled_among(logs, gateway, count) == if i < count {
            settled_of(logs[i], gateway)
        } else {
            Ok(None)
        },
    decreases count,
{
    if count > 0 {
        law_only_settled_is_found(logs, gateway, i, (count - 1) as nat);
        let log = logs[count - 1];
        if count - 1 != i {
            assert(!is_settled(log, gateway));
        }
    }
}

/// Each output that a pool is expected to have occupies a slot of its own, no other output does,
/// and the meme pool and the quote pool share no slot; exactly the two reserve slots have no public
/// blind.
pub proof fn law_slots(record: AmmSettledView, a: Seq<char>, i: usize, b: Seq<char>, j: usize)
    ensures
        slot_of(a, i, record) is Some <==> i < if same_ignoring_case(a, record.meme_pool) {
            MEME_ACTIONS
        } else {
            QUOTE_ACTIONS
        },
        slot_of(a, i, record) matches Some((slot, blind)) ==> slot < MEME_ACTIONS + QUOTE_ACTIONS
            && (blind is None <==> slot == 0 || slot == 2),
        slot_of(a, i, record) matches Some((slot, _)) ==> (slot_of(b, j, record) matches Some(
            (other, _),
        ) ==> (slot == other <==> i == j && same_ignoring_case(a, record.meme_pool)
            == same_ignoring_case(b, record.meme_pool))),
{
}

/// What a settlement says is what its fields hold, each in its own place.
pub proof fn law_settled_fields(record: AmmSettled)
    ensures
        record@.gateway == record.gateway@,
        record@.pool_id == record.pool_id@,
        record@.meme_pool == record.meme_pool@,
        record@.tip_cm_x == record.tip_cm_x@,
        record@.tip_cm_y == record.tip_cm_y@,
        record@.blind_payout == record.blind_payout@,
        record@.blind_fee_c == record.blind_fee_c@,
        record@.blind_fee_t == record.blind_fee_t@,
        record@.block_number == record.block_number,
        record@.tx_hash == record.tx_hash@,
        settled_view(Ok(Some(record))) == Ok::<_, DecodeError>(Some(record@)),
        settled_view(Ok(None)) == Ok::<Option<AmmSettledView>, DecodeError>(None),
        forall|error: DecodeError|
            #[trigger] settled_view(Err(error)) == Err::<Option<AmmSettledView>, _>(error),
{
}

/// What the creation of a pool says is what its fields hold, each in its own place.
pub proof fn law_pool_created_fields(pool: AmmPoolCreated)
    ensures
        pool@.gateway == pool.gateway@,
        pool@.pool_id == pool.pool_id@,
        pool@.meme_pool == pool.meme_pool@,
        pool@.quote_pool == pool.quote_pool@,
        pool@.creator_evm == pool.creator_evm@,
        pool@.creator_addr_commit == pool.creator_addr_commit@,
        pool@.tip_cm_x == pool.tip_cm_x@,
        pool@.tip_cm_y == pool.tip_cm_y@,
        pool@.block_number == pool.block_number,
        pool@.tx_hash == pool.tx_hash@,
        pool_created_view(Ok(Some(pool))) == Ok::<_, DecodeError>(Some(pool@)),
        pool_created_view(Ok(None)) == Ok::<Option<AmmPoolCreatedView>, DecodeError>(None),
        forall|error: DecodeError|
            #[trigger] pool_created_view(Err(error)) == Err::<Option<AmmPoolCreatedView>, _>(
                error,
            ),
{
}

/// A pool number is an address exactly if its twelve high bytes are zero and the others are not all
/// zero; the address is in its last twenty bytes.
pub proof fn law_pool_address(topic: Seq<char>)
    ensures
        pool_address(topic) is Some <==> {
            &&& sized_bytes(topic, 32) is Some
            &&& forall|i: int| 0 <= i < 12 ==> #[trigger] sized_bytes(topic, 32)->0[i] == 0
            &&& exists|i: int| 12 <= i < 32 && #[trigger] sized_bytes(topic, 32)->0[i] != 0
        },
        pool_address(topic) matches Some(address) ==> address == with_0x(
            hex_text(sized_bytes(topic, 32)->0.subrange(12, 32)),
        ),
{
}

/// A settlement is read from its log word by word: the pool number and the meme pool from the
/// second topic, the two tips and the three blinds from the five words of the data in this order,
/// and the rest from the fields of the log.
pub proof fn law_settled_is_read_from_its_log(log: LogView, gateway: Option<Seq<char>>)
    ensures
        settled_of(log, gateway) matches Ok(Some(record)) ==> {
            let data = hex_bytes(without_0x(log.data));
            &&& record.gateway == lowercase(log.address)
            &&& record.pool_id == decimal(be_value(sized_bytes(log.topics[1], 32)->0))
            &&& Some(record.meme_pool) == topic_address(log.topics[1])
            &&& record.tip_cm_x == with_0x(hex_text(data.subrange(0, 32)))
            &&& record.tip_cm_y == with_0x(hex_text(data.subrange(32, 64)))
            &&& record.blind_payout == decimal(be_value(data.subrange(64, 96)))
            &&& record.blind_fee_c == decimal(be_value(data.subrange(96, 128)))
            &&& record.blind_fee_t == decimal(be_value(data.subrange(128, 160)))
            &&& Some(record.block_number) == text_number(log.block_number)
            &&& record.tx_hash == lowercase(normalized(log.transaction_hash))
        },
{
}

/// A log is read as a settlement exactly if it is one from the gateway and is in order, is passed
/// over exactly if it is not one, and is otherwise refused for the first thing that is wrong with
/// it.
pub proof fn law_settled_is_read_or_refused(log: LogView, gateway: Option<Seq<char>>)
    ensures
        settled_of(log, gateway) matches Ok(None) <==> !is_event(log, settled_topic()) || !is_from(
            log,
            gateway,
        ),
        is_event(log, settled_topic()) && is_from(log, gateway) ==> ({
            let r = settled_of(log, gateway);
            let bytes = text_bytes(log.data);
            if log.removed {
                r == Err::<Option<AmmSettledView>, _>(DecodeError::RemovedSettled)
            } else if log.topics.len() != 2 {
                r == Err::<Option<AmmSettledView>, _>(DecodeError::SettledTopicCount)
            } else if sized_bytes(log.topics[1], 32) is None {
                r == Err::<Option<AmmSettledView>, _>(DecodeError::InvalidPoolId)
            } else if pool_address(log.topics[1]) is None {
                r == Err::<Option<AmmSettledView>, _>(DecodeError::PoolIdNotAddress)
            } else if bytes is None {
                r == Err::<Option<AmmSettledView>, _>(DecodeError::DataNotHex)
            } else if bytes->0.len() != 160 {
                r == Err::<Option<AmmSettledView>, _>(DecodeError::SettledDataLength)
            } else if text_number(log.block_number) is None {
                r == Err::<Option<AmmSettledView>, _>(DecodeError::InvalidNumber)
            } else {
                r matches Ok(Some(_))
            }
        }),
{
}

/// The creation of a pool is read from its log word by word: its number, meme pool and quote pool
/// from the three topics behind the first, the creator, the commitment to it and the two tips from
/// the four words of the data in this order, and the rest from the fields of the log.
pub proof fn law_pool_created_is_read_from_its_log(log: LogView, gateway: Option<Seq<char>>)
    ensures
        pool_created_of(log, gateway) matches Ok(Some(pool)) ==> {
            let data = hex_bytes(without_0x(log.data));
            &&& pool.gateway == lowercase(log.address)
            &&& pool.pool_id == decimal(be_value(sized_bytes(log.topics[1], 32)->0))
            &&& Some(pool.meme_pool) == topic_address(log.topics[1])
            &&& Some(pool.meme_pool) == topic_address(log.topics[2])
            &&& Some(pool.quote_pool) == topic_address(log.topics[3])
            &&& pool.creator_evm == with_0x(hex_text(data.subrange(12, 32)))
            &&& pool.creator_addr_commit == decimal(be_value(data.subrange(32, 64)))
            &&& pool.tip_cm_x == with_0x(hex_text(data.subrange(64, 96)))
            &&& pool.tip_cm_y == with_0x(hex_text(data.subrange(96, 128)))
            &&& Some(pool.block_number) == text_number(log.block_number)
            &&& pool.tx_hash == lowercase(normalized(log.transaction_hash))
        },
{
    if let Ok(Some(pool)) = pool_created_of(log, gateway) {
        let data = hex_bytes(without_0x(log.data));
        assert(word(data, 0).subrange(12, 32) =~= data.subrange(12, 32));
    }
}

/// A log is read as the creation of a pool exactly if it is one from the gateway and is in order,
/// is passed over exactly if it is not one, and is otherwise refused for the first thing that is
/// wrong with it.
pub proof fn law_pool_created_is_read_or_refused(log: LogView, gateway: Option<Seq<char>>)
    ensures
        pool_created_of(log, gateway) matches Ok(None) <==> !is_event(log, pool_created_topic())
            || !is_from(log, gateway),
        is_event(log, pool_created_topic()) && is_from(log, gateway) ==> ({
            let r = pool_created_of(log, gateway);
            let bytes = text_bytes(log.data);
            if log.removed {
                r == Err::<Option<AmmPoolCreatedView>, _>(DecodeError::RemovedPoolCreated)
            } else if log.topics.len() != 4 {
                r == Err::<Option<AmmPoolCreatedView>, _>(DecodeError::PoolCreatedTopicCount)
            } else if sized_bytes(log.topics[1], 32) is None {
                r == Err::<Option<AmmPoolCreatedView>, _>(DecodeError::InvalidPoolId)
            } else if sized_bytes(log.topics[2], 32) is None {
                r == Err::<Option<AmmPoolCreatedView>, _>(DecodeError::InvalidMemePool)
            } else if sized_bytes(log.topics[3], 32) is None {
                r == Err::<Option<AmmPoolCreatedView>, _>(DecodeError::InvalidQuotePool)
            } else if pool_address(log.topics[1]) is None || pool_address(log.topics[1])
                != topic_address(log.topics[2]) {
                r == Err::<Option<AmmPoolCreatedView>, _>(DecodeError::PoolIdMismatch)
            } else if bytes is None {
                r == Err::<Option<AmmPoolCreatedView>, _>(DecodeError::DataNotHex)
            } else if bytes->0.len() != 128 {
                r == Err::<Option<AmmPoolCreatedView>, _>(DecodeError::PoolCreatedDataLength)
            } else if exists|i: int| 0 <= i < 12 && #[trigger] bytes->0[i] != 0 {
                r == Err::<Option<AmmPoolCreatedView>, _>(DecodeError::InvalidCreator)
            } else if text_number(log.block_number) is None {
                r == Err::<Option<AmmPoolCreatedView>, _>(DecodeError::InvalidNumber)
            } else {
                r matches Ok(Some(_))
            }
        }),
{
}

/// A receipt is refused only for cause: one of its settlement logs is not in order, or there are
/// two of them. Without a settlement log there is no settlement.
pub proof fn law_settled_is_refused_for_cause(
    logs: Seq<LogView>,
    gateway: Option<Seq<char>>,
    count: nat,
)
    requires
        count <= logs.len(),
    ensures
        settled_among(logs, gateway, count) is Err ==> {
            ||| exists|i: int| 0 <= i < count && (#[trigger] settled_of(logs[i], gateway)) is Err
            ||| exists|i: int, j: int|
                0 <= i < j < count && is_settled(#[trigger] logs[i], gateway) && is_settled(
                    #[trigger] logs[j],
                    gateway,
                )
        },
        settled_among(logs, gateway, count) matches Ok(Some(record)) ==> exists|i: int|
            0 <= i < count && (#[trigger] settled_of(logs[i], gateway)) == Ok::<_, DecodeError>(
                Some(record),
            ),
        (forall|i: int| 0 <= i < count ==> !is_settled(#[trigger] logs[i], gateway))
            ==> settled_among(logs, gateway, count) == Ok::<Option<AmmSettledView>, DecodeError>(
            None,
        ),
    decreases count,
{
    if count > 0 {
        let last = count - 1;
        law_settled_is_refused_for_cause(logs, gateway, last as nat);
        let here = settled_of(logs[last], gateway);
        if let Ok(Some(record)) = settled_among(logs, gateway, last as nat) {
            let i = choose|i: int|
                0 <= i < last && (#[trigger] settled_of(logs[i], gateway)) == Ok::<_, DecodeError>(
                    Some(record),
                );
            assert(is_settled(logs[i], gateway));
            if here matches Ok(Some(_)) {
                assert(is_settled(logs[last], gateway));
            }
        }
    }
}

/// The place of each output: those of the meme pool are the reserve and the user in slots 0 and 1,
/// those of any other pool the reserve, the user, the fee of the creator and the fee of the
/// treasury in slots 2 to 5. The payout blind opens the slots of the users, and each fee slot has
/// its own blind.
pub proof fn law_slot_places(pool: Seq<char>, record: AmmSettledView)
    ensures
        same_ignoring_case(pool, record.meme_pool) ==> slot_of(pool, 0, record) == Some(
            (0usize, None::<Seq<char>>),
        ) && slot_of(pool, 1, record) == Some((1usize, Some(record.blind_payout))),
        !same_ignoring_case(pool, record.meme_pool) ==> slot_of(pool, 0, record) == Some(
            (2usize, None::<Seq<char>>),
        ) && slot_of(pool, 1, record) == Some((3usize, Some(record.blind_payout))) && slot_of(
            pool,
            2,
            record,
        ) == Some((4usize, Some(record.blind_fee_c))) && slot_of(pool, 3, record) == Some(
            (5usize, Some(record.blind_fee_t)),
        ),
{
}

/// A request names a gateway if something is left of its text without the white space around it.
pub proof fn law_named_gateway(text: Seq<char>)
    ensures
        named_gateway(None) is None,
        trimmed(text).len() == 0 ==> named_gateway(Some(text)) is None,
        trimmed(text).len() > 0 ==> named_gateway(Some(text)) == Some(trimmed(text)),
{
}

/// One more log of a receipt changes nothing if it is of no settlement, is the settlement of the
/// receipt if it is the first one, and makes the receipt ambiguous if it is another; what is wrong
/// with a log is wrong with the receipt.
pub proof fn law_settled_log_by_log(logs: Seq<LogView>, gateway: Option<Seq<char>>, count: nat)
    ensures
        settled_among(logs, gateway, 0) == Ok::<Option<AmmSettledView>, DecodeError>(None),
        ({
            let before = settled_among(logs, gateway, count);
            let here = settled_of(logs[count as int], gateway);
            let now = settled_among(logs, gateway, count + 1);
            &&& before is Err ==> now == before
            &&& before is Ok && here is Err ==> now == here
            &&& before is Ok && here is Ok && here->Ok_0 is None ==> now == before
            &&& before is Ok && before->Ok_0 is None && here is Ok ==> now == here
            &&& before is Ok && before->Ok_0 is Some && here is Ok && here->Ok_0 is Some ==> now
                == Err::<Option<AmmSettledView>, _>(DecodeError::AmbiguousAmmSettlement)
        }),
{
}

} // verus!
