//! Event logs and receipts as a node reports them, and the words in them.

use crate::text::{
    ascii_lowercase, digit_value, hex_0x, hex_bytes, hex_decode, hex_text, is_hex,
    law_hex_round_trip, lowercase, same_ignoring_case, trim_0x, with_0x, without_0x,
};
use sha3::Digest;
use vstd::prelude::*;
use vstd::utf8::encode_utf8;

verus! {

/// What is wrong with a log or a receipt.
#[derive(Clone, Copy, Debug, PartialEq, Eq)]
pub enum DecodeError {
    RemovedSettled,
    SettledTopicCount,
    InvalidPoolId,
    PoolIdNotAddress,
    DataNotHex,
    SettledDataLength,
    InvalidNumber,
    RemovedPoolCreated,
    PoolCreatedTopicCount,
    InvalidMemePool,
    InvalidQuotePool,
    PoolIdMismatch,
    PoolCreatedDataLength,
    InvalidCreator,
    AmbiguousAmmSettlement,
    AmbiguousSettlement,
    InvalidPoolX,
    InvalidPoolY,
    InvalidSettlementPools,
    BlindsDataLength,
    InvalidFeePool,
    ProvenanceMismatch,
    AmbiguousSpend,
}

/// One event log, every number and byte string as text.
#[derive(Clone, Debug, PartialEq, Eq)]
pub struct EthLog {
    pub address: String,
    pub block_number: String,
    pub block_hash: Option<String>,
    pub transaction_hash: String,
    pub log_index: String,
    pub removed: bool,
    pub topics: Option<Vec<String>>,
    pub data: String,
}

/// A transaction receipt with its logs.
#[derive(Clone, Debug, PartialEq, Eq)]
pub struct ReceiptWithLogs {
    pub success: bool,
    pub block_number: u64,
    pub block_hash: String,
    pub logs: Vec<EthLog>,
}

/// What a log says, an absent list of topics being an empty one.
#[verifier::ext_equal]
pub struct LogView {
    pub address: Seq<char>,
    pub block_number: Seq<char>,
    pub block_hash: Option<Seq<char>>,
    pub transaction_hash: Seq<char>,
    pub log_index: Seq<char>,
    pub removed: bool,
    pub topics: Seq<Seq<char>>,
    pub data: Seq<char>,
}

pub open spec fn option_text(text: Option<String>) -> Option<Seq<char>> {
    match text {
        Some(text) => Some(text@),
        None => None,
    }
}

pub open spec fn option_str(text: Option<&str>) -> Option<Seq<char>> {
    match text {
        Some(text) => Some(text@),
        None => None,
    }
}

pub open spec fn texts(strings: Seq<String>) -> Seq<Seq<char>> {
    strings.map_values(|string: String| string@)
}

impl View for EthLog {
    type V = LogView;

    open spec fn view(&self) -> LogView {
        LogView {
            address: self.address@,
            block_number: self.block_number@,
            block_hash: option_text(self.block_hash),
            transaction_hash: self.transaction_hash@,
            log_index: self.log_index@,
            removed: self.removed,
            topics: match self.topics {
                Some(topics) => texts(topics@),
                None => seq![],
            },
            data: self.data@,
        }
    }
}

/// What the logs of a receipt say.
pub open spec fn log_views(logs: Seq<EthLog>) -> Seq<LogView> {
    logs.map_values(|log: EthLog| log@)
}

impl EthLog {
    /// The number of topics.
    pub(crate) fn topic_count(&self) -> (r: usize)
        ensures
            r == self@.topics.len(),
    {
        match &self.topics {
            Some(topics) => topics.len(),
            None => 0,
        }
    }

    /// The topic at a place.
    pub(crate) fn topic(&self, place: usize) -> (r: &str)
        requires
            place < self@.topics.len(),
        ensures
            r@ == self@.topics[place as int],
    {
        match &self.topics {
            Some(topics) => topics[place].as_str(),
            None => "",
        }
    }

    /// Whether the first topic, in lower case, is `topic0`.
    pub(crate) fn has_topic0(&self, topic0: &String) -> (r: bool)
        ensures
            r == is_event(self@, topic0@),
    {
        if self.topic_count() == 0 {
            return false;
        }
        self.topic(0).to_lowercase() == *topic0
    }
}

/// Whether a log is of the event whose signature topic is `topic0`.
pub open spec fn is_event(log: LogView, topic0: Seq<char>) -> bool {
    log.topics.len() > 0 && lowercase(log.topics[0]) == topic0
}

/// Whether a log comes from `gateway`, whatever the case of its letters, or any log does.
pub open spec fn is_from(log: LogView, gateway: Option<Seq<char>>) -> bool {
    match gateway {
        Some(gateway) => ascii_lowercase(gateway) == ascii_lowercase(log.address),
        None => true,
    }
}

pub(crate) fn comes_from(log: &EthLog, gateway: Option<&str>) -> (r: bool)
    ensures
        r == is_from(log@, option_str(gateway)),
{
    match gateway {
        Some(gateway) => gateway.eq_ignore_ascii_case(log.address.as_str()),
        None => true,
    }
}

/// What `sha3::Keccak256::digest` gives for a byte string.
pub uninterp spec fn keccak256_digest(data: Seq<u8>) -> Seq<u8>;

/// `sha3::Keccak256::digest`: the 32-byte Keccak digest of a byte string.
#[verifier::external_body]
pub(crate) fn keccak256(data: &[u8]) -> (r: [u8; 32])
    ensures
        r@ == keccak256_digest(data@),
{
    sha3::Keccak256::digest(data).into()
}

/// The topic of the event with a signature.
pub open spec fn signature_topic(signature: Seq<u8>) -> Seq<char> {
    with_0x(hex_text(keccak256_digest(signature)))
}

/// The first topic of the logs of the event with a signature.
pub fn event_topic0(signature: &[u8]) -> (r: String)
    ensures
        r@ == signature_topic(signature@),
{
    hex_0x(keccak256(signature).as_slice())
}

/// The bytes that a hexadecimal text spells, with or without `0x` in front.
pub open spec fn text_bytes(text: Seq<char>) -> Option<Seq<u8>> {
    let digits = without_0x(text);
    if is_hex(digits) {
        Some(hex_bytes(digits))
    } else {
        None
    }
}

pub(crate) fn parse_hex(text: &str) -> (r: Option<Vec<u8>>)
    ensures
        match text_bytes(text@) {
            Some(bytes) => r is Some && r->0@ == bytes,
            None => r is None,
        },
{
    match hex_decode(trim_0x(text)) {
        Ok(bytes) => Some(bytes),
        Err(_) => None,
    }
}

/// The bytes that a hexadecimal text spells, if they are `len` of them.
pub open spec fn sized_bytes(text: Seq<char>, len: nat) -> Option<Seq<u8>> {
    match text_bytes(text) {
        Some(bytes) if bytes.len() == len => Some(bytes),
        _ => None,
    }
}

/// The 32 bytes that a hexadecimal text spells, with or without `0x` in front.
pub fn parse_hex32(text: &str) -> (r: Option<[u8; 32]>)
    ensures
        match sized_bytes(text@, 32) {
            Some(word) => r is Some && r->0@ == word,
            None => r is None,
        },
{
    match parse_hex(text) {
        Some(bytes) => if bytes.len() == 32 {
            Some(crate::bytes::word_at(bytes.as_slice(), 0))
        } else {
            None
        },
        None => None,
    }
}

/// Whether a hexadecimal text, with or without `0x` in front, spells the 20 bytes of an address.
pub fn is_address(text: &str) -> (r: bool)
    ensures
        r == (sized_bytes(text@, 20) is Some),
{
    match parse_hex(text) {
        Some(bytes) => bytes.len() == 20,
        None => false,
    }
}

/// The text of a 32-byte word.
pub fn hex32_0x(word: &[u8; 32]) -> (r: String)
    ensures
        r@ == with_0x(hex_text(word@)),
{
    hex_0x(word.as_slice())
}

/// A text with `0x` in front, unless it has it.
pub open spec fn normalized(text: Seq<char>) -> Seq<char> {
    if text.len() >= 2 && text[0] == '0' && text[1] == 'x' {
        text
    } else {
        with_0x(text)
    }
}

/// The text with `0x` in front, unless it has it.
pub fn normalize_hex_0x(text: &str) -> (r: String)
    ensures
        r@ == normalized(text@),
{
    if text.unicode_len() >= 2 && text.get_char(0) == '0' && text.get_char(1) == 'x' {
        return text.to_owned();
    }
    proof {
        reveal_strlit("0x");
        assert("0x"@ =~= seq!['0', 'x']);
    }
    let mut r = "0x".to_owned();
    r.append(text);
    r
}

/// The number that hexadecimal digits spell, most significant first.
pub open spec fn hex_number(digits: Seq<char>) -> nat
    decreases digits.len(),
{
    if digits.len() == 0 {
        0
    } else {
        16 * hex_number(digits.drop_last()) + digit_value(digits.last())->0
    }
}

/// The number of 64 bits that a hexadecimal text spells, with or without `0x` in front.
pub open spec fn text_number(text: Seq<char>) -> Option<u64> {
    let digits = without_0x(text);
    if digits.len() > 0 && (forall|i: int|
        0 <= i < digits.len() ==> digit_value(#[trigger] digits[i]) is Some) && hex_number(digits)
        <= u64::MAX {
        Some(hex_number(digits) as u64)
    } else {
        None
    }
}

/// The value of a hexadecimal digit.
fn parse_digit(digit: char) -> (r: Option<u64>)
    ensures
        match digit_value(digit) {
            Some(value) => r == Some(value as u64) && value < 16,
            None => r is None,
        },
{
    if '0' <= digit && digit <= '9' {
        Some(digit as u64 - '0' as u64)
    } else if 'a' <= digit && digit <= 'f' {
        Some(digit as u64 - 'a' as u64 + 10)
    } else if 'A' <= digit && digit <= 'F' {
        Some(digit as u64 - 'A' as u64 + 10)
    } else {
        None
    }
}

/// More digits spell no smaller number.
proof fn lemma_hex_number_grows(digits: Seq<char>, count: int)
    requires
        0 <= count <= digits.len(),
    ensures
        hex_number(digits.take(count)) <= hex_number(digits),
    decreases digits.len() - count,
{
    if count == digits.len() {
        assert(digits.take(count) =~= digits);
    } else {
        lemma_hex_number_grows(digits, count + 1);
        assert(digits.take(count + 1).drop_last() =~= digits.take(count));
    }
}

/// The number that a hexadecimal text spells, with or without `0x` in front.
pub fn parse_hex_u64(text: &str) -> (r: Option<u64>)
    ensures
        r == text_number(text@),
{
    let digits = trim_0x(text);
    let len = digits.unicode_len();
    if len == 0 {
        return None;
    }
    let mut value: u64 = 0;
    let mut i: usize = 0;
    proof {
        assert(digits@.take(0) =~= seq![]);
    }
    while i < len
        invariant
            i <= len,
            len == digits@.len(),
            digits@ == without_0x(text@),
            value == hex_number(digits@.take(i as int)),
            forall|k: int| 0 <= k < i ==> digit_value(#[trigger] digits@[k]) is Some,
        decreases len - i,
    {
        let digit = match parse_digit(digits.get_char(i)) {
            Some(digit) => digit,
            None => return None,
        };
        proof {
            assert(digits@.take(i + 1).drop_last() =~= digits@.take(i as int));
            lemma_hex_number_grows(digits@, i + 1);
        }
        if value > 0x0fff_ffff_ffff_ffff {
            return None;
        }
        value = value * 16 + digit;
        i = i + 1;
    }
    assert(digits@.take(i as int) =~= digits@);
    Some(value)
}

/// Whether the first twelve bytes of a word are zero, as they are before an address.
pub open spec fn is_zero_extended(word: Seq<u8>) -> bool {
    forall|i: int| 0 <= i < 12 ==> #[trigger] word[i] == 0
}

/// The text of the address in the last 20 bytes of a word.
pub open spec fn address_text(word: Seq<u8>) -> Seq<char> {
    with_0x(hex_text(word.subrange(12, 32)))
}

pub(crate) fn starts_with_zeros(data: &[u8], len: usize) -> (r: bool)
    requires
        len <= data@.len(),
    ensures
        r == (forall|i: int| 0 <= i < len ==> #[trigger] data@[i] == 0),
{
    let mut i: usize = 0;
    while i < len
        invariant
            i <= len <= data@.len(),
            forall|k: int| 0 <= k < i ==> #[trigger] data@[k] == 0,
        decreases len - i,
    {
        if data[i] != 0 {
            return false;
        }
        i = i + 1;
    }
    true
}

/// The address in the last 20 bytes of a topic.
pub open spec fn topic_address(topic: Seq<char>) -> Option<Seq<char>> {
    match sized_bytes(topic, 32) {
        Some(word) => Some(address_text(word)),
        None => None,
    }
}

/// The text of the address in the last 20 bytes of a 32-byte topic.
pub fn topic_to_address(topic: &str) -> (r: Option<String>)
    ensures
        option_text(r) == topic_address(topic@),
{
    match parse_hex32(topic) {
        Some(word) => Some(hex_0x(vstd::slice::slice_subrange(word.as_slice(), 12, 32))),
        None => None,
    }
}

/// What a log says is what its fields hold, each in its own place.
pub proof fn law_log_fields(log: EthLog, i: int)
    ensures
        log@.address == log.address@,
        log@.block_number == log.block_number@,
        log.block_hash is None <==> log@.block_hash is None,
        log.block_hash matches Some(hash) ==> log@.block_hash == Some(hash@),
        log@.transaction_hash == log.transaction_hash@,
        log@.log_index == log.log_index@,
        log@.removed == log.removed,
        log.topics is None ==> log@.topics.len() == 0,
        log.topics matches Some(topics) ==> log@.topics.len() == topics@.len() && (0 <= i
            < topics@.len() ==> log@.topics[i] == topics@[i]@),
        log@.data == log.data@,
{
}

/// Texts and logs say what they say one by one, in their order.
pub proof fn law_lists(strings: Seq<String>, logs: Seq<EthLog>, i: int)
    ensures
        texts(strings).len() == strings.len(),
        0 <= i < strings.len() ==> texts(strings)[i] == strings[i]@,
        log_views(logs).len() == logs.len(),
        0 <= i < logs.len() ==> log_views(logs)[i] == logs[i]@,
{
}

/// An optional text says what the text says, if there is one.
pub proof fn law_optional_text(string: String, text: &str)
    ensures
        option_text(Some(string)) == Some(string@),
        option_text(None) is None,
        option_str(Some(text)) == Some(text@),
        option_str(None) is None,
{
}

/// A log is of an event if its first topic is the topic of the event, and from a gateway if its
/// address is that of the gateway but for case; where no gateway is named, any log is.
pub proof fn law_log_source(log: LogView, topic0: Seq<char>, gateway: Seq<char>)
    ensures
        is_event(log, topic0) <==> log.topics.len() > 0 && lowercase(log.topics[0]) == topic0,
        is_from(log, None),
        is_from(log, Some(gateway)) <==> same_ignoring_case(gateway, log.address),
        signature_topic(encode_utf8(topic0)) == with_0x(
            hex_text(keccak256_digest(encode_utf8(topic0))),
        ),
{
}

/// Bytes are read back from their text, with or without `0x`, and only where they are as many as
/// were asked for.
pub proof fn law_text_bytes(bytes: Seq<u8>, len: nat, text: Seq<char>)
    ensures
        text_bytes(with_0x(hex_text(bytes))) == Some(bytes),
        text_bytes(hex_text(bytes)) == Some(bytes),
        sized_bytes(with_0x(hex_text(bytes)), len) == if bytes.len() == len {
            Some(bytes)
        } else {
            None
        },
        text_bytes(text) is Some <==> is_hex(without_0x(text)),
        text_bytes(text) matches Some(read) ==> read == hex_bytes(without_0x(text)),
        sized_bytes(text, len) is Some <==> text_bytes(text) is Some && text_bytes(text)->0.len()
            == len,
        sized_bytes(text, len) matches Some(read) ==> Some(read) == text_bytes(text),
{
    law_hex_round_trip(bytes);
}

/// The usual form of a text has `0x` in front: it is added where it is missing, and only there.
pub proof fn law_normalized(text: Seq<char>)
    ensures
        normalized(text).len() >= 2,
        normalized(text)[0] == '0',
        normalized(text)[1] == 'x',
        normalized(text) == text || normalized(text).skip(2) == text,
        normalized(normalized(text)) == normalized(text),
        normalized(text) == text <==> text.len() >= 2 && text[0] == '0' && text[1] == 'x',
{
    if !(text.len() >= 2 && text[0] == '0' && text[1] == 'x') {
        assert(with_0x(text).skip(2) =~= text);
    }
}

/// A number is read in base sixteen, the highest digit first.
pub proof fn law_hex_number(digits: Seq<char>, digit: char)
    requires
        digit_value(digit) is Some,
    ensures
        hex_number(seq![]) == 0,
        hex_number(digits.push(digit)) == 16 * hex_number(digits) + digit_value(digit)->0,
{
    assert(digits.push(digit).drop_last() =~= digits);
}

/// A text is a number if what follows its `0x` is at least one digit, digits only, and fits in 64
/// bits; it is then the number that these digits spell.
pub proof fn law_text_number(text: Seq<char>)
    ensures
        text_number(text) is Some <==> {
            let digits = without_0x(text);
            &&& digits.len() > 0
            &&& forall|i: int|
                0 <= i < digits.len() ==> digit_value(#[trigger] digits[i]) is Some
            &&& hex_number(digits) < 0x1_0000_0000_0000_0000
        },
        text_number(text) matches Some(number) ==> number == hex_number(without_0x(text)),
{
}

/// A word is a zero-extended address if its first twelve bytes are zero, and the address is in its
/// last twenty.
pub proof fn law_address(word: Seq<u8>, address: Seq<u8>, topic: Seq<char>)
    requires
        address.len() == 20,
        word == seq![0u8, 0, 0, 0, 0, 0, 0, 0, 0, 0, 0, 0] + address,
    ensures
        is_zero_extended(word),
        address_text(word) == with_0x(hex_text(address)),
        topic_address(with_0x(hex_text(word))) == Some(with_0x(hex_text(address))),
        topic_address(topic) is Some <==> sized_bytes(topic, 32) is Some,
        topic_address(topic) matches Some(text) ==> text == with_0x(
            hex_text(sized_bytes(topic, 32)->0.subrange(12, 32)),
        ),
{
    assert(word.subrange(12, 32) =~= address);
    law_hex_round_trip(word);
}

/// A word with a byte other than zero among its first twelve is no zero-extended address.
pub proof fn law_not_an_address(word: Seq<u8>, i: int)
    requires
        0 <= i < 12,
        word[i] != 0,
    ensures
        !is_zero_extended(word),
{
}

} // verus!
