//! The transaction that spent a note, and the notes that it created.

use crate::api::{api_error, is_error, refuses, unavailable, ApiError, NoReply, Status};
use crate::frontier::same_word;
use crate::logs::{
    hex32_0x, keccak256, keccak256_digest, log_views, normalize_hex_0x, normalized, option_text,
    parse_hex_u64, starts_with_zeros, text_number, texts, DecodeError, EthLog, LogView,
    ReceiptWithLogs,
};
use crate::text::{hex_encode, hex_text, lowercase, same_ignoring_case, with_0x};
use crate::vnote::{
    settle_slot, settle_slot_for_pool, SettlementBlinds, SettlementBlindsView, BLINDS,
};
use vstd::prelude::*;
use vstd::utf8::encode_utf8;

verus! {

/// One archived note: the nullifier of the note that it replaced, and the transaction it is of.
#[derive(Clone, Debug, PartialEq, Eq)]
pub struct SpendRecord {
    pub nf_old: [u8; 32],
    pub tx_hash: String,
}

/// The usual form of a transaction hash.
pub open spec fn usual_hash(hash: Seq<char>) -> Seq<char> {
    lowercase(normalized(hash))
}

/// Whether a transaction is among those that archived notes, and rows already selected by the
/// nullifier, name as the spend of a nullifier.
pub open spec fn is_spend(
    hash: Seq<char>,
    nullifier: Seq<u8>,
    notes: Seq<SpendRecord>,
    rows: Seq<String>,
) -> bool {
    ||| exists|i: int|
        0 <= i < notes.len() && (#[trigger] notes[i]).nf_old@ == nullifier && usual_hash(
            notes[i].tx_hash@,
        ) == hash
    ||| exists|i: int| 0 <= i < rows.len() && usual_hash((#[trigger] rows[i])@) == hash
}

/// The transaction found so far, or this one, unless they differ.
fn merged(found: Option<String>, hash: &str) -> (r: Result<Option<String>, DecodeError>)
    ensures
        match option_text(found) {
            Some(earlier) if earlier != usual_hash(hash@) => r == Err::<Option<String>, _>(
                DecodeError::AmbiguousSpend,
            ),
            _ => r matches Ok(now) && option_text(now) == Some(usual_hash(hash@)),
        },
{
    let hash = normalize_hex_0x(hash).as_str().to_lowercase();
    match found {
        Some(earlier) => if earlier == hash {
            Ok(Some(earlier))
        } else {
            Err(DecodeError::AmbiguousSpend)
        },
        None => Ok(Some(hash)),
    }
}

/// The one transaction that the archive names as the spend of a nullifier, if it names any. Two
/// are ambiguous and refused.
pub fn spend_transaction(
    nullifier: &[u8; 32],
    notes: &Vec<SpendRecord>,
    rows: &Vec<String>,
) -> (r: Result<Option<String>, DecodeError>)
    ensures
        match r {
            Ok(None) => forall|hash: Seq<char>|
                !#[trigger] is_spend(hash, nullifier@, notes@, rows@),
            Ok(Some(found)) => forall|hash: Seq<char>| #[trigger]
                is_spend(hash, nullifier@, notes@, rows@) <==> hash == found@,
            Err(error) => error == DecodeError::AmbiguousSpend && exists|
                a: Seq<char>,
                b: Seq<char>,
            |
                a != b && #[trigger] is_spend(a, nullifier@, notes@, rows@) && #[trigger] is_spend(
                    b,
                    nullifier@,
                    notes@,
                    rows@,
                ),
        },
{
    let mut found: Option<String> = None;
    let mut i: usize = 0;
    while i < notes.len()
        invariant
            i <= notes@.len(),
            forall|k: int|
                0 <= k < i && (#[trigger] notes@[k]).nf_old@ == nullifier@ ==> option_text(found)
                    == Some(usual_hash(notes@[k].tx_hash@)),
            found matches Some(hash) ==> is_spend(hash@, nullifier@, notes@, rows@),
        decreases notes.len() - i,
    {
        if same_word(&notes[i].nf_old, nullifier) {
            let ghost earlier = option_text(found);
            let ghost hash = usual_hash(notes@[i as int].tx_hash@);
            assert(is_spend(hash, nullifier@, notes@, rows@));
            found = match merged(found, notes[i].tx_hash.as_str()) {
                Ok(now) => now,
                Err(error) => {
                    assert(is_spend(earlier->0, nullifier@, notes@, rows@));
                    return Err(error);
                },
            };
        }
        i = i + 1;
    }
    let mut j: usize = 0;
    while j < rows.len()
        invariant
            j <= rows@.len(),
            forall|k: int|
                0 <= k < notes@.len() && (#[trigger] notes@[k]).nf_old@ == nullifier@
                    ==> option_text(found) == Some(usual_hash(notes@[k].tx_hash@)),
            forall|k: int|
                0 <= k < j ==> option_text(found) == Some(usual_hash((#[trigger] rows@[k])@)),
            found matches Some(hash) ==> is_spend(hash@, nullifier@, notes@, rows@),
        decreases rows.len() - j,
    {
        let ghost earlier = option_text(found);
        let ghost hash = usual_hash(rows@[j as int]@);
        assert(is_spend(hash, nullifier@, notes@, rows@));
        found = match merged(found, rows[j].as_str()) {
            Ok(now) => now,
            Err(error) => {
                assert(is_spend(earlier->0, nullifier@, notes@, rows@));
                return Err(error);
            },
        };
        j = j + 1;
    }
    Ok(found)
}

/// The call that asks a pool whether a nullifier is spent.
pub fn is_spent_calldata(nullifier: &[u8; 32]) -> (r: Vec<u8>)
    ensures
        r@ == keccak256_digest(encode_utf8("isSpent(bytes32)"@)).take(4) + nullifier@,
{
    let selector = keccak256("isSpent(bytes32)".as_bytes());
    let mut r: Vec<u8> = Vec::new();
    r.push(selector[0]);
    r.push(selector[1]);
    r.push(selector[2]);
    r.push(selector[3]);
    assert(r@ =~= selector@.take(4));
    let mut i: usize = 0;
    while i < 32
        invariant
            i <= 32,
            r@ == selector@.take(4) + nullifier@.take(i as int),
        decreases 32 - i,
    {
        r.push(nullifier[i]);
        assert(nullifier@.take(i + 1) =~= nullifier@.take(i as int).push(nullifier@[i as int]));
        i = i + 1;
    }
    assert(nullifier@.take(32) =~= nullifier@);
    r
}

/// What is answered where the archive names no spend, given what the pool replied to that call: a
/// nullifier that the pool says is spent is not reported as unspent.
pub fn unspent_answer(reply: Result<Vec<u8>, NoReply>) -> (r: ApiError)
    ensures
        match reply {
            Err(_) => is_error(r, Status::ServiceUnavailable, "nullifier state unavailable"@),
            Ok(spent) => if spent@.len() != 32 {
                is_error(r, Status::ServiceUnavailable, "invalid nullifier state response"@)
            } else if exists|i: int| 0 <= i < 32 && #[trigger] spent@[i] != 0 {
                is_error(
                    r,
                    Status::ServiceUnavailable,
                    "spent nullifier has no durable spend record yet"@,
                )
            } else {
                is_error(r, Status::NotFound, "nullifier is unspent"@)
            },
        },
{
    let spent = match reply {
        Err(_) => return unavailable("nullifier state unavailable"),
        Ok(spent) => spent,
    };
    if spent.len() != 32 {
        return unavailable("invalid nullifier state response");
    }
    if !starts_with_zeros(spent.as_slice(), 32) {
        return unavailable("spent nullifier has no durable spend record yet");
    }
    api_error(Status::NotFound, "nullifier is unspent")
}

/// Whether a log is of a note of `pool`, given the topics of the events that tell of notes.
pub open spec fn is_note_log(log: LogView, pool: Seq<char>, topics: Seq<Seq<char>>) -> bool {
    &&& same_ignoring_case(log.address, pool)
    &&& log.topics.len() > 0
    &&& exists|k: int|
        0 <= k < topics.len() && same_ignoring_case(#[trigger] topics[k], log.topics[0])
}

/// Whether a log is of a note of `pool`.
fn tells_of_note(log: &EthLog, pool: &str, note_topics: &Vec<String>) -> (r: bool)
    ensures
        r == is_note_log(log@, pool@, texts(note_topics@)),
{
    let ghost topics = texts(note_topics@);
    if !log.address.as_str().eq_ignore_ascii_case(pool) {
        return false;
    }
    if log.topic_count() == 0 {
        return false;
    }
    let mut k: usize = 0;
    while k < note_topics.len()
        invariant
            k <= note_topics@.len(),
            topics == texts(note_topics@),
            log@.topics.len() > 0,
            same_ignoring_case(log@.address, pool@),
            forall|n: int|
                0 <= n < k ==> !same_ignoring_case(#[trigger] topics[n], log@.topics[0]),
        decreases note_topics.len() - k,
    {
        assert(topics[k as int] == note_topics@[k as int]@);
        if note_topics[k].as_str().eq_ignore_ascii_case(log.topic(0)) {
            return true;
        }
        k = k + 1;
    }
    false
}

/// Where among the first `count` logs those of notes of `pool` are.
pub open spec fn note_places(
    logs: Seq<LogView>,
    pool: Seq<char>,
    topics: Seq<Seq<char>>,
    count: nat,
) -> Seq<usize>
    decreases count,
{
    if count == 0 {
        seq![]
    } else {
        let before = note_places(logs, pool, topics, (count - 1) as nat);
        if is_note_log(logs[count - 1], pool, topics) {
            before.push((count - 1) as usize)
        } else {
            before
        }
    }
}

/// Where in a receipt the logs of notes of the pool at `contract` are, given the topics of the
/// events that tell of notes.
pub fn note_logs(receipt: &ReceiptWithLogs, contract: &str, note_topics: &Vec<String>) -> (r: Vec<
    usize,
>)
    ensures
        r@ == note_places(
            log_views(receipt.logs@),
            lowercase(contract@),
            texts(note_topics@),
            receipt.logs@.len(),
        ),
        forall|k: int| 0 <= k < r@.len() ==> #[trigger] r@[k] < receipt.logs@.len(),
{
    let ghost logs = log_views(receipt.logs@);
    let pool = contract.to_lowercase();
    let mut places: Vec<usize> = Vec::new();
    let mut i: usize = 0;
    while i < receipt.logs.len()
        invariant
            i <= receipt.logs@.len(),
            logs == log_views(receipt.logs@),
            places@ == note_places(logs, pool@, texts(note_topics@), i as nat),
            forall|k: int| 0 <= k < places@.len() ==> #[trigger] places@[k] < i,
        decreases receipt.logs.len() - i,
    {
        assert(logs[i as int] == receipt.logs@[i as int]@);
        if tells_of_note(&receipt.logs[i], pool.as_str(), note_topics) {
            places.push(i);
        }
        i = i + 1;
    }
    places
}

/// A note that a transaction created.
#[derive(Clone, Debug, PartialEq, Eq)]
pub struct ReceiptNote {
    pub cmx: [u8; 32],
    pub nf_old: [u8; 32],
    pub enc_ciphertext: Vec<u8>,
}

/// What is wrong with the log of a note, given the note that it was decoded to, if it could be.
pub open spec fn note_fault(log: LogView, note: Option<ReceiptNote>) -> Option<Seq<char>> {
    if note is None {
        Some("receipt note data is malformed"@)
    } else if text_number(log.log_index) is None {
        Some("receipt note position invalid"@)
    } else {
        None
    }
}

/// Whether nothing is wrong with the first `count` logs of notes.
pub open spec fn notes_readable(notes: Seq<(&EthLog, Option<ReceiptNote>)>, count: int) -> bool {
    forall|i: int|
        0 <= i < count ==> note_fault((#[trigger] notes[i]).0@, notes[i].1) is None
}

/// The notes of logs with their places in the block, given for each log the note that it was
/// decoded to, if it could be. The first log with which something is wrong decides the refusal.
pub fn placed_notes(notes: Vec<(&EthLog, Option<ReceiptNote>)>) -> (r: Result<
    Vec<(u64, ReceiptNote)>,
    ApiError,
>)
    ensures
        if notes_readable(notes@, notes@.len() as int) {
            r matches Ok(placed) && placed@ == Seq::new(
                notes@.len(),
                |i: int| (text_number(notes@[i].0@.log_index)->0, notes@[i].1->0),
            )
        } else {
            exists|i: int|
                0 <= i < notes@.len() && notes_readable(notes@, i) && (note_fault(
                    (#[trigger] notes@[i]).0@,
                    notes@[i].1,
                ) matches Some(message) && refuses(r, Status::ServiceUnavailable, message))
        },
{
    let ghost all = notes@;
    let mut rest = notes;
    let mut placed: Vec<(u64, ReceiptNote)> = Vec::new();
    assert(all.skip(0) =~= all);
    while rest.len() > 0
        invariant
            all == notes@,
            placed@.len() <= all.len(),
            rest@ == all.skip(placed@.len() as int),
            notes_readable(all, placed@.len() as int),
            forall|i: int|
                0 <= i < placed@.len() ==> #[trigger] placed@[i] == (
                    text_number(all[i].0@.log_index)->0,
                    all[i].1->0,
                ),
        decreases rest.len(),
    {
        let ghost done = placed@.len() as int;
        let (log, decoded) = rest.remove(0);
        assert((log, decoded) == all[done]);
        assert(rest@ =~= all.skip(done + 1));
        let note = match decoded {
            None => {
                assert(note_fault(all[done].0@, all[done].1) is Some);
                return Err(unavailable("receipt note data is malformed"));
            },
            Some(note) => note,
        };
        match parse_hex_u64(log.log_index.as_str()) {
            None => {
                assert(note_fault(all[done].0@, all[done].1) is Some);
                return Err(unavailable("receipt note position invalid"));
            },
            Some(place) => placed.push((place, note)),
        }
    }
    assert(placed@ =~= Seq::new(
        all.len(),
        |i: int| (text_number(all[i].0@.log_index)->0, all[i].1->0),
    ));
    Ok(placed)
}

/// Placed notes with one more behind those whose place is not greater.
pub open spec fn with_note(sorted: Seq<(u64, ReceiptNote)>, note: (u64, ReceiptNote)) -> Seq<
    (u64, ReceiptNote),
>
    decreases sorted.len(),
{
    if sorted.len() > 0 && sorted.last().0 > note.0 {
        with_note(sorted.drop_last(), note).push(sorted.last())
    } else {
        sorted.push(note)
    }
}

/// Placed notes in the order of their places, those in the same place as they came.
pub open spec fn in_log_order(notes: Seq<(u64, ReceiptNote)>) -> Seq<(u64, ReceiptNote)>
    decreases notes.len(),
{
    if notes.len() == 0 {
        notes
    } else {
        with_note(in_log_order(notes.drop_last()), notes.last())
    }
}

/// Where a note goes, it goes by insertion.
proof fn lemma_with_note_inserts(
    sorted: Seq<(u64, ReceiptNote)>,
    note: (u64, ReceiptNote),
    place: int,
)
    requires
        0 <= place <= sorted.len(),
        forall|k: int| place <= k < sorted.len() ==> (#[trigger] sorted[k]).0 > note.0,
        place > 0 ==> sorted[place - 1].0 <= note.0,
    ensures
        with_note(sorted, note) == sorted.insert(place, note),
    decreases sorted.len(),
{
    if place < sorted.len() {
        lemma_with_note_inserts(sorted.drop_last(), note, place);
        assert(sorted.insert(place, note) =~= sorted.drop_last().insert(place, note).push(
            sorted.last(),
        ));
    } else {
        assert(sorted.insert(place, note) =~= sorted.push(note));
    }
}

/// Sorts placed notes by place, keeping those in the same place as they came.
fn sort_notes(mut notes: Vec<(u64, ReceiptNote)>) -> (r: Vec<(u64, ReceiptNote)>)
    ensures
        r@ == in_log_order(notes@),
{
    let ghost all = notes@;
    let mut sorted: Vec<(u64, ReceiptNote)> = Vec::new();
    let ghost mut done: int = 0;
    assert(all.take(0) =~= seq![]);
    assert(all.skip(0) =~= all);
    while notes.len() > 0
        invariant
            0 <= done <= all.len(),
            notes@ == all.skip(done),
            sorted@ == in_log_order(all.take(done)),
        decreases notes.len(),
    {
        let note = notes.remove(0);
        let mut place: usize = sorted.len();
        while place > 0 && sorted[place - 1].0 > note.0
            invariant
                place <= sorted@.len(),
                forall|k: int| place <= k < sorted@.len() ==> (#[trigger] sorted@[k]).0 > note.0,
            decreases place,
        {
            place = place - 1;
        }
        proof {
            lemma_with_note_inserts(sorted@, note, place as int);
            assert(all.take(done + 1).drop_last() =~= all.take(done));
            assert(notes@ =~= all.skip(done + 1));
            done = done + 1;
        }
        sorted.insert(place, note);
    }
    assert(all.take(done) =~= all);
    sorted
}

/// One output of a spend: a note, and the settlement slot that it is in.
#[derive(Clone, Debug, PartialEq, Eq)]
pub struct NoteOutput {
    pub pool: String,
    pub cmx_hex: String,
    pub nf_old_hex: String,
    pub enc_ciphertext_hex: String,
    pub action_index: usize,
    pub settle_slot: Option<usize>,
    pub blind: Option<String>,
}

#[verifier::ext_equal]
pub struct NoteOutputView {
    pub pool: Seq<char>,
    pub cmx_hex: Seq<char>,
    pub nf_old_hex: Seq<char>,
    pub enc_ciphertext_hex: Seq<char>,
    pub action_index: usize,
    pub settle_slot: Option<usize>,
    pub blind: Option<Seq<char>>,
}

impl View for NoteOutput {
    type V = NoteOutputView;

    open spec fn view(&self) -> NoteOutputView {
        NoteOutputView {
            pool: self.pool@,
            cmx_hex: self.cmx_hex@,
            nf_old_hex: self.nf_old_hex@,
            enc_ciphertext_hex: self.enc_ciphertext_hex@,
            action_index: self.action_index,
            settle_slot: self.settle_slot,
            blind: option_text(self.blind),
        }
    }
}

/// The output that the `index`-th note of a pool is, in the slot that a settlement gives it.
pub open spec fn output_of(
    pool: Seq<char>,
    index: usize,
    note: ReceiptNote,
    record: Option<SettlementBlindsView>,
) -> NoteOutputView {
    let slot = match record {
        Some(record) => settle_slot(pool, index, record),
        None => None,
    };
    NoteOutputView {
        pool,
        cmx_hex: with_0x(hex_text(note.cmx@)),
        nf_old_hex: with_0x(hex_text(note.nf_old@)),
        enc_ciphertext_hex: hex_text(note.enc_ciphertext@),
        action_index: index,
        settle_slot: slot,
        blind: match (record, slot) {
            (Some(record), Some(slot)) => Some(record.blinds[slot as int]),
            _ => None,
        },
    }
}

/// The number of notes that a pool creates in a settlement: a trade pool or a fee pool two, and
/// one that is both four.
pub open spec fn settlement_notes(pool: Seq<char>, record: SettlementBlindsView) -> nat {
    if pool == record.fee_pool && (pool == record.pool_x || pool == record.pool_y) {
        4
    } else {
        2
    }
}

/// Whether a settlement gives each of the first `count` notes of a pool a slot.
pub open spec fn all_have_slots(
    pool: Seq<char>,
    count: nat,
    record: SettlementBlindsView,
) -> bool {
    forall|i: usize| i < count ==> #[trigger] settle_slot(pool, i, record) is Some
}

pub open spec fn record_view(record: Option<SettlementBlinds>) -> Option<SettlementBlindsView> {
    match record {
        Some(record) => Some(record@),
        None => None,
    }
}

pub open spec fn output_views(outputs: Seq<NoteOutput>) -> Seq<NoteOutputView> {
    outputs.map_values(|output: NoteOutput| output@)
}

/// Writes out one note of a pool.
fn note_output(
    pool: &String,
    index: usize,
    note: &ReceiptNote,
    record: &Option<SettlementBlinds>,
) -> (r: Option<NoteOutput>)
    requires
        record matches Some(record) ==> record.blinds@.len() >= BLINDS,
    ensures
        match record_view(*record) {
            Some(record) if settle_slot(pool@, index, record) is None => r is None,
            _ => r matches Some(output) && output@ == output_of(
                pool@,
                index,
                *note,
                record_view(*record),
            ),
        },
{
    let (slot, blind): (Option<usize>, Option<String>) = match record {
        Some(record) => match settle_slot_for_pool(pool.as_str(), index, record) {
            Some(slot) => (Some(slot), Some(record.blinds[slot].clone())),
            None => return None,
        },
        None => (None, None),
    };
    Some(
        NoteOutput {
            pool: pool.clone(),
            cmx_hex: hex32_0x(&note.cmx),
            nf_old_hex: hex32_0x(&note.nf_old),
            enc_ciphertext_hex: hex_encode(note.enc_ciphertext.as_slice()),
            action_index: index,
            settle_slot: slot,
            blind,
        },
    )
}

/// Writes out the notes of a pool, if the settlement gives each a slot.
fn note_outputs(
    pool: &String,
    notes: &Vec<(u64, ReceiptNote)>,
    record: &Option<SettlementBlinds>,
) -> (r: Option<Vec<NoteOutput>>)
    requires
        record matches Some(record) ==> record.blinds@.len() >= BLINDS,
    ensures
        match record_view(*record) {
            Some(record) if !all_have_slots(pool@, notes@.len(), record) => r is None,
            _ => r matches Some(outputs) && output_views(outputs@) == Seq::new(
                notes@.len(),
                |i: int| output_of(pool@, i as usize, notes@[i].1, record_view(*record)),
            ),
        },
{
    let mut outputs: Vec<NoteOutput> = Vec::new();
    let mut i: usize = 0;
    while i < notes.len()
        invariant
            i <= notes@.len(),
            outputs@.len() == i,
            record matches Some(record) ==> record.blinds@.len() >= BLINDS,
            record_view(*record) matches Some(record) ==> all_have_slots(pool@, i as nat, record),
            forall|k: int|
                0 <= k < i ==> (#[trigger] outputs@[k])@ == output_of(
                    pool@,
                    k as usize,
                    notes@[k].1,
                    record_view(*record),
                ),
        decreases notes.len() - i,
    {
        match note_output(pool, i, &notes[i].1, record) {
            Some(output) => outputs.push(output),
            None => return None,
        }
        i = i + 1;
    }
    assert(output_views(outputs@) =~= Seq::new(
        notes@.len(),
        |i: int| output_of(pool@, i as usize, notes@[i].1, record_view(*record)),
    ));
    Some(outputs)
}

/// Whether an output is in one of the six slots and has the blind of that slot.
pub open spec fn has_blind_of_its_slot(output: NoteOutput, blinds: Seq<String>) -> bool {
    &&& output.settle_slot is Some
    &&& output.settle_slot->0 < 6
    &&& output.blind is Some
    &&& output.blind->0@ == blinds[output.settle_slot->0 as int]@
}

/// The outputs of the spend of a nullifier in the pool at `contract`, in the order of the log,
/// given the notes of that pool in the receipt of the spend and the settlement that the receipt
/// tells of. A receipt that does not hold the spend, or not every note of the settlement, is
/// refused, and no part of it is reported.
pub fn spend_outputs(
    contract: &str,
    nullifier: &[u8; 32],
    notes: Vec<(u64, ReceiptNote)>,
    record: &Option<SettlementBlinds>,
) -> (r: Result<Vec<NoteOutput>, ApiError>)
    requires
        record matches Some(record) ==> record.blinds@.len() >= BLINDS,
    ensures
        if !exists|i: int|
            0 <= i < notes@.len() && (#[trigger] notes@[i]).1.nf_old@ == nullifier@ {
            refuses(
                r,
                Status::ServiceUnavailable,
                "durable spend identity disagrees with canonical receipt"@,
            )
        } else if record_view(*record) matches Some(record) && notes@.len() != settlement_notes(
            lowercase(contract@),
            record,
        ) {
            refuses(
                r,
                Status::ServiceUnavailable,
                "settlement receipt has an incomplete output set"@,
            )
        } else if record_view(*record) matches Some(record) && !all_have_slots(
            lowercase(contract@),
            notes@.len(),
            record,
        ) {
            refuses(r, Status::ServiceUnavailable, "settlement pool slot mapping failed"@)
        } else {
            r matches Ok(outputs) && output_views(outputs@) == Seq::new(
                notes@.len(),
                |i: int|
                    output_of(
                        lowercase(contract@),
                        i as usize,
                        in_log_order(notes@)[i].1,
                        record_view(*record),
                    ),
            )
        },
        r matches Ok(outputs) ==> outputs@.len() == notes@.len(),
        r matches Ok(outputs) ==> (*record matches Some(settled) ==> forall|i: int|
            0 <= i < outputs@.len() ==> has_blind_of_its_slot(
                #[trigger] outputs@[i],
                settled.blinds@,
            )),
{
    let ghost given = notes@;
    let pool = contract.to_lowercase();
    let mut present = false;
    let mut i: usize = 0;
    while i < notes.len()
        invariant
            i <= notes@.len(),
            present == exists|k: int|
                0 <= k < i && (#[trigger] notes@[k]).1.nf_old@ == nullifier@,
        decreases notes.len() - i,
    {
        if same_word(&notes[i].1.nf_old, nullifier) {
            present = true;
            assert(notes@[i as int].1.nf_old@ == nullifier@);
        }
        i = i + 1;
    }
    if !present {
        return Err(unavailable("durable spend identity disagrees with canonical receipt"));
    }
    if let Some(record) = record {
        let expected: usize = if pool == record.fee_pool && (pool == record.pool_x || pool
            == record.pool_y) {
            4
        } else {
            2
        };
        if notes.len() != expected {
            return Err(unavailable("settlement receipt has an incomplete output set"));
        }
    }
    let notes = sort_notes(notes);
    proof {
        law_log_order(given);
    }
    match note_outputs(&pool, &notes, record) {
        Some(outputs) => {
            proof {
                assert(output_views(outputs@).len() == outputs@.len());
                if let Some(settled) = record {
                    assert forall|i: int| 0 <= i < outputs@.len() implies has_blind_of_its_slot(
                        #[trigger] outputs@[i],
                        settled.blinds@,
                    ) by {
                        assert(output_views(outputs@)[i] == outputs@[i]@);
                        assert(settle_slot(pool@, i as usize, settled@) is Some);
                    }
                }
            }
            Ok(outputs)
        },
        None => Err(unavailable("settlement pool slot mapping failed")),
    }
}

/// Whether placed notes are in the order of their places.
pub open spec fn is_in_order(notes: Seq<(u64, ReceiptNote)>) -> bool {
    forall|i: int, j: int|
        0 <= i <= j < notes.len() ==> (#[trigger] notes[i]).0 <= (#[trigger] notes[j]).0
}

/// The placed notes in one place.
pub open spec fn in_place(notes: Seq<(u64, ReceiptNote)>, place: u64) -> Seq<(u64, ReceiptNote)> {
    notes.filter(|note: (u64, ReceiptNote)| note.0 == place)
}

/// A note at the end is in one place.
proof fn lemma_in_place_push(notes: Seq<(u64, ReceiptNote)>, note: (u64, ReceiptNote), place: u64)
    ensures
        in_place(notes.push(note), place) == if place == note.0 {
            in_place(notes, place).push(note)
        } else {
            in_place(notes, place)
        },
{
    reveal(Seq::filter);
    assert(notes.push(note).drop_last() =~= notes);
}

/// One more note among ordered ones keeps the order.
proof fn lemma_with_note(sorted: Seq<(u64, ReceiptNote)>, note: (u64, ReceiptNote))
    requires
        is_in_order(sorted),
    ensures
        is_in_order(with_note(sorted, note)),
        with_note(sorted, note).to_multiset() == sorted.to_multiset().insert(note),
        with_note(sorted, note).len() == sorted.len() + 1,
        forall|k: int|
            0 <= k <= sorted.len() ==> (#[trigger] with_note(sorted, note)[k]).0 <= note.0 || (
            sorted.len() > 0 && with_note(sorted, note)[k].0 <= sorted.last().0),
        forall|place: u64|
            #[trigger] in_place(with_note(sorted, note), place) == if place == note.0 {
                in_place(sorted, place).push(note)
            } else {
                in_place(sorted, place)
            },
    decreases sorted.len(),
{
    broadcast use vstd::seq_lib::group_to_multiset_ensures;

    let all = with_note(sorted, note);
    let moved = sorted.len() > 0 && sorted.last().0 > note.0;
    let rest = sorted.drop_last();
    let last = sorted.last();
    if moved {
        lemma_with_note(rest, note);
        assert(sorted =~= rest.push(last));
    }
    assert forall|place: u64| #[trigger]
        in_place(all, place) == if place == note.0 {
            in_place(sorted, place).push(note)
        } else {
            in_place(sorted, place)
        } by {
        if moved {
            lemma_in_place_push(with_note(rest, note), last, place);
            lemma_in_place_push(rest, last, place);
            assert(in_place(with_note(rest, note), place) == if place == note.0 {
                in_place(rest, place).push(note)
            } else {
                in_place(rest, place)
            });
        } else {
            lemma_in_place_push(sorted, note, place);
        }
    }
}

/// Sorting loses and adds no note, puts them in the order of their places, and leaves those in the
/// same place in the order in which they came.
pub proof fn law_log_order(notes: Seq<(u64, ReceiptNote)>)
    ensures
        is_in_order(in_log_order(notes)),
        in_log_order(notes).to_multiset() == notes.to_multiset(),
        in_log_order(notes).len() == notes.len(),
        forall|place: u64| #[trigger]
            in_place(in_log_order(notes), place) == in_place(notes, place),
        forall|i: int, j: int|
            0 <= i <= j < notes.len() ==> (#[trigger] in_log_order(notes)[i]).0 <= (
            #[trigger] in_log_order(notes)[j]).0,
    decreases notes.len(),
{
    broadcast use vstd::seq_lib::group_to_multiset_ensures;

    if notes.len() > 0 {
        let rest = notes.drop_last();
        law_log_order(rest);
        lemma_with_note(in_log_order(rest), notes.last());
        assert(notes =~= rest.push(notes.last()));
        assert forall|place: u64| #[trigger]
            in_place(in_log_order(notes), place) == in_place(notes, place) by {
            lemma_in_place_push(rest, notes.last(), place);
            assert(in_place(in_log_order(rest), place) == in_place(rest, place));
        }
    }
}

/// Every note that a pool of a settlement is to create in it has a slot.
pub proof fn law_settlement_notes_have_slots(pool: Seq<char>, record: SettlementBlindsView)
    requires
        same_ignoring_case(pool, record.pool_x) || same_ignoring_case(pool, record.pool_y)
            || same_ignoring_case(pool, record.fee_pool),
    ensures
        all_have_slots(pool, settlement_notes(pool, record), record),
{
}

/// The archive names a transaction as a spend exactly if one of its notes with the nullifier, or
/// one of the selected rows, has its hash, with `0x` in front and in lower case.
pub proof fn law_spend(
    hash: Seq<char>,
    nullifier: Seq<u8>,
    notes: Seq<SpendRecord>,
    rows: Seq<String>,
)
    ensures
        is_spend(hash, nullifier, notes, rows) <==> {
            ||| exists|i: int|
                0 <= i < notes.len() && (#[trigger] notes[i]).nf_old@ == nullifier && lowercase(
                    normalized(notes[i].tx_hash@),
                ) == hash
            ||| exists|i: int|
                0 <= i < rows.len() && lowercase(normalized((#[trigger] rows[i])@)) == hash
        },
{
}

/// A log is of a note of a pool exactly if it is from the pool and its first topic is one of those
/// that tell of notes, whatever the case of their letters.
pub proof fn law_note_log(log: LogView, pool: Seq<char>, topics: Seq<Seq<char>>)
    ensures
        is_note_log(log, pool, topics) <==> same_ignoring_case(log.address, pool)
            && log.topics.len() > 0 && exists|k: int|
            0 <= k < topics.len() && same_ignoring_case(#[trigger] topics[k], log.topics[0]),
{
}

/// The places of the notes of a pool are those of all logs that are of one, in their order.
pub proof fn law_note_places(
    logs: Seq<LogView>,
    pool: Seq<char>,
    topics: Seq<Seq<char>>,
    count: nat,
)
    requires
        count <= usize::MAX,
    ensures
        ({
            let places = note_places(logs, pool, topics, count);
            &&& forall|k: int|
                0 <= k < places.len() ==> #[trigger] places[k] < count && is_note_log(
                    logs[places[k] as int],
                    pool,
                    topics,
                )
            &&& forall|i: int|
                0 <= i < count && #[trigger] is_note_log(logs[i], pool, topics) ==> exists|k: int|
                    0 <= k < places.len() && #[trigger] places[k] == i
            &&& forall|a: int, b: int|
                0 <= a < b < places.len() ==> #[trigger] places[a] < #[trigger] places[b]
        }),
    decreases count,
{
    if count > 0 {
        let last = (count - 1) as nat;
        law_note_places(logs, pool, topics, last);
        let before = note_places(logs, pool, topics, last);
        let now = note_places(logs, pool, topics, count);
        assert forall|i: int|
            0 <= i < count && #[trigger] is_note_log(logs[i], pool, topics) implies exists|k: int|
            0 <= k < now.len() && #[trigger] now[k] == i by {
            if i < last {
                let k = choose|k: int| 0 <= k < before.len() && #[trigger] before[k] == i;
                assert(now[k] == before[k]);
            } else {
                assert(now[before.len() as int] == i);
            }
        }
    }
}

/// A note that could not be decoded, and otherwise one whose place cannot be read, is at fault;
/// nothing else is.
pub proof fn law_note_fault(log: LogView, note: Option<ReceiptNote>)
    ensures
        note is None ==> note_fault(log, note) == Some("receipt note data is malformed"@),
        note is Some && text_number(log.log_index) is None ==> note_fault(log, note) == Some(
            "receipt note position invalid"@,
        ),
        note is Some && text_number(log.log_index) is Some ==> note_fault(log, note) is None,
{
}

/// What an output says is what its fields hold, each in its own place.
pub proof fn law_output_fields(outputs: Seq<NoteOutput>, i: int)
    requires
        0 <= i < outputs.len(),
    ensures
        output_views(outputs).len() == outputs.len(),
        output_views(outputs)[i] == outputs[i]@,
        outputs[i]@.pool == outputs[i].pool@,
        outputs[i]@.cmx_hex == outputs[i].cmx_hex@,
        outputs[i]@.nf_old_hex == outputs[i].nf_old_hex@,
        outputs[i]@.enc_ciphertext_hex == outputs[i].enc_ciphertext_hex@,
        outputs[i]@.action_index == outputs[i].action_index,
        outputs[i]@.settle_slot == outputs[i].settle_slot,
        outputs[i]@.blind is None <==> outputs[i].blind is None,
        outputs[i].blind matches Some(blind) ==> outputs[i]@.blind == Some(blind@),
{
}

/// An output tells of its note, and has the slot that the settlement gives to its place in the
/// pool, with the blind of that very slot; without a settlement it has neither.
pub proof fn law_output(
    pool: Seq<char>,
    index: usize,
    note: ReceiptNote,
    record: Option<SettlementBlindsView>,
)
    ensures
        ({
            let output = output_of(pool, index, note, record);
            &&& output.pool == pool
            &&& output.cmx_hex == with_0x(hex_text(note.cmx@))
            &&& output.nf_old_hex == with_0x(hex_text(note.nf_old@))
            &&& output.enc_ciphertext_hex == hex_text(note.enc_ciphertext@)
            &&& output.action_index == index
            &&& record is None ==> output.settle_slot is None && output.blind is None
            &&& record is Some ==> output.settle_slot == settle_slot(pool, index, record->0)
            &&& output.settle_slot matches Some(slot) ==> output.blind == Some(
                record->0.blinds[slot as int],
            )
            &&& output.settle_slot is None ==> output.blind is None
        }),
{
}

/// No two notes of a settlement between two pools get the blind of one slot.
pub proof fn law_blinds_are_not_shared(
    a: Seq<char>,
    i: usize,
    first: ReceiptNote,
    b: Seq<char>,
    j: usize,
    second: ReceiptNote,
    record: SettlementBlindsView,
)
    requires
        !same_ignoring_case(record.pool_x, record.pool_y),
        !same_ignoring_case(a, b) || i != j,
        output_of(a, i, first, Some(record)).settle_slot is Some,
        output_of(b, j, second, Some(record)).settle_slot is Some,
    ensures
        ({
            let p = output_of(a, i, first, Some(record)).settle_slot->0;
            let q = output_of(b, j, second, Some(record)).settle_slot->0;
            &&& p != q
            &&& p < BLINDS && q < BLINDS
            &&& output_of(a, i, first, Some(record)).blind == Some(record.blinds[p as int])
            &&& output_of(b, j, second, Some(record)).blind == Some(record.blinds[q as int])
        }),
{
    crate::vnote::law_settlement_slots(record);
}

/// A pool creates four notes in a settlement if it trades and takes the fee, and two otherwise.
pub proof fn law_settlement_note_count(pool: Seq<char>, record: SettlementBlindsView)
    ensures
        pool == record.fee_pool && (pool == record.pool_x || pool == record.pool_y)
            ==> settlement_notes(pool, record) == 4,
        pool != record.fee_pool || (pool != record.pool_x && pool != record.pool_y)
            ==> settlement_notes(pool, record) == 2,
        forall|count: nat| #[trigger]
            all_have_slots(pool, count, record) <==> forall|i: usize|
                i < count ==> (#[trigger] settle_slot(pool, i, record)) is Some,
        record_view(None) is None,
        forall|held: SettlementBlinds| #[trigger] record_view(Some(held)) == Some(held@),
{
}

/// The notes in one place are all notes with that place, in the order in which they come.
pub proof fn law_in_place(notes: Seq<(u64, ReceiptNote)>, note: (u64, ReceiptNote), place: u64)
    ensures
        in_place(seq![], place).len() == 0,
        note.0 == place ==> in_place(notes.push(note), place) == in_place(notes, place).push(note),
        note.0 != place ==> in_place(notes.push(note), place) == in_place(notes, place),
{
    reveal(Seq::filter);
    lemma_in_place_push(notes, note, place);
}

} // verus!
