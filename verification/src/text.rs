//! Numbers and bytes as text.

use crate::bytes::be_value;
use vstd::prelude::*;

verus! {

/// The lower-case hexadecimal digit of a number below sixteen.
pub open spec fn hex_digit(value: nat) -> char {
    if value < 10 {
        ('0' as nat + value) as char
    } else {
        ('a' as nat + (value - 10)) as char
    }
}

/// The lower-case hexadecimal text of a byte string, two digits per byte.
pub open spec fn hex_text(bytes: Seq<u8>) -> Seq<char> {
    Seq::new(
        2 * bytes.len(),
        |i: int|
            if i % 2 == 0 {
                hex_digit(bytes[i / 2] as nat / 16)
            } else {
                hex_digit(bytes[i / 2] as nat % 16)
            },
    )
}

/// The number that a hexadecimal digit of either case stands for.
pub open spec fn digit_value(digit: char) -> Option<nat> {
    if '0' <= digit <= '9' {
        Some((digit as nat - '0' as nat) as nat)
    } else if 'a' <= digit <= 'f' {
        Some((digit as nat - 'a' as nat + 10) as nat)
    } else if 'A' <= digit <= 'F' {
        Some((digit as nat - 'A' as nat + 10) as nat)
    } else {
        None
    }
}

/// Whether a text spells bytes: an even number of hexadecimal digits, of either case.
pub open spec fn is_hex(text: Seq<char>) -> bool {
    &&& text.len() % 2 == 0
    &&& forall|i: int| 0 <= i < text.len() ==> digit_value(#[trigger] text[i]) is Some
}

/// The bytes that a hexadecimal text spells.
pub open spec fn hex_bytes(text: Seq<char>) -> Seq<u8> {
    Seq::new(
        text.len() / 2,
        |i: int| (16 * digit_value(text[2 * i])->0 + digit_value(text[2 * i + 1])->0) as u8,
    )
}

/// A text without the `0x` at its start, however often it is repeated there.
pub open spec fn without_0x(text: Seq<char>) -> Seq<char>
    decreases text.len(),
{
    if text.len() >= 2 && text[0] == '0' && text[1] == 'x' {
        without_0x(text.skip(2))
    } else {
        text
    }
}

/// A text with `0x` in front of it.
pub open spec fn with_0x(text: Seq<char>) -> Seq<char> {
    seq!['0', 'x'] + text
}

/// The decimal text of a number, without leading zeros.
pub open spec fn decimal(value: nat) -> Seq<char>
    decreases value,
{
    if value < 10 {
        seq![hex_digit(value)]
    } else {
        decimal(value / 10).push(hex_digit(value % 10))
    }
}

/// A character with an ASCII capital made small.
pub open spec fn ascii_lower(c: char) -> char {
    if 'A' <= c <= 'Z' {
        (c as nat + 32) as char
    } else {
        c
    }
}

/// A text with its ASCII capitals made small.
pub open spec fn ascii_lowercase(text: Seq<char>) -> Seq<char> {
    text.map_values(|c: char| ascii_lower(c))
}

/// Whether two texts are the same but for the case of ASCII letters.
pub open spec fn same_ignoring_case(a: Seq<char>, b: Seq<char>) -> bool {
    ascii_lowercase(a) == ascii_lowercase(b)
}

pub open spec fn is_ascii_text(text: Seq<char>) -> bool {
    forall|i: int| 0 <= i < text.len() ==> (#[trigger] text[i] as nat) < 128
}

/// What `str::to_lowercase` makes of a text.
pub uninterp spec fn lowercase(text: Seq<char>) -> Seq<char>;

/// What `str::trim` leaves of a text.
pub uninterp spec fn trimmed(text: Seq<char>) -> Seq<char>;

/// `str::to_lowercase`: the Unicode lower case of a text, which on an ASCII text makes its
/// capitals small and nothing else. What it does to other letters is not said.
pub assume_specification[ str::to_lowercase ](text: &str) -> (r: String)
    ensures
        r@ == lowercase(text@),
        is_ascii_text(text@) ==> r@ == ascii_lowercase(text@),
;

/// `str::trim`: the text without the white space at either end. What counts as white space is not
/// said, except that a text both ends of which are ASCII letters or digits is left as it is, and
/// that an empty text is left empty.
pub assume_specification<'a>[ str::trim ](text: &'a str) -> (r: &'a str)
    ensures
        r@ == trimmed(text@),
        text@.len() == 0 ==> r@.len() == 0,
        text@.len() > 0 && is_alphanumeric(text@[0]) && is_alphanumeric(text@.last()) ==> r@
            == text@,
;

pub open spec fn is_alphanumeric(c: char) -> bool {
    '0' <= c <= '9' || 'a' <= c <= 'z' || 'A' <= c <= 'Z'
}

/// `str::eq_ignore_ascii_case`: whether two texts are the same but for the case of ASCII letters.
pub assume_specification[ str::eq_ignore_ascii_case ](a: &str, b: &str) -> (r: bool)
    ensures
        r == same_ignoring_case(a@, b@),
;

/// `hex::FromHexError`, which the decoder returns.
#[verifier::external_type_specification]
#[verifier::external_body]
pub struct ExFromHexError(hex::FromHexError);

/// `hex::encode`: the lower-case hexadecimal text of a byte string.
#[verifier::external_body]
pub(crate) fn hex_encode(bytes: &[u8]) -> (r: String)
    ensures
        r@ == hex_text(bytes@),
{
    hex::encode(bytes)
}

/// `hex::decode`: the bytes that a text of an even number of hexadecimal digits spells; any other
/// text is refused. A text with other than ASCII characters has no hexadecimal digits for them, so
/// that it is refused whatever its length in bytes.
#[verifier::external_body]
pub(crate) fn hex_decode(text: &str) -> (r: Result<Vec<u8>, hex::FromHexError>)
    ensures
        r is Ok <==> is_hex(text@),
        r is Ok ==> r->Ok_0@ == hex_bytes(text@),
{
    hex::decode(text)
}

/// `ethabi::Uint::from_big_endian` and its `to_string`: the decimal text of the number that at
/// most 32 bytes spell, most significant byte first.
#[verifier::external_body]
pub(crate) fn be_decimal(bytes: &[u8]) -> (r: String)
    requires
        bytes@.len() <= 32,
    ensures
        r@ == decimal(be_value(bytes@)),
{
    ethabi::Uint::from_big_endian(bytes).to_string()
}

/// `u64::to_string`: the decimal text of a number.
#[verifier::external_body]
pub(crate) fn u64_decimal(value: u64) -> (r: String)
    ensures
        r@ == decimal(value as nat),
{
    value.to_string()
}

/// `str::trim_start_matches` with the pattern `0x`: the text without any `0x` at its start.
#[verifier::external_body]
pub(crate) fn trim_0x<'a>(text: &'a str) -> (r: &'a str)
    ensures
        r@ == without_0x(text@),
{
    text.trim_start_matches("0x")
}

/// The hexadecimal text of a byte string, after `0x`.
pub(crate) fn hex_0x(bytes: &[u8]) -> (r: String)
    ensures
        r@ == with_0x(hex_text(bytes@)),
{
    proof {
        reveal_strlit("0x");
    }
    let mut r = "0x".to_owned();
    r.append(hex_encode(bytes).as_str());
    assert("0x"@ =~= seq!['0', 'x']);
    r
}

/// A hexadecimal digit gives back the number that it was made of.
pub proof fn lemma_digit_round_trip(value: nat)
    requires
        value < 16,
    ensures
        digit_value(hex_digit(value)) == Some(value),
        hex_digit(value) != 'x',
{
}

/// The hexadecimal text of a byte string has no capitals.
pub proof fn lemma_hex_text_is_lower(bytes: Seq<u8>)
    ensures
        ascii_lowercase(with_0x(hex_text(bytes))) == with_0x(hex_text(bytes)),
{
    let text = with_0x(hex_text(bytes));
    assert forall|i: int| 0 <= i < text.len() implies ascii_lower(#[trigger] text[i])
        == text[i] by {
        if i >= 2 {
            let digit = hex_text(bytes)[i - 2];
            assert(text[i] == digit);
            assert(bytes[(i - 2) / 2] as nat / 16 < 16);
            assert(bytes[(i - 2) / 2] as nat % 16 < 16);
        }
    }
    assert(ascii_lowercase(text) =~= text);
}

/// Decoding the hexadecimal text of a byte string, with `0x` in front of it or not, gives the
/// bytes back.
pub proof fn law_hex_round_trip(bytes: Seq<u8>)
    ensures
        without_0x(with_0x(hex_text(bytes))) == hex_text(bytes),
        without_0x(hex_text(bytes)) == hex_text(bytes),
        is_hex(hex_text(bytes)),
        hex_bytes(hex_text(bytes)) == bytes,
{
    let text = hex_text(bytes);
    assert forall|i: int| 0 <= i < text.len() implies digit_value(#[trigger] text[i]) is Some
        && text[i] != 'x' by {
        lemma_digit_round_trip(bytes[i / 2] as nat / 16);
        lemma_digit_round_trip(bytes[i / 2] as nat % 16);
    }
    assert forall|i: int| 0 <= i < bytes.len() implies hex_bytes(text)[i] == bytes[i] by {
        lemma_digit_round_trip(bytes[i] as nat / 16);
        lemma_digit_round_trip(bytes[i] as nat % 16);
        assert(text[2 * i] == hex_digit(bytes[i] as nat / 16));
        assert(text[2 * i + 1] == hex_digit(bytes[i] as nat % 16));
    }
    assert(hex_bytes(text) =~= bytes);
    assert(with_0x(text).skip(2) =~= text);
    reveal_with_fuel(without_0x, 2);
}

/// The hexadecimal digits are the ten decimal ones and six letters, small or capital; nothing else
/// is one.
pub proof fn law_hex_digits(c: char)
    ensures
        forall|n: nat| n < 10 && c as nat == 0x30 + n ==> #[trigger] digit_value(c) == Some(n),
        forall|n: nat|
            10 <= n < 16 && c as nat == 0x61 + n - 10 ==> #[trigger] digit_value(c) == Some(n),
        forall|n: nat|
            10 <= n < 16 && c as nat == 0x41 + n - 10 ==> #[trigger] digit_value(c) == Some(n),
        digit_value(c) is Some ==> 0x30 <= c as nat <= 0x39 || 0x41 <= c as nat <= 0x46 || 0x61
            <= c as nat <= 0x66,
{
}

/// The text of a byte string has two small digits per byte, the high half of the byte first.
pub proof fn law_hex_text(bytes: Seq<u8>, i: int)
    requires
        0 <= i < bytes.len(),
    ensures
        hex_text(bytes).len() == 2 * bytes.len(),
        digit_value(hex_text(bytes)[2 * i]) == Some((bytes[i] / 16) as nat),
        digit_value(hex_text(bytes)[2 * i + 1]) == Some((bytes[i] % 16) as nat),
        !('A' <= hex_text(bytes)[2 * i] <= 'F'),
        !('A' <= hex_text(bytes)[2 * i + 1] <= 'F'),
{
    lemma_digit_round_trip(bytes[i] as nat / 16);
    lemma_digit_round_trip(bytes[i] as nat % 16);
    assert((2 * i) / 2 == i && (2 * i) % 2 == 0);
    assert((2 * i + 1) / 2 == i && (2 * i + 1) % 2 == 1);
}

/// A text spells bytes if it is made of pairs of digits, and each pair spells one byte, its high
/// half first.
pub proof fn law_hex_bytes(text: Seq<char>, i: int)
    requires
        is_hex(text),
        0 <= 2 * i < text.len(),
    ensures
        text.len() == 2 * hex_bytes(text).len(),
        digit_value(text[2 * i]) == Some((hex_bytes(text)[i] / 16) as nat),
        digit_value(text[2 * i + 1]) == Some((hex_bytes(text)[i] % 16) as nat),
{
    assert(digit_value(text[2 * i]) is Some);
    assert(digit_value(text[2 * i + 1]) is Some);
}

/// A text is hexadecimal exactly if its length is even and each of its characters is a digit.
pub proof fn law_is_hex(text: Seq<char>)
    ensures
        is_hex(text) <==> text.len() % 2 == 0 && forall|i: int|
            0 <= i < text.len() ==> (#[trigger] digit_value(text[i])) is Some,
{
}

/// Putting `0x` in front of a text adds these two characters and nothing else; taking it off takes
/// off all of them, and nothing but them.
pub proof fn law_prefix(text: Seq<char>)
    ensures
        with_0x(text).len() == text.len() + 2,
        with_0x(text)[0] == '0',
        with_0x(text)[1] == 'x',
        with_0x(text).skip(2) == text,
        without_0x(with_0x(text)) == without_0x(text),
        !(without_0x(text).len() >= 2 && without_0x(text)[0] == '0' && without_0x(text)[1] == 'x'),
        !(text.len() >= 2 && text[0] == '0' && text[1] == 'x') ==> without_0x(text) == text,
    decreases text.len(),
{
    assert(with_0x(text).skip(2) =~= text);
    if text.len() >= 2 && text[0] == '0' && text[1] == 'x' {
        law_prefix(text.skip(2));
    }
}

/// A number is written in decimal by its digits, the highest first and none in front of it without
/// need: a number below ten by its digit alone, and ten times another number plus a digit by the
/// text of that number and the digit.
pub proof fn law_decimal(value: nat, digit: nat)
    requires
        digit < 10,
    ensures
        decimal(digit).len() == 1,
        decimal(digit)[0] as nat == 0x30 + digit,
        value > 0 ==> decimal(10 * value + digit) == decimal(value) + decimal(digit),
{
    if value > 0 {
        assert((10 * value + digit) / 10 == value && (10 * value + digit) % 10 == digit);
        assert(decimal(10 * value + digit) =~= decimal(value) + decimal(digit));
    }
}

/// Two texts are the same but for case exactly if they are as long, and in each place have the same
/// character or a letter and its capital.
pub proof fn law_same_ignoring_case(a: Seq<char>, b: Seq<char>)
    ensures
        same_ignoring_case(a, b) <==> a.len() == b.len() && forall|i: int|
            0 <= i < a.len() ==> {
                ||| #[trigger] a[i] == #[trigger] b[i]
                ||| 'A' <= a[i] <= 'Z' && b[i] as nat == a[i] as nat + 32
                ||| 'A' <= b[i] <= 'Z' && a[i] as nat == b[i] as nat + 32
            },
{
    let x = ascii_lowercase(a);
    let y = ascii_lowercase(b);
    if same_ignoring_case(a, b) {
        assert(x.len() == a.len() && y.len() == b.len());
        assert forall|i: int| 0 <= i < a.len() implies {
            ||| #[trigger] a[i] == #[trigger] b[i]
            ||| 'A' <= a[i] <= 'Z' && b[i] as nat == a[i] as nat + 32
            ||| 'A' <= b[i] <= 'Z' && a[i] as nat == b[i] as nat + 32
        } by {
            assert(x[i] == y[i]);
        }
    } else if a.len() == b.len() {
        assert(!(x =~= y));
    }
}

} // verus!
