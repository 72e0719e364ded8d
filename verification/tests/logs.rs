use pool_indexer::batch::fr_decimal;
use pool_indexer::field::FieldElement;
use pool_indexer::logs::{
    event_topic0, hex32_0x, is_address, normalize_hex_0x, parse_hex32, parse_hex_u64,
    topic_to_address,
};

#[test]
fn topic_of_a_known_event() {
    assert_eq!(
        event_topic0(b"Transfer(address,address,uint256)"),
        "0xddf252ad1be2c89b69c2b068fc378daa952ba7f163c4a11628f55a4df523b3ef"
    );
}

#[test]
fn words_are_read_with_or_without_prefix() {
    let text = "0f".repeat(32);
    assert_eq!(parse_hex32(&text), Some([15; 32]));
    assert_eq!(parse_hex32(&format!("0x{}", text.to_uppercase())), Some([15; 32]));
    assert_eq!(hex32_0x(&[15; 32]), format!("0x{text}"));
    assert_eq!(parse_hex32(&text[2..]), None);
    assert_eq!(parse_hex32(&"0g".repeat(32)), None);
    assert_eq!(parse_hex32(&"é".repeat(32)), None);
}

#[test]
fn addresses_are_twenty_bytes() {
    assert!(is_address(&"ab".repeat(20)));
    assert!(is_address(&format!("0x{}", "AB".repeat(20))));
    assert!(!is_address(&"ab".repeat(19)));
    assert!(!is_address(&"ab".repeat(21)));
    assert!(!is_address(&"xy".repeat(20)));
    assert_eq!(
        topic_to_address(&hex32_0x(&[7; 32])),
        Some(format!("0x{}", "07".repeat(20)))
    );
    assert_eq!(topic_to_address("0x07"), None);
}

#[test]
fn prefix_is_added_once() {
    assert_eq!(normalize_hex_0x("ab"), "0xab");
    assert_eq!(normalize_hex_0x("0xab"), "0xab");
    assert_eq!(normalize_hex_0x(""), "0x");
}

#[test]
fn numbers_are_hexadecimal_words() {
    assert_eq!(parse_hex_u64("0x64"), Some(100));
    assert_eq!(parse_hex_u64("fF"), Some(255));
    assert_eq!(parse_hex_u64("0xffffffffffffffff"), Some(u64::MAX));
    assert_eq!(parse_hex_u64("0x00000000000000000001"), Some(1));
    assert_eq!(parse_hex_u64("0x10000000000000000"), None);
    assert_eq!(parse_hex_u64("0x"), None);
    assert_eq!(parse_hex_u64("0xg"), None);
}

#[test]
fn field_elements_are_written_in_decimal() {
    assert_eq!(fr_decimal(FieldElement::from_u64(0)), "0");
    assert_eq!(fr_decimal(FieldElement::from_u64(1234567890)), "1234567890");
    assert_eq!(fr_decimal(FieldElement::from_u128(u128::MAX)), u128::MAX.to_string());
}
