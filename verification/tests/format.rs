use fandango_targets::format::{expect_line, parse_block_number};
use fandango_targets::text::{decode_block_id, hex_nibble, parse_unsigned_max, push_debug_chars, NumberError};

fn chars(s: &str) -> Vec<char> {
    s.chars().collect()
}

#[test]
fn block_numbers_are_one_to_four() {
    assert_eq!(parse_block_number(&chars("1")), Ok(0));
    assert_eq!(parse_block_number(&chars("+4")), Ok(3));
    assert_eq!(
        parse_block_number(&chars("0")),
        Err("block number is out of range: 0".to_string())
    );
    assert_eq!(
        parse_block_number(&chars("")),
        Err("invalid block number \"\": cannot parse integer from empty string".to_string())
    );
    assert_eq!(
        parse_block_number(&chars("99999999999999999999999")),
        Err("invalid block number \"99999999999999999999999\": number too large to fit in target type".to_string())
    );
}

#[test]
fn overflow_is_reported_before_a_later_bad_digit() {
    assert_eq!(
        parse_unsigned_max(&chars("99999999999999999999x"), u64::MAX),
        Err(NumberError::PosOverflow)
    );
    assert_eq!(parse_unsigned_max(&chars("9x"), u64::MAX), Err(NumberError::InvalidDigit));
    assert_eq!(parse_unsigned_max(&chars("+"), u64::MAX), Err(NumberError::InvalidDigit));
    assert_eq!(parse_unsigned_max(&chars("+12"), u64::MAX), Ok(12));
    assert_eq!(parse_unsigned_max(&chars("256"), 255), Err(NumberError::PosOverflow));
}

#[test]
fn block_ids_decode_from_hex() {
    let text = "00ff10".repeat(10) + "abcd";
    let id = decode_block_id(&chars(&text)).unwrap();
    assert_eq!(id[0], 0x00);
    assert_eq!(id[1], 0xff);
    assert_eq!(id[2], 0x10);
    assert_eq!(id[31], 0xcd);
    assert_eq!(
        decode_block_id(&chars("abc")),
        Err("invalid block ID length: 3".to_string())
    );
    let upper = "A".repeat(64);
    assert_eq!(
        decode_block_id(&chars(&upper)),
        Err("invalid hexadecimal digit: 65".to_string())
    );
    assert_eq!(hex_nibble('e'), Some(14));
    assert_eq!(hex_nibble('E'), None);
}

#[test]
fn lines_are_expected_in_order() {
    let lines = vec![chars("committee:"), chars("slot")];
    assert_eq!(expect_line(&lines, 0, "committee:"), Ok(()));
    assert_eq!(
        expect_line(&lines, 1, "blocks:"),
        Err("expected \"blocks:\", got \"slot\"".to_string())
    );
    assert_eq!(
        expect_line(&lines, 2, "end-slot"),
        Err("expected \"end-slot\", reached end of input".to_string())
    );
}

#[test]
fn strings_are_quoted_like_debug() {
    let mut out = String::new();
    push_debug_chars(&mut out, &chars("a\"b\\c\nd\t\u{1b}\u{7f}é"));
    assert_eq!(out, format!("{:?}", "a\"b\\c\nd\t\u{1b}\u{7f}é"));
}
