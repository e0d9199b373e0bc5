use fandango_targets::text::{
    decode_block_id, decimal_chars, line_is_blank, parse_unsigned_max, push_debug_chars, split_char, split_fields,
    split_lines, split_once_char, utf8_length, NumberError,
};
use rand::rngs::StdRng;
use rand::{Rng, SeedableRng};

const ALPHABET: [char; 14] = [
    'a', '1', '9', '0', '+', '-', ' ', '\t', '\n', '\r', ',', '=', '\u{85}', '\u{3000}',
];

fn random_text(rng: &mut StdRng) -> String {
    let len = rng.random_range(0..12);
    (0..len)
        .map(|_| ALPHABET[rng.random_range(0..ALPHABET.len())])
        .collect()
}

fn chars(s: &str) -> Vec<char> {
    s.chars().collect()
}

fn strings(v: Vec<Vec<char>>) -> Vec<String> {
    v.into_iter().map(|c| c.into_iter().collect()).collect()
}

#[test]
fn text_splitting_agrees_with_str() {
    let mut rng = StdRng::seed_from_u64(5);
    for _ in 0..2000 {
        let text = random_text(&mut rng);
        let c = chars(&text);
        assert_eq!(strings(split_lines(&c)), text.lines().map(String::from).collect::<Vec<_>>());
        assert_eq!(
            strings(split_fields(&c)),
            text.split_ascii_whitespace().map(String::from).collect::<Vec<_>>()
        );
        assert_eq!(strings(split_char(&c, ',')), text.split(',').map(String::from).collect::<Vec<_>>());
        assert_eq!(
            split_once_char(&c, '=').map(|(a, b)| (a.into_iter().collect::<String>(), b.into_iter().collect::<String>())),
            text.split_once('=').map(|(a, b)| (a.to_string(), b.to_string()))
        );
        assert_eq!(line_is_blank(&c), text.trim().is_empty());
        assert_eq!(utf8_length(&c), text.len());
    }
}

#[test]
fn number_parsing_agrees_with_str() {
    let mut rng = StdRng::seed_from_u64(6);
    for _ in 0..2000 {
        let text = random_text(&mut rng);
        let ours = parse_unsigned_max(&chars(&text), u64::MAX);
        match text.parse::<u64>() {
            Ok(v) => assert_eq!(ours, Ok(v)),
            Err(e) => {
                let kind = match e.kind() {
                    std::num::IntErrorKind::Empty => NumberError::Empty,
                    std::num::IntErrorKind::InvalidDigit => NumberError::InvalidDigit,
                    _ => NumberError::PosOverflow,
                };
                assert_eq!(ours, Err(kind));
                assert_eq!(kind.message(), e.to_string());
            }
        }
    }
    for text in ["18446744073709551615", "18446744073709551616", "99999999999999999999x", "+0"] {
        let ours = parse_unsigned_max(&chars(text), u64::MAX);
        match text.parse::<u64>() {
            Ok(v) => assert_eq!(ours, Ok(v)),
            Err(e) => assert_eq!(ours.unwrap_err().message(), e.to_string()),
        }
    }
}

#[test]
fn decimals_and_quotes_agree_with_format() {
    for n in [0u64, 7, 10, 99, 1000, u64::MAX] {
        assert_eq!(decimal_chars(n).into_iter().collect::<String>(), n.to_string());
    }
    let mut rng = StdRng::seed_from_u64(7);
    for _ in 0..500 {
        let text = random_text(&mut rng);
        let mut out = String::new();
        push_debug_chars(&mut out, &chars(&text));
        assert_eq!(out, format!("{text:?}"));
    }
}

#[test]
fn debug_text_escapes_unprintable_unicode() {
    for text in ["a\u{85}b", "zero\u{200b}width", "\u{3000}é\u{301}", "tab\there"] {
        let mut out = String::new();
        push_debug_chars(&mut out, &chars(text));
        assert_eq!(out, format!("{text:?}"));
    }
    let mut out = String::new();
    push_debug_chars(&mut out, &chars("x\u{200b}"));
    assert_eq!(out, "\"x\\u{200b}\"");
}

#[test]
fn block_id_decodes_its_hex_notation() {
    let mut bytes = [0u8; 32];
    for (i, b) in bytes.iter_mut().enumerate() {
        *b = (i as u8).wrapping_mul(37).wrapping_add(11);
    }
    let hex: String = bytes.iter().map(|b| format!("{b:02x}")).collect();
    assert_eq!(decode_block_id(&chars(&hex)), Ok(bytes));
    assert!(decode_block_id(&chars(&hex.to_uppercase())).is_err());
    assert_eq!(
        decode_block_id(&chars("abc")),
        Err("invalid block ID length: 3".to_string())
    );
}
