use squishyid::text::{chars_of, reversed_string};
use squishyid::{DecodeError, InvalidKey, SquishyID};

const DECIMAL: &str = "0123456789";
const HEX: &str = "0123456789ABCDEF";
const MIXED: &str = "2BjLhRduC6Tb8Q5cEk9oxnFaWUDpOlGAgwYzNre7tI4yqPvXm0KSV1fJs3ZiHM";

fn codec(key: &str) -> SquishyID {
    match SquishyID::new(key) {
        Ok(made) => made,
        Err(error) => panic!("key refused: {}", error.message()),
    }
}

#[test]
fn encode_writes_positional_notation() {
    let decimal = codec(DECIMAL);
    assert_eq!(decimal.encode(0), "0");
    assert_eq!(decimal.encode(9), "9");
    assert_eq!(decimal.encode(10), "10");
    assert_eq!(decimal.encode(1234567890), "1234567890");
    assert_eq!(decimal.encode(u64::MAX), "18446744073709551615");

    let hex = codec(HEX);
    assert_eq!(hex.encode(255), "FF");
    assert_eq!(hex.encode(256), "100");
    assert_eq!(hex.encode(u64::MAX), "FFFFFFFFFFFFFFFF");

    let binary = codec("ab");
    assert_eq!(binary.encode(1), "b");
    assert_eq!(binary.encode(2), "ba");
    assert_eq!(binary.encode(5), "bab");
    assert_eq!(binary.encode(u64::MAX), "b".repeat(64));
}

#[test]
fn encode_shortens_with_a_long_key() {
    let mixed = codec(MIXED);
    assert_eq!(mixed.encode(48888851145), "1FN7Ab");
    assert_eq!(mixed.decode("1FN7Ab"), Ok(48888851145));
}

#[test]
fn decode_reads_positional_notation() {
    let decimal = codec(DECIMAL);
    assert_eq!(decimal.decode("0"), Ok(0));
    assert_eq!(decimal.decode("7"), Ok(7));
    assert_eq!(decimal.decode("1234567890"), Ok(1234567890));
    assert_eq!(decimal.decode("18446744073709551615"), Ok(u64::MAX));

    let hex = codec(HEX);
    assert_eq!(hex.decode("FF"), Ok(255));
    assert_eq!(hex.decode("100"), Ok(256));
    assert_eq!(hex.decode("FFFFFFFFFFFFFFFF"), Ok(u64::MAX));

    let binary = codec("ab");
    assert_eq!(binary.decode("baa"), Ok(4));
    assert_eq!(binary.decode("bab"), Ok(5));
    assert_eq!(binary.decode(&"b".repeat(64)), Ok(u64::MAX));
}

#[test]
fn decode_undoes_encode() {
    let values: [u64; 12] = [
        0,
        1,
        2,
        9,
        10,
        61,
        62,
        63,
        4_294_967_296,
        48888851145,
        u64::MAX - 1,
        u64::MAX,
    ];
    for key in ["ab", "abc", DECIMAL, HEX, MIXED, "äą", "😀😁😂"] {
        let made = codec(key);
        for value in values {
            let text = made.encode(value);
            assert!(!text.is_empty());
            assert!(text.chars().all(|symbol| key.contains(symbol)));
            assert_eq!(made.decode(&text), Ok(value));
        }
    }
}

#[test]
fn encode_is_injective_on_a_range() {
    let made = codec("abc");
    let mut seen: Vec<String> = Vec::new();
    for value in 0..500u64 {
        let text = made.encode(value);
        assert!(!seen.contains(&text));
        seen.push(text);
    }
}

#[test]
fn encode_of_decoded_is_canonical() {
    let binary = codec("ab");
    assert_eq!(binary.encode(binary.decode("aab").unwrap()), "b");
    assert_eq!(binary.encode(binary.decode("aaa").unwrap()), "a");
    assert_eq!(binary.encode(binary.decode("abab").unwrap()), "bab");
    assert_eq!(binary.encode(binary.decode("bab").unwrap()), "bab");
    assert_eq!(binary.encode(binary.decode("a").unwrap()), "a");

    let decimal = codec(DECIMAL);
    assert_eq!(decimal.decode("00000000000000000001"), Ok(1));
    assert_eq!(decimal.encode(decimal.decode("0042").unwrap()), "42");
    assert_eq!(decimal.encode(decimal.decode("42").unwrap()), "42");
    assert_eq!(decimal.encode(decimal.decode("00").unwrap()), "0");
}

#[test]
fn decode_reports_overflow_of_the_sum() {
    let decimal = codec(DECIMAL);
    assert_eq!(decimal.decode("18446744073709551616"), Err(DecodeError::Overflow));
    assert_eq!(decimal.decode("99999999999999999999"), Err(DecodeError::Overflow));
}

#[test]
fn decode_reports_overflow_of_the_product() {
    let decimal = codec(DECIMAL);
    assert_eq!(decimal.decode("20000000000000000000"), Err(DecodeError::Overflow));
}

#[test]
fn decode_reports_overflow_of_the_weight_alone() {
    // A zero digit in a place whose weight does not fit is an overflow,
    // although the value that the text denotes is small.
    let hex = codec(HEX);
    assert_eq!(hex.decode("0FFFFFFFFFFFFFFFF"), Err(DecodeError::Overflow));
    let decimal = codec(DECIMAL);
    assert_eq!(decimal.decode("000000000000000000001"), Err(DecodeError::Overflow));
    let binary = codec("ab");
    assert_eq!(binary.decode(&"a".repeat(64)), Ok(0));
    assert_eq!(binary.decode(&"a".repeat(65)), Err(DecodeError::Overflow));
    assert_eq!(binary.decode(&"b".repeat(65)), Err(DecodeError::Overflow));
    let long = codec("FujSBZHkPMincNQr6pq0mgxw2tXAsyb8DWV534EC1RUIlYoGOJhed9afKT7vzL");
    assert_eq!(long.decode("FgzUp3uHipVr"), Err(DecodeError::Overflow));
}

#[test]
fn decode_reports_an_unknown_character_wherever_it_stands() {
    let binary = codec("ab");
    assert_eq!(binary.decode("xab"), Err(DecodeError::UnknownCharacter));
    assert_eq!(binary.decode("bxa"), Err(DecodeError::UnknownCharacter));
    assert_eq!(binary.decode("abx"), Err(DecodeError::UnknownCharacter));
    assert_eq!(binary.decode("xyz"), Err(DecodeError::UnknownCharacter));
}

#[test]
fn decode_reports_an_unknown_character_before_any_overflow() {
    // The rest of each text would overflow by itself.
    let binary = codec("ab");
    let mut text = String::from("x");
    text.push_str(&"b".repeat(64));
    assert_eq!(binary.decode(&text), Err(DecodeError::UnknownCharacter));
    let mut text = String::from("x");
    text.push_str(&"b".repeat(65));
    assert_eq!(binary.decode(&text), Err(DecodeError::UnknownCharacter));
    let mut text = "b".repeat(100);
    text.push('x');
    text.push_str(&"a".repeat(100));
    assert_eq!(binary.decode(&text), Err(DecodeError::UnknownCharacter));

    let hex = codec(HEX);
    assert_eq!(hex.decode("x00000000000000000"), Err(DecodeError::UnknownCharacter));
    assert_eq!(hex.decode("xFFFFFFFFFFFFFFFFF"), Err(DecodeError::UnknownCharacter));
    assert_eq!(hex.decode("gFFFFFFFFFFFFFFFFFFFFFFFFFFFFFFFF"), Err(DecodeError::UnknownCharacter));
    assert_eq!(hex.decode("00000000000000000"), Err(DecodeError::Overflow));
}

#[test]
fn decode_is_case_sensitive() {
    let hex = codec(HEX);
    assert_eq!(hex.decode("ff"), Err(DecodeError::UnknownCharacter));
    assert_eq!(hex.decode("FF"), Ok(255));
}

#[test]
fn key_with_a_late_duplicate_is_refused() {
    assert_eq!(SquishyID::new("abcdefa").err(), Some(InvalidKey::DuplicateCharacter));
    assert_eq!(SquishyID::new("abcdeff").err(), Some(InvalidKey::DuplicateCharacter));
    assert_eq!(SquishyID::new("😀😁😀").err(), Some(InvalidKey::DuplicateCharacter));
}

#[test]
fn key_of_one_wide_character_is_too_short() {
    assert_eq!(SquishyID::new("😀").err(), Some(InvalidKey::TooShort));
    assert!(SquishyID::new("😀😁").is_ok());
}

#[test]
fn key_characters_are_single_scalars() {
    // "e" followed by a combining acute accent is two symbols.
    let made = codec("e\u{301}");
    assert_eq!(made.encode(2), "\u{301}e");
    assert_eq!(made.decode("\u{301}e"), Ok(2));
}

#[test]
fn error_messages() {
    assert_eq!(InvalidKey::TooShort.message(), "Key must contain at least 2 characters.");
    assert_eq!(InvalidKey::DuplicateCharacter.message(), "Key must contain unique characters.");
    assert_eq!(
        DecodeError::EmptyInput.message(),
        "Encoded value must contain at least 1 character."
    );
    assert_eq!(
        DecodeError::UnknownCharacter.message(),
        "Encoded value contains character not present in key."
    );
    assert_eq!(DecodeError::Overflow.message(), "Encoded value too big to decode.");
}

#[test]
fn chars_of_keeps_order() {
    assert_eq!(chars_of(""), Vec::<char>::new());
    assert_eq!(chars_of("abc"), vec!['a', 'b', 'c']);
    assert_eq!(chars_of("ąä😀"), vec!['ą', 'ä', '😀']);
}

#[test]
fn reversed_string_reverses() {
    assert_eq!(reversed_string(&Vec::new()), "");
    assert_eq!(reversed_string(&vec!['a', 'b', 'c']), "cba");
    assert_eq!(reversed_string(&vec!['ą', '😀']), "😀ą");
}
