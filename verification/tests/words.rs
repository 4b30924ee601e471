use transit_csa::text::{ascii_bytes, parse_number, same_text};

#[test]
fn decimal_numbers_are_read() {
    assert_eq!(parse_number("0", 10), Some(0));
    assert_eq!(parse_number("007", 10), Some(7));
    assert_eq!(parse_number("10", 10), Some(10));
    assert_eq!(parse_number("11", 10), None);
    assert_eq!(parse_number("18446744073709551615", u64::MAX), Some(u64::MAX));
    assert_eq!(parse_number("18446744073709551616", u64::MAX), None);
    assert_eq!(parse_number("99999999999999999999999", u64::MAX), None);
    for text in ["", "+1", "-1", " 1", "1 ", "1a", "１", "0x10", "1_000"] {
        assert_eq!(parse_number(text, u64::MAX), None, "{:?}", text);
    }
}

#[test]
fn texts_are_compared() {
    assert!(same_text("", ""));
    assert!(same_text("spoor 5a", "spoor 5a"));
    assert!(same_text("Zürich", "Zürich"));
    assert!(!same_text("a", "b"));
    assert!(!same_text("a", "ab"));
    assert!(!same_text("ab", "a"));
    assert!(!same_text("Zürich", "Zurich"));
}

#[test]
fn only_ascii_texts_give_their_bytes() {
    assert_eq!(ascii_bytes("12:00"), Some("12:00".as_bytes()));
    assert_eq!(ascii_bytes(""), Some("".as_bytes()));
    assert_eq!(ascii_bytes("é"), None);
}
