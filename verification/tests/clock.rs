use transit_csa::models::{CSTime, TimeError};

#[test]
fn a_clock_value_is_read() {
    assert_eq!(CSTime::parse_from_str("12:00:00"), Ok(CSTime::new(12, 0, 0)));
    assert_eq!(CSTime::parse_from_str("07:05:30"), Ok(CSTime::new(7, 5, 30)));
    assert_eq!(CSTime::parse_from_str("7:5:3"), Ok(CSTime::new(7, 5, 3)));
    assert_eq!(CSTime::parse_from_str("25:10:00"), Ok(CSTime::new(25, 10, 0)));
    assert_eq!(CSTime::parse_from_str("000:075:99"), Ok(CSTime::new(0, 75, 99)));
}

#[test]
fn other_texts_are_refused() {
    for text in [
        "", ":", "::", "12:00", "12:00:", ":12:00", "12::00", "12:00:00:00", "12:00:00:",
        "a:00:00", "12:0x:00", "12:00:0 ", " 12:00:00", "+12:00:00", "-1:00:00", "12.00.00",
        "１２:00:00", "12:00:é",
    ] {
        assert_eq!(CSTime::parse_from_str(text), Err(TimeError::InvalidTimeFormat), "{:?}", text);
    }
}

#[test]
fn numbers_beyond_the_machine_word_are_refused() {
    let most = usize::MAX.to_string();
    assert_eq!(
        CSTime::parse_from_str(&format!("{}:0:{}", most, most)),
        Ok(CSTime::new(usize::MAX, 0, usize::MAX))
    );
    assert_eq!(
        CSTime::parse_from_str(&format!("{}0:0:0", most)),
        Err(TimeError::InvalidTimeFormat)
    );
    assert_eq!(
        CSTime::parse_from_str("0:340282366920938463463374607431768211456:0"),
        Err(TimeError::InvalidTimeFormat)
    );
}

#[test]
fn readings_are_ordered_by_hours_minutes_seconds() {
    let a = CSTime::new(9, 59, 59);
    let b = CSTime::new(10, 0, 0);
    let c = CSTime::new(10, 0, 1);
    let d = CSTime::new(10, 1, 0);
    let next_day = CSTime::new(24, 0, 0);
    for (x, y) in [(a, b), (b, c), (c, d), (a, d), (d, next_day)] {
        assert!(x.is_before(&y));
        assert!(!y.is_before(&x));
        assert!(x.is_not_after(&y));
        assert!(!y.is_not_after(&x));
        assert!(x < y);
    }
    assert!(!b.is_before(&b));
    assert!(b.is_not_after(&b));
}

#[test]
fn readings_are_shown_with_two_digits() {
    assert_eq!(CSTime::new(7, 5, 3).to_string(), "07:05:03");
    assert_eq!(CSTime::new(12, 0, 0).to_string(), "12:00:00");
    assert_eq!(CSTime::new(23, 59, 59).to_string(), "23:59:59");
    assert_eq!(CSTime::new(0, 10, 9).to_string(), "00:10:09");
}

#[test]
fn hours_are_shown_as_the_hour_of_the_day() {
    assert_eq!(CSTime::new(24, 0, 0).to_string(), "00:00:00");
    assert_eq!(CSTime::new(25, 10, 0).to_string(), "01:10:00");
    assert_eq!(CSTime::new(49, 100, 1234).to_string(), "01:100:1234");
    // The reading itself keeps its hours.
    assert!(CSTime::new(23, 0, 0) < CSTime::new(25, 10, 0));
}

#[test]
fn what_is_shown_can_be_read_again() {
    let t = CSTime::new(17, 4, 59);
    assert_eq!(CSTime::parse_from_str(&t.to_string()), Ok(t));
}
