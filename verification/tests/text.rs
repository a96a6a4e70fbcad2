use beamup::text::{
    concat3, join_text, numeral_text, padded_text, parse_usize, read_usize, split_text,
    starts_with_chars, strip_leading_char, strip_trailing_char, to_chars, trim_text, NumeralError,
};

#[test]
fn numerals() {
    assert_eq!(numeral_text(0, 10), "0");
    assert_eq!(numeral_text(65_536, 16), "10000");
    assert_eq!(numeral_text(0xdead_beef, 16), "deadbeef");
    assert_eq!(numeral_text(u128::MAX, 10), format!("{}", u128::MAX));
    assert_eq!(numeral_text(u128::MAX, 16), format!("{:x}", u128::MAX));
}

#[test]
fn padded_numerals() {
    assert_eq!(padded_text(0, 4), "0000");
    assert_eq!(padded_text(42, 4), "0042");
    assert_eq!(padded_text(12345, 4), "12345");
}

#[test]
fn reading_numerals() {
    assert_eq!(parse_usize("0"), Some(0));
    assert_eq!(parse_usize("+17"), Some(17));
    assert_eq!(parse_usize(""), None);
    assert_eq!(parse_usize("+"), None);
    assert_eq!(parse_usize("-1"), None);
    assert_eq!(parse_usize(" 1"), None);
    assert_eq!(parse_usize("18446744073709551615"), Some(usize::MAX));
    assert_eq!(parse_usize("18446744073709551616"), None);
    assert_eq!(parse_usize("00000000000000000000001"), Some(1));
}

#[test]
fn written_numerals_are_read_back() {
    for n in [0usize, 9, 10, 99, 1000, 123_456_789, usize::MAX] {
        assert_eq!(parse_usize(&numeral_text(n as u128, 10)), Some(n));
        assert_eq!(parse_usize(&padded_text(n, 4)), Some(n));
    }
}

#[test]
fn splitting_and_joining() {
    assert_eq!(split_text("a,b,,c", ','), vec!["a", "b", "", "c"]);
    assert_eq!(split_text("", ','), vec![""]);
    let pieces = vec!["x".to_string(), "y".to_string()];
    assert_eq!(join_text(&pieces, ", "), "x, y");
    assert_eq!(join_text(&Vec::new(), ", "), "");
}

#[test]
fn trimming() {
    assert_eq!(trim_text(" \t\u{3000}a b\r\n"), "a b");
    assert_eq!(trim_text(" \n "), "");
    assert_eq!(strip_trailing_char("a\n\n", '\n'), "a");
    assert_eq!(strip_leading_char("xxay", 'x'), "ay");
}

#[test]
fn prefixes_and_pieces() {
    assert!(starts_with_chars("src2/x", &to_chars("src")));
    assert!(!starts_with_chars("sr", &to_chars("src")));
    assert_eq!(concat3("a", "b", "c"), "abc");
}

#[test]
fn numerals_that_mean_nothing() {
    assert_eq!(read_usize("+17"), Ok(17));
    assert_eq!(read_usize(""), Err(NumeralError::Empty));
    assert_eq!(read_usize("+"), Err(NumeralError::InvalidDigit));
    assert_eq!(read_usize("-1"), Err(NumeralError::InvalidDigit));
    assert_eq!(read_usize("12x"), Err(NumeralError::InvalidDigit));
    assert_eq!(read_usize("99999999999999999999999x"), Err(NumeralError::TooLarge));
    for text in ["", "+", "x", "99999999999999999999999"] {
        let told = text.parse::<usize>().unwrap_err().to_string();
        assert_eq!(read_usize(text).unwrap_err().message(), told);
    }
}
