use myna_utils::Myna;
use myna_utils::MynaError;
use myna_utils::MynaIter;

#[test]
fn checksum_zero_payload() {
    let m = Myna::parse("000000000000").unwrap();
    assert_eq!(m.check_digit(), 0);
}

#[test]
fn checksum_golden_payload() {
    let m = Myna::parse("123456789018").unwrap();
    assert_eq!(m.check_digit(), 8);
}

#[test]
fn format_parse_round_trip() {
    for s in ["000000000000", "123456789018", "999999999996", "000000000019"] {
        let m = Myna::parse(s).unwrap();
        assert_eq!(m.format(), s);
    }
}

#[test]
fn parse_trims_whitespace() {
    let m = Myna::parse(" 123456789018\n").unwrap();
    assert_eq!(m.format(), "123456789018");
    let m = Myna::parse("\t123456789018 \r\n").unwrap();
    assert_eq!(m.format(), "123456789018");
}

#[test]
fn parse_trims_unicode_whitespace() {
    let m = Myna::parse("\u{3000}123456789018\u{3000}").unwrap();
    assert_eq!(m.format(), "123456789018");
    let m = Myna::parse("\u{a0}123456789018").unwrap();
    assert_eq!(m.format(), "123456789018");
    let m = Myna::parse("\u{2028}\u{205f}123456789018\u{85}").unwrap();
    assert_eq!(m.format(), "123456789018");
}

#[test]
fn length_is_measured_in_characters() {
    // 12 non-digit characters (24 bytes in UTF-8): a content error
    assert!(matches!(
        Myna::parse("\u{a2}\u{a2}\u{a2}\u{a2}\u{a2}\u{a2}\u{a2}\u{a2}\u{a2}\u{a2}\u{a2}\u{a2}"),
        Err(MynaError::ParseError(_))
    ));
    // 12 full-width digit characters: still a content error, not a length error
    assert!(matches!(
        Myna::parse(
            "\u{ff11}\u{ff12}\u{ff13}\u{ff14}\u{ff15}\u{ff16}\u{ff17}\u{ff18}\u{ff19}\u{ff10}\u{ff11}\u{ff18}"
        ),
        Err(MynaError::ParseError(_))
    ));
    // 6 characters (12 bytes in UTF-8): a length error
    assert!(matches!(
        Myna::parse("\u{a2}\u{a2}\u{a2}\u{a2}\u{a2}\u{a2}"),
        Err(MynaError::InvalidInput(_))
    ));
}

#[test]
fn unicode_padded_bad_check_digit() {
    assert!(matches!(
        Myna::parse("\u{3000}123456789010\u{3000}"),
        Err(MynaError::ParseError(_))
    ));
}

#[test]
fn rejects_wrong_length() {
    assert!(matches!(Myna::parse(""), Err(MynaError::InvalidInput(_))));
    assert!(matches!(Myna::parse("123"), Err(MynaError::InvalidInput(_))));
    assert!(matches!(
        Myna::parse("1234567890185"),
        Err(MynaError::InvalidInput(_))
    ));
    assert!(matches!(
        Myna::parse("   \n\t "),
        Err(MynaError::InvalidInput(_))
    ));
}

#[test]
fn rejects_non_digit() {
    assert!(matches!(
        Myna::parse("12345678901x"),
        Err(MynaError::ParseError(_))
    ));
    assert!(matches!(
        Myna::parse("12x456789018"),
        Err(MynaError::ParseError(_))
    ));
}

#[test]
fn rejects_bad_check_digit() {
    assert!(matches!(
        Myna::parse("123456789010"),
        Err(MynaError::ParseError(_))
    ));
    assert!(matches!(
        Myna::parse("123456789019"),
        Err(MynaError::ParseError(_))
    ));
}

#[test]
fn default_is_all_zero() {
    assert_eq!(Myna::default().format(), "000000000000");
}

#[test]
fn increment_simple() {
    let mut m = Myna::default();
    m.increment();
    assert_eq!(m.format(), "000000000019");
    m.increment();
    assert_eq!(m.format(), "000000000027");
}

#[test]
fn increment_wraparound() {
    let mut m = Myna::parse("999999999996").unwrap();
    m.increment();
    assert_eq!(m.format(), "000000000000");
}

#[test]
fn iterator_starts_at_zero_and_ascends() {
    let mut it = MynaIter::new();
    assert_eq!(it.next().unwrap().format(), "000000000000");
    assert_eq!(it.next().unwrap().format(), "000000000019");
    assert_eq!(it.next().unwrap().format(), "000000000027");
}

#[test]
fn error_messages() {
    let e = Myna::parse("123").unwrap_err();
    assert_eq!(e.message(), "Invalid input: Input must be 12 characters long");
    let e = Myna::parse("12345678901x").unwrap_err();
    assert_eq!(e.message(), "Parse error: Invalid character");
    let e = Myna::parse("123456789010").unwrap_err();
    assert_eq!(e.message(), "Parse error: Invalid check digit");
}

#[test]
fn from_str_parses() {
    let m: Myna = "123456789018".parse().unwrap();
    assert_eq!(m.format(), "123456789018");
}

#[test]
fn equality_is_by_payload() {
    let a = Myna::parse("123456789018").unwrap();
    let b = Myna::parse(" 123456789018 ").unwrap();
    let c = Myna::parse("000000000000").unwrap();
    assert_eq!(a, b);
    assert_ne!(a, c);
}
