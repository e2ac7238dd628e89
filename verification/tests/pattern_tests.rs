use lime::errors::{GeneralErrors, InternalLimeError, InvalidFormat, LimeError, MemAddrError, RPMError, WPMError};
use lime::pattern::Pattern;

fn parse(text: &str) -> Pattern {
    match Pattern::from_str(text) {
        Ok(p) => p,
        Err(e) => panic!("pattern {:?} was refused: {}", text, e.string()),
    }
}

#[test]
fn parse_mixed_tokens() {
    let p = parse("DE 0xAD ? 0x?? 00");
    assert_eq!(p.len(), 5);
    assert_eq!(p.mask(), &vec![true, true, false, false, true]);
    assert_eq!(p.bytes(), &vec![0xDE, 0xAD, 0x00, 0x00, 0x00]);
}

#[test]
fn parse_wildcard_is_one_position() {
    let p = parse("?");
    assert_eq!(p.len(), 1);
    let p = parse("??");
    assert_eq!(p.len(), 1);
    let p = parse("0x? 0X??");
    assert_eq!(p.len(), 2);
    assert_eq!(p.mask(), &vec![false, false]);
}

#[test]
fn parse_rejects_bad_shape() {
    match Pattern::from_str("DEAD") {
        Err(LimeError::Format(InvalidFormat::IsNonValidPattern(m))) => assert_eq!(m, "DEAD"),
        other => panic!("unexpected: {:?}", other),
    }
    match Pattern::from_str("AA 0xB CC") {
        Err(LimeError::Format(InvalidFormat::IsNonValidPattern(m))) => assert_eq!(m, "0xB"),
        other => panic!("unexpected: {:?}", other),
    }
    assert!(matches!(
        Pattern::from_str("0x"),
        Err(LimeError::Format(InvalidFormat::IsNonValidPattern(_)))
    ));
    assert!(matches!(
        Pattern::from_str("???"),
        Err(LimeError::Format(InvalidFormat::IsNonValidPattern(_)))
    ));
}

#[test]
fn parse_rejects_bad_digits() {
    match Pattern::from_str("ZZ") {
        Err(LimeError::Format(InvalidFormat::ContainsInvalidCharacters(m))) => {
            assert_eq!(m, "invalid digit found in string")
        }
        other => panic!("unexpected: {:?}", other),
    }
    assert!(matches!(
        Pattern::from_str("0x0x"),
        Err(LimeError::Format(InvalidFormat::ContainsInvalidCharacters(_)))
    ));
    assert!(matches!(
        Pattern::from_str("+F"),
        Err(LimeError::Format(InvalidFormat::ContainsInvalidCharacters(_)))
    ));
    assert!(matches!(
        Pattern::from_str("?A"),
        Err(LimeError::Format(InvalidFormat::ContainsInvalidCharacters(_)))
    ));
}

#[test]
fn parse_two_byte_character_has_the_shape_but_no_digits() {
    assert!(matches!(
        Pattern::from_str("\u{e9}"),
        Err(LimeError::Format(InvalidFormat::ContainsInvalidCharacters(_)))
    ));
    assert!(matches!(
        Pattern::from_str("\u{20ac}"),
        Err(LimeError::Format(InvalidFormat::IsNonValidPattern(_)))
    ));
}

#[test]
fn parse_first_bad_token_decides() {
    assert!(matches!(
        Pattern::from_str("AA ZZ DEAD"),
        Err(LimeError::Format(InvalidFormat::ContainsInvalidCharacters(_)))
    ));
    assert!(matches!(
        Pattern::from_str("AA DEAD ZZ"),
        Err(LimeError::Format(InvalidFormat::IsNonValidPattern(_)))
    ));
}

#[test]
fn parse_empty_text_gives_empty_pattern() {
    assert_eq!(parse("").len(), 0);
    assert_eq!(parse("  \t\n ").len(), 0);
}

#[test]
fn parse_ignores_layout_of_whitespace() {
    let a = parse("DE AD ? 0A");
    let b = parse("  DE\t\tAD\n?\r\n 0A   ");
    let c = parse("DE\u{a0}AD\u{2003}?\u{3000}0A");
    assert_eq!(a.bytes(), b.bytes());
    assert_eq!(a.mask(), b.mask());
    assert_eq!(a.bytes(), c.bytes());
    assert_eq!(a.mask(), c.mask());
    assert_eq!(a.bytes(), &vec![0xDE, 0xAD, 0x00, 0x0A]);
}

#[test]
fn parse_prefix_is_optional_per_token() {
    let a = parse("DE AD ?? de");
    let b = parse("0xDE 0XAD 0x?? 0Xde");
    let c = parse("0xde ad 0X? DE");
    assert_eq!(a.bytes(), b.bytes());
    assert_eq!(a.mask(), b.mask());
    assert_eq!(a.bytes(), c.bytes());
    assert_eq!(a.mask(), c.mask());
}

#[test]
fn parse_hex_digits_of_both_cases() {
    let p = parse("0a A0 fF 09 Bc");
    assert_eq!(p.bytes(), &vec![0x0a, 0xa0, 0xff, 0x09, 0xbc]);
    assert_eq!(p.mask(), &vec![true; 5]);
}

#[test]
fn matches_needs_enough_bytes() {
    let p = parse("AA BB");
    assert!(!p.matches(&[0xAA]));
    assert!(!p.matches(&[]));
    assert!(p.matches(&[0xAA, 0xBB]));
    assert!(p.matches(&[0xAA, 0xBB, 0x00]));
    assert!(!p.matches(&[0xAA, 0xBC]));
}

#[test]
fn matches_wildcard_is_independent_of_the_byte() {
    let p = parse("AA ? CC");
    for b in 0..=255u8 {
        assert!(p.matches(&[0xAA, b, 0xCC]));
        assert!(!p.matches(&[0xAB, b, 0xCC]));
    }
}

#[test]
fn matches_empty_pattern_matches_anything() {
    let p = parse("");
    assert!(p.matches(&[]));
    assert!(p.matches(&[1, 2, 3]));
}

#[test]
fn error_messages_carry_their_label() {
    assert_eq!(WPMError::BadDataType("x".to_string()).string(), "Bad data type: x");
    assert_eq!(WPMError::WriteOutOfBounds("x".to_string()).string(), "Write out of bounds: x");
    assert_eq!(WPMError::FailedToWrite("x".to_string()).string(), "Failed to write: x");
    assert_eq!(RPMError::BadDataType("y".to_string()).string(), "Bad data type: y");
    assert_eq!(RPMError::ReadOutOfBounds("y".to_string()).string(), "Read out of bounds: y");
    assert_eq!(RPMError::FailedToRead("y".to_string()).string(), "Failed to read: y");
    assert_eq!(MemAddrError::AddressInvalid("z".to_string()).string(), "Address is invalid: z");
    assert_eq!(
        MemAddrError::AddressOutOfBounds("z".to_string()).string(),
        "Address is out of bound of process memory: z"
    );
    assert_eq!(MemAddrError::AddressNotReadable("z".to_string()).string(), "Unreadable mem region: z");
    assert_eq!(MemAddrError::InvalidPid("z".to_string()).string(), "Invalid pid supplied: z");
    assert_eq!(MemAddrError::ParseError("z".to_string()).string(), "Error while parsing /maps: z");
    assert_eq!(MemAddrError::NoPermission("z".to_string()).string(), "Wrong permissions for region: z");
    assert_eq!(InvalidFormat::IsNonValidPattern("p".to_string()).string(), "Pattern was invalid: p");
    assert_eq!(
        InvalidFormat::ContainsInvalidCharacters("p".to_string()).string(),
        "Pattern contained invalid characters: p"
    );
    assert_eq!(GeneralErrors::PatternIsEmpty("g".to_string()).string(), "Pattern was empty: g");
    assert_eq!(GeneralErrors::PatternNotFound("g".to_string()).string(), "Pattern not found in buffer: g");
    assert_eq!(
        GeneralErrors::PatternLargerThanBuffer("g".to_string()).string(),
        "Pattern is larger than buffer: g"
    );
    assert_eq!(
        LimeError::General(GeneralErrors::PatternIsEmpty("g".to_string())).string(),
        "Pattern was empty: g"
    );
    assert_eq!(
        LimeError::Format(InvalidFormat::IsNonValidPattern("DEAD".to_string())).string(),
        "Pattern was invalid: DEAD"
    );
    assert_eq!(LimeError::Read(RPMError::FailedToRead("r".to_string())).string(), "Failed to read: r");
    assert_eq!(LimeError::Write(WPMError::FailedToWrite("w".to_string())).string(), "Failed to write: w");
    assert_eq!(LimeError::MemAddr(MemAddrError::InvalidPid("7".to_string())).string(), "Invalid pid supplied: 7");
}
