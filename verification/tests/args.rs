use std::num::IntErrorKind;
use sigma_diagnostics::args::{parse_can_id, parse_pid, HexError};

#[test]
fn can_ids_accept_prefixes_and_bare_hex() {
    assert_eq!(parse_can_id("0x7E8"), Ok(0x7E8));
    assert_eq!(parse_can_id("7e8"), Ok(0x7E8));
    assert_eq!(parse_can_id("0X1F"), Ok(0x1F));
    assert_eq!(parse_can_id("0x0x10"), Ok(0x10));
    assert_eq!(parse_can_id("+1A"), Ok(0x1A));
    assert_eq!(parse_can_id("FFFFFFFF"), Ok(u32::MAX));
}

#[test]
fn can_id_errors_name_the_reason() {
    assert_eq!(parse_can_id(""), Err(HexError::Empty));
    assert_eq!(parse_can_id("0x"), Err(HexError::Empty));
    assert_eq!(parse_can_id("+"), Err(HexError::InvalidDigit));
    assert_eq!(parse_can_id("-1"), Err(HexError::InvalidDigit));
    assert_eq!(parse_can_id("xyz"), Err(HexError::InvalidDigit));
    assert_eq!(parse_can_id(" 7E8"), Err(HexError::InvalidDigit));
    assert_eq!(parse_can_id("100000000"), Err(HexError::PosOverflow));
    // Reading stops at the first failing digit.
    assert_eq!(parse_can_id("G00000000"), Err(HexError::InvalidDigit));
    assert_eq!(parse_can_id("FFFFFFFFFG"), Err(HexError::PosOverflow));
}

#[test]
fn pids_trim_whitespace_and_fit_a_byte() {
    assert_eq!(parse_pid(" 0C "), Ok(0x0C));
    assert_eq!(parse_pid("0x0d"), Ok(0x0D));
    assert_eq!(parse_pid("ff"), Ok(0xFF));
    assert_eq!(parse_pid("100"), Err(HexError::PosOverflow));
    assert_eq!(parse_pid("  "), Err(HexError::Empty));
    assert_eq!(parse_pid("0g"), Err(HexError::InvalidDigit));
}

#[test]
fn hex_values_read_as_from_str_radix_does() {
    let kind = |e: HexError| match e {
        HexError::Empty => IntErrorKind::Empty,
        HexError::InvalidDigit => IntErrorKind::InvalidDigit,
        HexError::PosOverflow => IntErrorKind::PosOverflow,
    };
    for s in ["", "+", "-", "0", "+0", "++1", "7fF", "fffffffff", "1_0", "é", "00000000000001", "-0"] {
        match (parse_can_id(s), u32::from_str_radix(s, 16)) {
            (Ok(a), Ok(b)) => assert_eq!(a, b, "{s:?}"),
            (Err(a), Err(b)) => assert_eq!(&kind(a), b.kind(), "{s:?}"),
            (a, b) => panic!("{s:?}: {a:?} vs {b:?}"),
        }
    }
}

#[test]
fn printed_ids_read_back() {
    assert_reads_back(0x7E8, false);
    assert_reads_back(0x18DAF110, true);
    assert_reads_back(0, false);
    assert_reads_back(u32::MAX, true);
}

fn assert_reads_back(id: u32, extended: bool) {
    let text = sigma_diagnostics::helpers::format_can_id(id, extended);
    assert_eq!(parse_can_id(&text), Ok(id));
}
