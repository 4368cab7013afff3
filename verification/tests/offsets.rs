use hex_grid::offset::parse_offset;

#[test]
fn decimal_offsets() {
    assert_eq!(parse_offset("0"), Ok(0));
    assert_eq!(parse_offset("42"), Ok(42));
    assert_eq!(parse_offset("007"), Ok(7));
    assert_eq!(parse_offset("+7"), Ok(7));
    assert_eq!(parse_offset("18446744073709551615"), Ok(u64::MAX));
}

#[test]
fn hexadecimal_offsets() {
    assert_eq!(parse_offset("0x0"), Ok(0));
    assert_eq!(parse_offset("0x1f"), Ok(31));
    assert_eq!(parse_offset("0x1F"), Ok(31));
    assert_eq!(parse_offset("0xdeadBEEF"), Ok(3735928559));
    assert_eq!(parse_offset("0x+10"), Ok(16));
    assert_eq!(parse_offset("0xffffffffffffffff"), Ok(u64::MAX));
    assert_eq!(parse_offset("0x10"), Ok(16));
}

#[test]
fn prefix_is_lower_case_only() {
    assert!(parse_offset("0X1f").is_err());
    assert!(parse_offset("x1f").is_err());
    assert!(parse_offset("1f").is_err());
}

#[test]
fn empty_and_bare_prefix_are_errors() {
    assert!(parse_offset("").is_err());
    assert!(parse_offset("0x").is_err());
    assert!(parse_offset("+").is_err());
    assert!(parse_offset("0x+").is_err());
}

#[test]
fn other_characters_are_errors() {
    assert!(parse_offset("-1").is_err());
    assert!(parse_offset(" 1").is_err());
    assert!(parse_offset("1 ").is_err());
    assert!(parse_offset("1_000").is_err());
    assert!(parse_offset("12a").is_err());
    assert!(parse_offset("0x1g").is_err());
    assert!(parse_offset("0x0x1").is_err());
    assert!(parse_offset("++1").is_err());
    assert!(parse_offset("\u{ff11}").is_err());
    assert!(parse_offset("0x\u{e9}").is_err());
}

#[test]
fn numbers_past_the_largest_offset_are_errors() {
    assert!(parse_offset("18446744073709551616").is_err());
    assert!(parse_offset("99999999999999999999999").is_err());
    assert!(parse_offset("0x10000000000000000").is_err());
}
