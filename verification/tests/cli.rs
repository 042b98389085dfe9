use et_radiosity::cli::parse_hex_or_dec;

fn expected(s: &str) -> Result<u64, String> {
    if let Some(hex) = s.strip_prefix("0x").or_else(|| s.strip_prefix("0X")) {
        u64::from_str_radix(hex, 16).map_err(|e| e.to_string())
    } else {
        s.parse::<u64>().map_err(|e| e.to_string())
    }
}

#[test]
fn parses_hex_and_decimal() {
    assert_eq!(parse_hex_or_dec("0xfffffffe"), Ok(0xFFFF_FFFE));
    assert_eq!(parse_hex_or_dec("0X1F"), Ok(31));
    assert_eq!(parse_hex_or_dec("42"), Ok(42));
    assert_eq!(parse_hex_or_dec("18446744073709551615"), Ok(u64::MAX));
    assert_eq!(parse_hex_or_dec("0xFFFFFFFFFFFFFFFF"), Ok(u64::MAX));
}

#[test]
fn reports_each_error() {
    assert_eq!(parse_hex_or_dec(""), Err("cannot parse integer from empty string".to_string()));
    assert_eq!(parse_hex_or_dec("12a"), Err("invalid digit found in string".to_string()));
    assert_eq!(
        parse_hex_or_dec("18446744073709551616"),
        Err("number too large to fit in target type".to_string())
    );
}

#[test]
fn agrees_with_std() {
    for s in [
        "", "0", "00", "007", "+", "-", "+1", "-1", "++1", "0x", "0X", "0x+1", "0x-1", "0xg", "0xG",
        "x1", "1x", "0x0x1", "1 ", " 1", "1_000", "99999999999999999999", "99999999999999999999z",
        "z99999999999999999999", "18446744073709551615", "18446744073709551616",
        "18446744073709551615z", "0x10000000000000000", "0xabcDEF", "abc", "0xFFFFFFFFFFFFFFFFz",
        "00000000000000000000000000000000000001", "\u{661}", "1\u{e9}", "0x\u{ff11}",
    ] {
        assert_eq!(parse_hex_or_dec(s), expected(s), "{s:?}");
    }
}

#[test]
fn decimal_digits_are_read_back() {
    for n in [0u64, 9, 10, 1234567890, u64::MAX] {
        assert_eq!(parse_hex_or_dec(&n.to_string()), Ok(n));
    }
}

#[test]
fn hexadecimal_digits_are_read_back() {
    for n in [0u64, 9, 10, 15, 16, 0xABC_DEF0_1234, u64::MAX] {
        assert_eq!(parse_hex_or_dec(&format!("0x{n:x}")), Ok(n));
        assert_eq!(parse_hex_or_dec(&format!("0x{n:X}")), Ok(n));
        assert_eq!(parse_hex_or_dec(&format!("0X{n:x}")), Ok(n));
        assert_eq!(parse_hex_or_dec(&format!("0X{n:X}")), Ok(n));
    }
}
