use cache_headers::util::encode_decimal;
use cache_headers::util::parse_u16;
use cache_headers::util::parse_u32;
use cache_headers::util::parse_u64;
use cache_headers::util::parse_u8;
use cache_headers::ParseError;

#[test]
fn test_parse_u64() {
    assert_eq!(parse_u64::<false>(b""), Err(ParseError::InvalidSyntax));
    assert_eq!(parse_u64::<false>(b"+0"), Err(ParseError::InvalidSyntax));
    assert_eq!(parse_u64::<false>(b"+"), Err(ParseError::InvalidSyntax));
    assert_eq!(parse_u64::<false>(b"garble0"), Err(ParseError::InvalidSyntax));
    assert_eq!(parse_u64::<false>(b"0garble"), Err(ParseError::InvalidSyntax));
    assert_eq!(parse_u64::<false>(b" 0"), Err(ParseError::InvalidSyntax));
    assert_eq!(parse_u64::<false>(b"0 "), Err(ParseError::InvalidSyntax));
    assert_eq!(parse_u64::<false>(b"-0"), Err(ParseError::InvalidSyntax));
    assert_eq!(parse_u64::<false>(b"-1"), Err(ParseError::InvalidSyntax));
    assert_eq!(parse_u64::<false>(b"0"), Ok(0u64));
    assert_eq!(parse_u64::<false>(b"000000"), Ok(0u64));
    assert_eq!(parse_u64::<false>(b"00000000000000000000"), Ok(0u64));
    assert_eq!(parse_u64::<false>(b"1"), Ok(1u64));
    assert_eq!(parse_u64::<false>(b"000001"), Ok(1u64));
    assert_eq!(parse_u64::<false>(b"00000000000000000001"), Ok(1u64));
    assert_eq!(parse_u64::<false>(b"9999999999999999"), Ok(9999999999999999u64));
    assert_eq!(parse_u64::<false>(b"99999999999999999999"), Err(ParseError::Overflow));
    assert_eq!(parse_u64::<true>(b"99999999999999999999"), Ok(u64::MAX));
    assert_eq!(parse_u8::<false>(b"99"), Ok(99u8));
    assert_eq!(parse_u8::<false>(b"255"), Ok(255u8));
    assert_eq!(parse_u8::<false>(b"256"), Err(ParseError::Overflow));
    assert_eq!(parse_u8::<true>(b"256"), Ok(u8::MAX));
}

#[test]
fn test_parse_narrow_widths() {
    assert_eq!(parse_u16::<false>(b"65535"), Ok(65535u16));
    assert_eq!(parse_u16::<false>(b"65536"), Err(ParseError::Overflow));
    assert_eq!(parse_u16::<true>(b"65536"), Ok(u16::MAX));
    assert_eq!(parse_u32::<false>(b"4294967295"), Ok(4294967295u32));
    assert_eq!(parse_u32::<false>(b"4294967296"), Err(ParseError::Overflow));
    assert_eq!(parse_u32::<true>(b"4294967296"), Ok(u32::MAX));
    assert_eq!(parse_u16::<false>(b"12x"), Err(ParseError::InvalidSyntax));
}

#[test]
fn test_overflow_wins_over_later_garbage() {
    // The checked policy meets the overflow while it still consumes digits,
    // before it reaches the non-digit byte.
    assert_eq!(parse_u64::<false>(b"99999999999999999999x"), Err(ParseError::Overflow));
    // A non-digit before any overflow is a syntax error under both policies.
    assert_eq!(parse_u64::<false>(b"123x99999999999999999999"), Err(ParseError::InvalidSyntax));
    assert_eq!(parse_u64::<true>(b"99999999999999999999x"), Err(ParseError::InvalidSyntax));
}

#[test]
fn test_encode_decimal() {
    assert_eq!(encode_decimal(0), b"0".to_vec());
    assert_eq!(encode_decimal(7), b"7".to_vec());
    assert_eq!(encode_decimal(123), b"123".to_vec());
    assert_eq!(encode_decimal(10), b"10".to_vec());
    assert_eq!(encode_decimal(u64::MAX), b"18446744073709551615".to_vec());
}

#[test]
fn test_decimal_round_trip() {
    for v in [0u64, 1, 9, 10, 123, 65535, 123123123123123123, u64::MAX] {
        let digits = encode_decimal(v);
        assert_eq!(parse_u64::<false>(&digits), Ok(v));
        assert_eq!(parse_u64::<true>(&digits), Ok(v));
    }
}

#[test]
fn test_leading_zeros_carry_no_weight() {
    assert_eq!(parse_u64::<false>(b"000123"), parse_u64::<false>(b"123"));
    assert_eq!(parse_u64::<false>(b"0000000000000000000000000000042"), Ok(42u64));
    assert_eq!(parse_u8::<true>(b"00255"), Ok(255u8));
}

#[test]
fn test_saturating_never_fails_on_digits() {
    let long = [0x39u8; 100];
    assert_eq!(parse_u64::<true>(&long), Ok(u64::MAX));
    assert_eq!(parse_u8::<true>(&long), Ok(u8::MAX));
    assert_eq!(parse_u64::<false>(&long), Err(ParseError::Overflow));
}
