use bytie::errors::ParseError;
use bytie::size::parse_pos;
use bytie::utils::parse_to_vec;

#[test]
fn test_parse_pos() {
    assert_eq!(parse_pos("15"), Ok(15));
    assert_eq!(parse_pos("015"), Ok(15));
    assert_eq!(parse_pos("15 B"), Ok(15));
    assert_eq!(parse_pos("15 b"), Ok(15));
    assert_eq!(parse_pos("3445 Kib"), Ok(3445 * 1024));

    assert_eq!(parse_pos("0x15"), Ok(0x15));
    assert!(parse_pos("0xg5").is_err());
    assert!(parse_pos("xg5").is_err());
    assert!(parse_pos("-5").is_err());
}

#[test]
fn test_parse_pos_units() {
    assert_eq!(parse_pos("1k"), Ok(1_000));
    assert_eq!(parse_pos("1kb"), Ok(1_000));
    assert_eq!(parse_pos("1kib"), Ok(1024));
    assert_eq!(parse_pos("3M"), Ok(3_000_000));
    assert_eq!(parse_pos("5mib"), Ok(5 * 1024 * 1024));
    assert_eq!(parse_pos("2GB"), Ok(2_000_000_000));
    assert_eq!(parse_pos("2GiB"), Ok(2 * 1024 * 1024 * 1024));
    assert_eq!(parse_pos("1t"), Ok(1_000_000_000_000));
    assert_eq!(parse_pos("1tib"), Ok(1_099_511_627_776));
    assert_eq!(parse_pos("0"), Ok(0));
    assert!(parse_pos("1q").is_err());
    assert!(parse_pos("1kibb").is_err());
}

#[test]
fn test_parse_pos_overflow() {
    assert_eq!(parse_pos("18446744073709551615"), Ok(u64::MAX));
    assert_eq!(parse_pos("18446744073709551616"), Err(ParseError::Malformed));
    assert_eq!(parse_pos("99999999999999999999e"), Err(ParseError::Malformed));
    assert_eq!(parse_pos("0xffffffffffffffff"), Ok(u64::MAX));
    assert_eq!(
        parse_pos("0x10000000000000000"),
        Err(ParseError::Malformed)
    );
}

#[test]
fn test_parse_to_vec() {
    assert_eq!(parse_to_vec("abc"), Ok(vec![97u8, 98, 99]));
    assert_eq!(parse_to_vec(""), Ok(vec![]));
}
