use duperr::cli::{parse_size, SizeError};

#[test]
fn test_parse_size_bytes() {
    assert_eq!(parse_size("1024").unwrap(), 1024);
    assert_eq!(parse_size("0").unwrap(), 0);
}

#[test]
fn test_parse_size_kilobytes() {
    assert_eq!(parse_size("1K").unwrap(), 1024);
    assert_eq!(parse_size("1KB").unwrap(), 1024);
    assert_eq!(parse_size("10k").unwrap(), 10 * 1024);
}

#[test]
fn test_parse_size_megabytes() {
    assert_eq!(parse_size("1M").unwrap(), 1024 * 1024);
    assert_eq!(parse_size("1MB").unwrap(), 1024 * 1024);
}

#[test]
fn test_parse_size_gigabytes() {
    assert_eq!(parse_size("1G").unwrap(), 1024 * 1024 * 1024);
    assert_eq!(parse_size("2GB").unwrap(), 2 * 1024 * 1024 * 1024);
}

#[test]
fn test_parse_size_terabytes() {
    assert_eq!(parse_size("1T").unwrap(), 1024 * 1024 * 1024 * 1024);
    assert_eq!(parse_size("1TB").unwrap(), 1024 * 1024 * 1024 * 1024);
}

#[test]
fn test_parse_size_whitespace() {
    assert_eq!(parse_size(" 1M ").unwrap(), 1024 * 1024);
    assert_eq!(parse_size("  100K  ").unwrap(), 100 * 1024);
}

#[test]
fn test_parse_size_invalid() {
    assert!(parse_size("abc").is_err());
    assert!(parse_size("1X").is_err());
    assert!(parse_size("-1").is_err());
    assert!(parse_size("").is_err());
    assert!(parse_size("XYZ").is_err());
}

#[test]
fn parse_size_space_before_unit() {
    assert_eq!(parse_size("2 GB").unwrap(), 2 * 1024 * 1024 * 1024);
    assert_eq!(parse_size("3\tk").unwrap(), 3 * 1024);
}

#[test]
fn parse_size_error_variants() {
    assert!(matches!(parse_size("   "), Err(SizeError::Empty)));
    match parse_size("abc") {
        Err(SizeError::InvalidNumber(n)) => assert_eq!(n, ""),
        other => panic!("unexpected {:?}", other),
    }
    match parse_size("99999999999999999999") {
        Err(SizeError::InvalidNumber(n)) => assert_eq!(n, "99999999999999999999"),
        other => panic!("unexpected {:?}", other),
    }
    match parse_size("12xb") {
        Err(SizeError::UnknownSuffix(s)) => assert_eq!(s, "XB"),
        other => panic!("unexpected {:?}", other),
    }
    match parse_size("20000000T") {
        Err(SizeError::Overflow(s)) => assert_eq!(s, "20000000T"),
        other => panic!("unexpected {:?}", other),
    }
}

#[test]
fn parse_size_largest_values() {
    assert_eq!(parse_size("18446744073709551615").unwrap(), u64::MAX);
    assert_eq!(parse_size("16777215T").unwrap(), 16777215u64 * 1024 * 1024 * 1024 * 1024);
    assert!(matches!(parse_size("16777216T"), Err(SizeError::Overflow(_))));
}

#[test]
fn parse_size_unit_alone_is_invalid_number() {
    assert!(matches!(parse_size("KB"), Err(SizeError::InvalidNumber(_))));
    assert!(matches!(parse_size("1BB"), Err(SizeError::UnknownSuffix(_))));
    assert!(matches!(parse_size("1B"), Err(SizeError::UnknownSuffix(_))));
}
