use libsraid::text::{
    add_thousands_separators, i64_to_decimal, join_path, parse_size, parse_size_parts, parse_u64,
    size_from_parts, split_path, try_parse_size, u64_to_decimal, SizeParseError,
};

#[test]
fn thousands_separators() {
    assert_eq!(add_thousands_separators(0), "0");
    assert_eq!(add_thousands_separators(999), "999");
    assert_eq!(add_thousands_separators(1000), "1,000");
    assert_eq!(add_thousands_separators(528384), "528,384");
    assert_eq!(add_thousands_separators(1234567), "1,234,567");
    assert_eq!(add_thousands_separators(u64::MAX), "18,446,744,073,709,551,615");
}

#[test]
fn decimal_rendering() {
    assert_eq!(u64_to_decimal(0), "0");
    assert_eq!(u64_to_decimal(4096), "4096");
    assert_eq!(i64_to_decimal(-42), "-42");
    assert_eq!(i64_to_decimal(i64::MIN), "-9223372036854775808");
    assert_eq!(i64_to_decimal(7), "7");
}

#[test]
fn split_path_drops_empty_components() {
    assert_eq!(split_path("a/b/c"), vec!["a", "b", "c"]);
    assert_eq!(split_path("//a\\\\b/"), vec!["a", "b"]);
    assert_eq!(split_path(""), Vec::<&str>::new());
    assert_eq!(split_path("///"), Vec::<&str>::new());
    assert_eq!(split_path("dir/ünï/file.txt"), vec!["dir", "ünï", "file.txt"]);
}

#[test]
fn join_path_uses_slashes() {
    assert_eq!(join_path(&["a", "b", "c"]), "a/b/c");
    assert_eq!(join_path(&["single"]), "single");
    assert_eq!(join_path(&[]), "");
}

#[test]
fn parse_u64_like_from_str() {
    assert_eq!(parse_u64("0"), Some(0));
    assert_eq!(parse_u64("+17"), Some(17));
    assert_eq!(parse_u64("18446744073709551615"), Some(u64::MAX));
    assert_eq!(parse_u64("18446744073709551616"), None);
    assert_eq!(parse_u64(""), None);
    assert_eq!(parse_u64("+"), None);
    assert_eq!(parse_u64("-1"), None);
    assert_eq!(parse_u64("12a"), None);
    for s in ["0", "+5", "99999999999999999999", "", "4x", " 3"] {
        assert_eq!(parse_u64(s), s.parse::<u64>().ok(), "{s}");
    }
}

#[test]
fn parse_sizes_with_units() {
    assert_eq!(parse_size("1G").unwrap(), 1024 * 1024 * 1024);
    assert_eq!(parse_size(" 500m ").unwrap(), 500 * 1024 * 1024);
    assert_eq!(parse_size("10").unwrap(), 10);
    assert_eq!(parse_size("10b").unwrap(), 10);
    assert_eq!(parse_size("4KiB").unwrap(), 4096);
    assert_eq!(parse_size("3kb").unwrap(), 3072);
    assert_eq!(parse_size("2TB").unwrap(), 2 * 1024u64.pow(4));
    assert_eq!(parse_size("+1mib").unwrap(), 1024 * 1024);
}

#[test]
fn parse_size_errors() {
    assert!(matches!(parse_size("   "), Err(SizeParseError::Empty)));
    match parse_size("abc") {
        Err(SizeParseError::InvalidNumber(n)) => assert_eq!(n, ""),
        other => panic!("unexpected {other:?}"),
    }
    match parse_size("1.5G") {
        Err(SizeParseError::InvalidNumber(n)) => assert_eq!(n, "1.5"),
        other => panic!("unexpected {other:?}"),
    }
    match parse_size("5X") {
        Err(SizeParseError::InvalidUnit(u)) => assert_eq!(u, "X"),
        other => panic!("unexpected {other:?}"),
    }
    match parse_size("7 gb") {
        Err(SizeParseError::InvalidNumber(n)) => assert_eq!(n, "7 "),
        other => panic!("unexpected {other:?}"),
    }
}

#[test]
fn parse_size_messages() {
    assert_eq!(parse_size("").unwrap_err().message(), "Size cannot be empty");
    assert_eq!(parse_size("x1").unwrap_err().message(), "Invalid number: ''");
    assert_eq!(
        parse_size("1q").unwrap_err().message(),
        "Invalid unit: 'Q'. Valid units: B, K/KIB/KB, M/MIB/MB, G/GIB/GB, T/TIB/TB"
    );
}

#[test]
fn parse_size_parts_reports_overflowing_products() {
    let (n, m) = parse_size_parts("20000000T").unwrap();
    assert_eq!(n, 20000000);
    assert_eq!(m, 1024u64.pow(4));
    assert!(n.checked_mul(m).is_none());
}

#[test]
fn size_parse_refuses_overflow() {
    assert!(try_parse_size("16777216T").is_none());
    assert!(try_parse_size("18446744073709551615").unwrap().is_ok());
    assert_eq!(try_parse_size("16777215T").unwrap().unwrap(), 16777215 * (1u64 << 40));
    assert!(matches!(try_parse_size("12X"), Some(Err(SizeParseError::InvalidUnit(_)))));
    assert!(matches!(try_parse_size("  "), Some(Err(SizeParseError::Empty))));
}

#[test]
fn split_gives_back_joined_components() {
    let parts = ["photos", "2024", "beach.jpg"];
    let joined = join_path(&parts);
    assert_eq!(joined, "photos/2024/beach.jpg");
    assert_eq!(split_path(&joined), parts.to_vec());
}

#[test]
fn size_number_and_unit() {
    assert_eq!(size_from_parts("500", "MIB").unwrap(), (500, 1024 * 1024));
    assert_eq!(size_from_parts("7", "").unwrap(), (7, 1));
    assert!(matches!(size_from_parts("5X5", "K"), Err(SizeParseError::InvalidNumber(t)) if t == "5X5"));
    assert!(matches!(size_from_parts("5", "KIBB"), Err(SizeParseError::InvalidUnit(t)) if t == "KIBB"));
}
