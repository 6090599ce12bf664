use winiso::bytes::{get_u16, get_u32, get_u64, put, u16_bytes, u32_bytes, u64_bytes};
use winiso::error::{friendly_http_error, Error, HttpFailure};
use winiso::source::{copy_range, copy_runs, read_exact_at, read_runs};
use winiso::text::{
    contains_text, count_of, cut_at_last, decimal_text, ends_with, eq_ignore_ascii_case, hex_text,
    join, parse_u64, replace_all, rsplit_last, split_first, starts_with, text_lt, trim, trim_quotes,
};

#[test]
fn words_for_errors() {
    let e = |f| Error::Http(f).message();
    assert_eq!(
        e(HttpFailure::Timeout),
        "Network timeout — check your internet connection or try again later"
    );
    assert_eq!(
        e(HttpFailure::Connect),
        "Could not connect to Microsoft servers — check your internet connection"
    );
    assert_eq!(
        e(HttpFailure::Status("503 Service Unavailable".to_string())),
        "HTTP 503 Service Unavailable from Microsoft servers — try again later"
    );
    assert_eq!(
        friendly_http_error(&HttpFailure::Network("x".to_string())),
        "Network error: x"
    );
    assert_eq!(Error::Io("gone".to_string()).message(), "I/O error: gone");
    assert_eq!(Error::Xml("x".to_string()).message(), "XML parse error: x");
    assert_eq!(Error::Cab("x".to_string()).message(), "CAB extraction error: x");
    assert_eq!(Error::Other("x".to_string()).message(), "x");
    let api = Error::Api { message: "m".to_string(), details: "d".to_string() };
    assert_eq!(api.message(), "API error: m");
}

#[test]
fn texts_are_searched() {
    assert!(contains_text("grün", "rü"));
    assert!(!contains_text("grün", "ru"));
    assert!(contains_text("", ""));
    assert!(starts_with("abc", "ab"));
    assert!(ends_with("abc", "bc"));
    assert!(!ends_with("bc", "abc"));
    assert!(eq_ignore_ascii_case("ABc", "abC"));
    assert!(!eq_ignore_ascii_case("Ä", "ä"));
    assert!(text_lt("a", "b"));
    assert!(text_lt("a", "aa"));
    assert!(!text_lt("b", "aa"));
    assert_eq!(count_of("a/b/c", '/'), 2);
}

#[test]
fn texts_are_cut() {
    assert_eq!(trim("\u{2003} a b\n"), "a b");
    assert_eq!(trim_quotes("\"\"a\"b\""), "a\"b");
    assert_eq!(rsplit_last("a/b/c", '/'), "c");
    assert_eq!(split_first("a?b?c", '?'), "a");
    assert_eq!(cut_at_last("a;b;c", ';'), "a;b");
    assert_eq!(replace_all("aaa", "aa", "b"), "ba");
    assert_eq!(join(&vec!["a".to_string(), "b".to_string()], ", "), "a, b");
}

#[test]
fn numbers_in_texts() {
    assert_eq!(decimal_text(0), "0");
    assert_eq!(decimal_text(u128::MAX), u128::MAX.to_string());
    assert_eq!(parse_u64("18446744073709551615"), Some(u64::MAX));
    assert_eq!(parse_u64("18446744073709551616"), None);
    assert_eq!(parse_u64("+5"), Some(5));
    assert_eq!(parse_u64("+"), None);
    assert_eq!(parse_u64("-5"), None);
    assert_eq!(parse_u64(""), None);
    assert_eq!(parse_u64(" 5"), None);
    assert_eq!(hex_text(&[0, 0x1F, 0xAB]), "001fab");
}

#[test]
fn numbers_in_bytes() {
    assert_eq!(get_u16(&u16_bytes(0x1234), 0), 0x1234);
    assert_eq!(u32_bytes(0x1234_5678), vec![0x78, 0x56, 0x34, 0x12]);
    assert_eq!(get_u32(&[0, 0x78, 0x56, 0x34, 0x12], 1), 0x1234_5678);
    assert_eq!(u64_bytes(1), vec![1, 0, 0, 0, 0, 0, 0, 0]);
    assert_eq!(get_u64(&u64_bytes(u64::MAX - 3), 0), u64::MAX - 3);
    let mut b = vec![1, 2, 3, 4];
    put(&mut b, 1, &[9, 8]);
    assert_eq!(b, vec![1, 9, 8, 4]);
}

#[test]
fn reading_and_copying() {
    let data: Vec<u8> = (0..100).collect();
    assert_eq!(read_exact_at(&data, 10, 3).unwrap(), vec![10, 11, 12]);
    assert!(read_exact_at(&data, 98, 3).is_err());
    assert!(read_exact_at(&data, u64::MAX, 1).is_err());
    let mut out = Vec::new();
    assert!(copy_range(&data, 5, 2, &mut out));
    assert_eq!(out, vec![5, 6]);
    assert!(!copy_range(&data, 99, 2, &mut out));
    let mut out = Vec::new();
    assert!(copy_runs(&data, &[(0, 2), (50, 1)], &mut out).is_ok());
    assert_eq!(out, vec![0, 1, 50]);
    let mut buf = vec![0xFF; 5];
    assert_eq!(read_runs(&data, &[(7, 1), (9, 2)], &mut buf).unwrap(), 3);
    assert_eq!(buf, vec![7, 9, 10, 0xFF, 0xFF]);
}
