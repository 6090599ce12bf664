use winiso::download::hash::{checksum_matches, verify_sha1, FileCheck, CHUNK_SIZE};
use winiso::download::transfer::{
    check_existing, check_total, is_skipped, judge_existing, on_response, partial_path,
    range_header, Existing, Transfer, Verdict,
};

const ABC: &str = "a9993e364706816aba3e25717850c26c9cd0d89d";

#[test]
fn checksums() {
    assert!(verify_sha1(b"abc", ABC));
    assert!(verify_sha1(b"abc", &ABC.to_uppercase()));
    assert!(!verify_sha1(b"abd", ABC));
    assert!(verify_sha1(b"", "da39a3ee5e6b4b0d3255bfef95601890afd80709"));
    assert!(checksum_matches(&[0xAB, 0x01], "ab01"));
    assert!(!checksum_matches(&[0xAB, 0x01], "ab1"));
    assert_eq!(CHUNK_SIZE, 256 * 1024);
}

#[test]
fn checksums_piece_by_piece() {
    let mut check = FileCheck::begin();
    check.feed(b"a");
    check.feed(b"");
    check.feed(b"bc");
    assert!(check.matches(ABC));
    let mut check = FileCheck::begin();
    check.feed(b"ac");
    assert!(!check.matches(ABC));
}

#[test]
fn files_that_are_there() {
    assert_eq!(check_existing(None, Some(ABC)), Existing::Missing);
    assert_eq!(check_existing(Some(b"x"), None), Existing::Unchecked);
    assert_eq!(check_existing(Some(b"abc"), Some(ABC)), Existing::Verified);
    assert_eq!(check_existing(Some(b"x"), Some(ABC)), Existing::Mismatch);
    assert_eq!(judge_existing(true, true, false), Existing::Mismatch);
    assert!(!is_skipped(Existing::Missing));
    assert!(is_skipped(Existing::Unchecked));
    assert!(is_skipped(Existing::Verified));
    assert!(!is_skipped(Existing::Mismatch));
    assert_eq!(partial_path("/a/b.iso"), "/a/b.iso.part");
}

#[test]
fn ranges() {
    assert_eq!(range_header(0), None);
    assert_eq!(range_header(1234), Some("bytes=1234-".to_string()));
}

fn transfer(append: bool, start: u64, total: Option<u64>) -> Verdict {
    Verdict::Transfer(Transfer { append, start, total })
}

#[test]
fn answers_of_the_server() {
    // A new download, a resumed one, and one that is not resumed.
    assert_eq!(on_response(200, Some("100"), 0, None, None), transfer(false, 0, Some(100)));
    assert_eq!(
        on_response(206, Some("60"), 40, Some(40), None),
        transfer(true, 40, Some(100))
    );
    assert_eq!(
        on_response(200, Some("100"), 40, Some(40), None),
        transfer(false, 0, Some(100))
    );
    assert_eq!(on_response(200, None, 0, None, Some(7)), transfer(false, 0, Some(7)));
    assert_eq!(on_response(200, Some("x"), 0, None, None), transfer(false, 0, None));
    // Nothing behind what is there.
    assert_eq!(on_response(416, None, 40, Some(40), None), Verdict::Complete);
    assert_eq!(on_response(416, None, 40, Some(40), Some(40)), Verdict::Complete);
    assert_eq!(on_response(416, None, 40, Some(40), Some(50)), Verdict::Restart);
    assert_eq!(on_response(416, None, 0, None, None), Verdict::Restart);
    // Refused.
    assert_eq!(on_response(404, None, 0, None, None), Verdict::Refused);
    assert_eq!(on_response(503, None, 0, None, None), Verdict::Refused);
}

#[test]
fn totals_that_cannot_be_counted() {
    let max = u64::MAX.to_string();
    assert!(check_total(200, Some(&max), 5, None));
    assert!(!check_total(206, Some(&max), 5, None));
    assert!(check_total(206, Some(&max), 0, None));
    assert!(check_total(206, None, 5, Some(1)));
}

#[test]
fn a_resumed_download_is_whole() {
    let whole = b"0123456789";
    let part = &whole[..4];
    for (status, body) in [(206u16, &whole[4..]), (200, &whole[..])] {
        let v = on_response(status, None, part.len() as u64, Some(part.len() as u64), None);
        let t = match v {
            Verdict::Transfer(t) => t,
            _ => panic!(),
        };
        let mut file = if t.append { part.to_vec() } else { Vec::new() };
        file.extend_from_slice(body);
        assert_eq!(file, whole.to_vec());
    }
}
