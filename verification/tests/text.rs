use zhtw_mcp::excluded::{is_excluded, ByteRange};
use zhtw_mcp::text::{bytes_before, contains_str, find_from};

#[test]
fn find_from_gives_leftmost_match_at_or_after_start() {
    let hay = "abcabc".as_bytes();
    assert_eq!(find_from(hay, b"bc", 0), Some(1));
    assert_eq!(find_from(hay, b"bc", 2), Some(4));
    assert_eq!(find_from(hay, b"bc", 5), None);
    assert_eq!(find_from(hay, b"", 6), Some(6));
    assert_eq!(find_from(hay, b"abcabcx", 0), None);
}

#[test]
fn contains_str_matches_utf8_substrings() {
    assert!(contains_str("我們的線程很慢", "線程"));
    assert!(!contains_str("我們的線程很慢", "執行緒"));
    assert!(contains_str("abc", ""));
    assert!(!contains_str("", "a"));
}

#[test]
fn byte_order_is_lexicographic() {
    assert!(bytes_before(b"thread", b"user"));
    assert!(!bytes_before(b"user", b"thread"));
    assert!(bytes_before(b"ab", b"abc"));
    assert!(!bytes_before(b"abc", b"abc"));
}

#[test]
fn exclusion_is_any_overlap() {
    let ranges = [ByteRange { start: 10, end: 20 }];
    assert!(is_excluded(12, 14, &ranges));
    assert!(is_excluded(5, 11, &ranges));
    assert!(is_excluded(19, 25, &ranges));
    assert!(!is_excluded(20, 25, &ranges));
    assert!(!is_excluded(0, 10, &ranges));
    assert!(!is_excluded(0, 10, &[]));
}
