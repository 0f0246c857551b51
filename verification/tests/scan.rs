use http_header::scan::{
    collect_exact, collect_min, find, is_whitespace_byte, occurs_at, split, split_n, split_once,
    trim,
};

#[test]
fn find_gives_the_leftmost_occurrence() {
    assert_eq!(find(b"a\r\nb\r\nc", b"\r\n"), Some(1));
    assert_eq!(find(b"\r\n", b"\r\n"), Some(0));
    assert_eq!(find(b"abcabc", b"bc"), Some(1));
    assert_eq!(find(b"aab", b"ab"), Some(1));
}

#[test]
fn find_gives_none_without_an_occurrence() {
    assert_eq!(find(b"abc", b"\r\n"), None);
    assert_eq!(find(b"", b"x"), None);
    assert_eq!(find(b"\r", b"\r\n"), None);
    assert_eq!(find(b"ab", b"abc"), None);
}

#[test]
fn an_empty_pattern_occurs_nowhere() {
    assert_eq!(find(b"abc", b""), None);
    assert_eq!(find(b"", b""), None);
    assert!(!occurs_at(b"abc", b"", 0));
    assert_eq!(split(b"abc", b""), vec![&b"abc"[..]]);
}

#[test]
fn occurs_at_checks_one_offset() {
    assert!(occurs_at(b"GET /", b" /", 3));
    assert!(!occurs_at(b"GET /", b" /", 2));
    assert!(!occurs_at(b"GET /", b" /", 4));
    assert!(!occurs_at(b"GET /", b" /", 100));
    assert!(!occurs_at(b"GET /", b" /", usize::MAX));
}

#[test]
fn split_once_parts_at_the_first_occurrence() {
    assert_eq!(split_once(b"Host: a:b", b":"), Some((&b"Host"[..], &b" a:b"[..])));
    assert_eq!(split_once(b"X-Empty:", b":"), Some((&b"X-Empty"[..], &b""[..])));
    assert_eq!(split_once(b":x", b":"), Some((&b""[..], &b"x"[..])));
    assert_eq!(split_once(b"no colon", b":"), None);
    assert_eq!(split_once(b"", b":"), None);
}

#[test]
fn split_parts_at_every_occurrence() {
    assert_eq!(split(b"GET /x HTTP/1.1", b" "), vec![&b"GET"[..], &b"/x"[..], &b"HTTP/1.1"[..]]);
    assert_eq!(split(b"a  b", b" "), vec![&b"a"[..], &b""[..], &b"b"[..]]);
    assert_eq!(split(b" a ", b" "), vec![&b""[..], &b"a"[..], &b""[..]]);
    assert_eq!(split(b"abc", b" "), vec![&b"abc"[..]]);
    assert_eq!(split(b"", b" "), vec![&b""[..]]);
    assert_eq!(split(b"a\r\nb\r\n", b"\r\n"), vec![&b"a"[..], &b"b"[..], &b""[..]]);
}

#[test]
fn split_searches_behind_the_last_occurrence() {
    assert_eq!(split(b"aaa", b"aa"), vec![&b""[..], &b"a"[..]]);
    assert_eq!(split(b"\r\n\r\n\r", b"\r\n\r"), vec![&b""[..], &b"\n\r"[..]]);
}

#[test]
fn split_n_keeps_the_rest_in_the_last_piece() {
    assert_eq!(split_n(b"a:b:c", b":", 2), vec![&b"a"[..], &b"b:c"[..]]);
    assert_eq!(split_n(b"a:b:c", b":", 3), vec![&b"a"[..], &b"b"[..], &b"c"[..]]);
    assert_eq!(split_n(b"a:b:c", b":", 9), vec![&b"a"[..], &b"b"[..], &b"c"[..]]);
    assert_eq!(split_n(b"a:b:c", b":", 1), vec![&b"a:b:c"[..]]);
    assert_eq!(split_n(b"abc", b":", 2), vec![&b"abc"[..]]);
    assert_eq!(split_n(b"", b":", 2), vec![&b""[..]]);
    assert_eq!(
        split_n(b"h\r\n\r\nb\r\n\r\n", b"\r\n\r\n", 2),
        vec![&b"h"[..], &b"b\r\n\r\n"[..]]
    );
}

#[test]
fn split_n_of_zero_gives_no_piece() {
    let none: Vec<&[u8]> = Vec::new();
    assert_eq!(split_n(b"a:b", b":", 0), none);
    assert_eq!(split_n(b"", b":", 0), none);
}

#[test]
fn collect_exact_wants_the_very_count() {
    assert_eq!(collect_exact(split(b"a b c", b" "), 3), Some(vec![&b"a"[..], &b"b"[..], &b"c"[..]]));
    assert_eq!(collect_exact(split(b"a b", b" "), 3), None);
    assert_eq!(collect_exact(split(b"a b c d", b" "), 3), None);
    assert_eq!(collect_exact(Vec::new(), 0), Some(Vec::new()));
}

#[test]
fn collect_min_wants_at_least_the_count() {
    assert_eq!(collect_min(split_n(b"a:b", b":", 2), 2), Some(vec![&b"a"[..], &b"b"[..]]));
    assert_eq!(collect_min(split(b"a:b:c", b":"), 2), Some(vec![&b"a"[..], &b"b"[..], &b"c"[..]]));
    assert_eq!(collect_min(split_n(b"ab", b":", 2), 2), None);
    assert_eq!(collect_min(Vec::new(), 1), None);
}

#[test]
fn whitespace_is_space_tab_and_the_line_bytes() {
    for b in [b' ', b'\t', b'\n', 0x0c, b'\r'] {
        assert!(is_whitespace_byte(b));
    }
    for b in [0u8, 0x0b, b'a', b'0', 0x7f, 0xa0, 0xff] {
        assert!(!is_whitespace_byte(b));
    }
}

#[test]
fn trim_drops_whitespace_at_both_ends_only() {
    assert_eq!(trim(b"  a b \t\r\n"), b"a b");
    assert_eq!(trim(b"a"), b"a");
    assert_eq!(trim(b" a"), b"a");
    assert_eq!(trim(b"a "), b"a");
    assert_eq!(trim(b""), b"");
    assert_eq!(trim(b" \t\r\n\x0c"), b"");
    assert_eq!(trim(b"\x0ba\x0b"), b"\x0ba\x0b");
}
