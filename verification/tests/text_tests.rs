use cat_history::text::{append_decimal, build_like_pattern, find_ci, normalize_newlines, str_eq,
    str_lt, trim_str};

#[test]
fn normalize_replaces_crlf() {
    assert_eq!(normalize_newlines("a\r\nb"), "a\nb");
    assert_eq!(normalize_newlines("one\r\ntwo\r\nthree"), "one\ntwo\nthree");
}

#[test]
fn normalize_keeps_lone_carriage_returns() {
    assert_eq!(normalize_newlines("a\rb"), "a\rb");
    assert_eq!(normalize_newlines("plain"), "plain");
    assert_eq!(normalize_newlines(""), "");
}

#[test]
fn normalize_leaves_no_crlf_even_in_runs() {
    let out = normalize_newlines("\r\r\n");
    assert!(!out.contains("\r\n"));
    assert_eq!(out, "\n");
    let out2 = normalize_newlines("a\r\r\nb\r\nc\r");
    assert!(!out2.contains("\r\n"));
    assert_eq!(out2, "a\nb\nc\r");
}

#[test]
fn trim_removes_surrounding_whitespace() {
    assert_eq!(trim_str("  hi  "), "hi");
    assert_eq!(trim_str("\t\n x \r\n"), "x");
    assert_eq!(trim_str("   "), "");
    assert_eq!(trim_str("inner space kept"), "inner space kept");
}

#[test]
fn str_eq_compares_characters() {
    assert!(str_eq("abc", "abc"));
    assert!(!str_eq("abc", "abd"));
    assert!(!str_eq("abc", "ab"));
    assert!(str_eq("", ""));
}

#[test]
fn str_lt_is_code_point_order() {
    assert!(str_lt("apple", "banana"));
    assert!(!str_lt("banana", "apple"));
    assert!(str_lt("a", "ab"));
    assert!(!str_lt("same", "same"));
}

#[test]
fn like_pattern_escapes_wildcards() {
    assert_eq!(build_like_pattern("%foo"), Some("%\\%foo%".to_string()));
    assert_eq!(build_like_pattern("a_b"), Some("%a\\_b%".to_string()));
    assert_eq!(build_like_pattern("back\\slash"), Some("%back\\\\slash%".to_string()));
    assert_eq!(build_like_pattern("plain"), Some("%plain%".to_string()));
}

#[test]
fn like_pattern_trims_and_rejects_blank() {
    assert_eq!(build_like_pattern("  q  "), Some("%q%".to_string()));
    assert_eq!(build_like_pattern(""), None);
    assert_eq!(build_like_pattern("   "), None);
}

#[test]
fn find_ci_ignores_ascii_case() {
    assert!(find_ci("Hello World", "WORLD"));
    assert!(find_ci("HELLO", "ell"));
    assert!(find_ci("abc", ""));
    assert!(!find_ci("abc", "xyz"));
    assert!(!find_ci("ab", "abc"));
}

#[test]
fn decimal_digits_render() {
    let mut s = String::new();
    append_decimal(&mut s, 0);
    assert_eq!(s, "0");
    let mut t = String::from("n=");
    append_decimal(&mut t, 12345);
    assert_eq!(t, "n=12345");
}
