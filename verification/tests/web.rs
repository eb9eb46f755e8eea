use rsdirstat::web::{collapse_slashes, is_safe_component, json_escape, origin_is_loopback};

#[test]
fn collapse_slashes_matches_existing_js_behavior() {
    assert_eq!(collapse_slashes("///a//b".into()), "/a/b");
    assert_eq!(collapse_slashes("/".into()), "/");
}

#[test]
fn collapse_slashes_keeps_single_slashes() {
    assert_eq!(collapse_slashes("a/b/c/".into()), "a/b/c/");
    assert_eq!(collapse_slashes("".into()), "");
}

#[test]
fn json_escape_escapes_quotes_backslashes_and_controls() {
    assert_eq!(json_escape("plain"), "plain");
    assert_eq!(json_escape("a\"b\\c"), "a\\\"b\\\\c");
    assert_eq!(json_escape("x\ny\rz\t"), "x\\ny\\rz\\t");
    assert_eq!(json_escape("\u{1}\u{1f}"), "\\u0001\\u001f");
    assert_eq!(json_escape("日本"), "日本");
}

#[test]
fn loopback_origins_are_accepted() {
    assert!(origin_is_loopback("http://localhost:8080"));
    assert!(origin_is_loopback("http://127.0.0.1:3000/path"));
    assert!(origin_is_loopback("http://[::1]:9000"));
    assert!(origin_is_loopback("localhost"));
}

#[test]
fn other_origins_are_refused() {
    assert!(!origin_is_loopback("http://example.com"));
    assert!(!origin_is_loopback("http://localhost.evil.com"));
    assert!(!origin_is_loopback("http://128.0.0.1"));
    assert!(!origin_is_loopback("http://[::2]:80"));
    assert!(!origin_is_loopback(""));
}

#[test]
fn safe_components() {
    assert!(is_safe_component("file.txt"));
    assert!(is_safe_component("a/"));
    assert!(is_safe_component("a//./"));
    assert!(is_safe_component("..."));
    assert!(is_safe_component(".hidden"));
}

#[test]
fn unsafe_components() {
    assert!(!is_safe_component(""));
    assert!(!is_safe_component("."));
    assert!(!is_safe_component(".."));
    assert!(!is_safe_component("/etc"));
    assert!(!is_safe_component("a/b"));
    assert!(!is_safe_component("./a"));
    assert!(!is_safe_component("a/.."));
}

#[test]
fn only_loopback_addresses_pass_as_127() {
    assert!(origin_is_loopback("http://127.255.255.254:8000"));
    assert!(origin_is_loopback("https://127.0.0.1"));
    assert!(!origin_is_loopback("http://127.evil.example"));
    assert!(!origin_is_loopback("http://127.0.0.1.evil.example"));
    assert!(!origin_is_loopback("http://127.0.0.256"));
    assert!(!origin_is_loopback("http://127.1"));
    assert!(!origin_is_loopback("http://127.0.0."));
    assert!(!origin_is_loopback("http://1270.0.0.1"));
}
