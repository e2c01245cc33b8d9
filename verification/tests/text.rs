use streamd_server::text::{push_decimal, str_eq, trim_str};

#[test]
fn decimal_formatting() {
    let mut s = String::from("n=");
    push_decimal(&mut s, 0);
    assert_eq!(s, "n=0");
    let mut s = String::new();
    push_decimal(&mut s, 4_294_967_295);
    assert_eq!(s, "4294967295");
    let mut s = String::new();
    push_decimal(&mut s, 1020);
    assert_eq!(s, "1020");
}

#[test]
fn trimming_removes_unicode_whitespace() {
    assert_eq!(trim_str("  Intel(R) UHD\t\n"), "Intel(R) UHD");
    assert_eq!(trim_str("\u{3000}GPU\u{a0}"), "GPU");
    assert_eq!(trim_str("   "), "");
    assert_eq!(trim_str(""), "");
    assert_eq!(trim_str("a b"), "a b");
}

#[test]
fn string_equality_by_characters() {
    assert!(str_eq("windows:0:1", "windows:0:1"));
    assert!(!str_eq("windows:0:1", "windows:0:10"));
    assert!(!str_eq("abc", "abd"));
    assert!(str_eq("", ""));
}
