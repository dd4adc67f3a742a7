use ctf_bot::strings::{decimal_string, is_space, join, parse_i64, parse_u64, same_text, split, starts_with, trim};

#[test]
fn decimal_notation() {
    assert_eq!(decimal_string(0), "0");
    assert_eq!(decimal_string(7), "7");
    assert_eq!(decimal_string(1024), "1024");
    assert_eq!(decimal_string(u64::MAX), "18446744073709551615");
}

#[test]
fn trimming() {
    assert_eq!(trim("  a b \t\n"), "a b");
    assert_eq!(trim(""), "");
    assert_eq!(trim("   "), "");
    assert_eq!(trim("\u{3000}x\u{a0}"), "x");
}

#[test]
fn splitting_and_joining() {
    assert_eq!(split("a,b,,c", ','), vec!["a", "b", "", "c"]);
    assert_eq!(split("", ','), vec![""]);
    assert_eq!(split("abc,", ','), vec!["abc", ""]);
    let parts = vec![String::from("x"), String::from("y")];
    assert_eq!(join(&parts, "\n"), "x\ny");
    assert_eq!(join(&Vec::new(), ","), "");
}

#[test]
fn unsigned_numbers() {
    assert_eq!(parse_u64("42"), Some(42));
    assert_eq!(parse_u64("+42"), Some(42));
    assert_eq!(parse_u64("18446744073709551615"), Some(u64::MAX));
    assert_eq!(parse_u64("18446744073709551616"), None);
    assert_eq!(parse_u64(""), None);
    assert_eq!(parse_u64("+"), None);
    assert_eq!(parse_u64("-1"), None);
    assert_eq!(parse_u64("4a"), None);
}

#[test]
fn signed_numbers() {
    assert_eq!(parse_i64("-42"), Some(-42));
    assert_eq!(parse_i64("17"), Some(17));
    assert_eq!(parse_i64("-9223372036854775808"), Some(i64::MIN));
    assert_eq!(parse_i64("9223372036854775807"), Some(i64::MAX));
    assert_eq!(parse_i64("9223372036854775808"), None);
    assert_eq!(parse_i64("-"), None);
    assert_eq!(parse_i64("--1"), None);
}

#[test]
fn comparing_text() {
    assert!(same_text("abc", "abc"));
    assert!(!same_text("abc", "abd"));
    assert!(starts_with("hidden:task", "hidden:"));
    assert!(!starts_with("hid", "hidden:"));
}

#[test]
fn white_space_characters() {
    assert!(is_space(' '));
    assert!(is_space('\t'));
    assert!(is_space('\u{85}'));
    assert!(is_space('\u{2009}'));
    assert!(is_space('\u{3000}'));
    assert!(!is_space('\u{200b}'));
    assert!(!is_space('x'));
    assert_eq!(trim("  CTF{Flag}  "), "CTF{Flag}");
}
