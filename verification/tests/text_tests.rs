use flaunt::text::{find_char_from, str_eq, str_has_prefix, str_lt, substring_trimmed,
    usize_to_string};

#[test]
fn decimal_rendering() {
    assert_eq!(usize_to_string(0), "0");
    assert_eq!(usize_to_string(7), "7");
    assert_eq!(usize_to_string(42), "42");
    assert_eq!(usize_to_string(100), "100");
    assert_eq!(usize_to_string(90210), "90210");
}

#[test]
fn lexicographic_order() {
    assert!(str_lt("Go", "Rust"));
    assert!(!str_lt("Rust", "Go"));
    assert!(!str_lt("Go", "Go"));
    assert!(str_lt("", "a"));
    assert!(str_lt("ab", "b"));
    assert!(str_lt("ab", "abc"));
}

#[test]
fn string_equality_by_characters() {
    assert!(str_eq("abc", "abc"));
    assert!(!str_eq("abc", "abd"));
    assert!(!str_eq("abc", "ab"));
    assert!(str_eq("", ""));
}

#[test]
fn prefix_recognition() {
    assert!(str_has_prefix("// a: 1", "//"));
    assert!(str_has_prefix("x", ""));
    assert!(!str_has_prefix("/", "//"));
    assert!(!str_has_prefix("-- a", "//"));
}

#[test]
fn character_search() {
    assert_eq!(find_char_from("a:b:c", 0, ':'), 1);
    assert_eq!(find_char_from("a:b:c", 2, ':'), 3);
    assert_eq!(find_char_from("abc", 0, ':'), 3);
}

#[test]
fn trimming_keeps_inner_spaces() {
    assert_eq!(substring_trimmed("  a b  ", 0, 7), "a b");
    assert_eq!(substring_trimmed("  a b  ", 1, 4), "a");
    assert_eq!(substring_trimmed("    ", 0, 4), "");
    assert_eq!(substring_trimmed("xyz", 1, 1), "");
}
