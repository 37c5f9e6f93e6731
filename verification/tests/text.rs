use niks3::text::chars;
use niks3::text::decimal_string;
use niks3::text::ends_with;
use niks3::text::join;
use niks3::text::split_after_last;
use niks3::text::split_before_first;
use niks3::text::starts_with;
use niks3::text::strip_prefix;
use niks3::text::strip_suffix;

#[test]
fn chars_are_the_characters_in_order() {
    assert_eq!(chars(""), Vec::<char>::new());
    assert_eq!(chars("aé🦀"), vec!['a', 'é', '🦀']);
}

#[test]
fn prefixes_and_suffixes() {
    assert!(starts_with("nar/abc", "nar/"));
    assert!(starts_with("nar/", "nar/"));
    assert!(starts_with("x", ""));
    assert!(!starts_with("nar", "nar/"));
    assert!(!starts_with("xnar/", "nar/"));
    assert!(ends_with("abc.narinfo", ".narinfo"));
    assert!(ends_with(".narinfo", ".narinfo"));
    assert!(ends_with("x", ""));
    assert!(!ends_with("narinfo", ".narinfo"));
    assert!(!ends_with("abc.narinfo.", ".narinfo"));
    assert_eq!(strip_prefix("nar/abc", "nar/"), Some("abc"));
    assert_eq!(strip_prefix("nar/", "nar/"), Some(""));
    assert_eq!(strip_prefix("abc", "nar/"), None);
    assert_eq!(strip_suffix("abc.nar.zst", ".nar.zst"), Some("abc"));
    assert_eq!(strip_suffix("abc", ".nar.zst"), None);
    assert_eq!(strip_prefix("é🦀x", "é"), Some("🦀x"));
    assert_eq!(strip_suffix("é🦀x", "🦀x"), Some("é"));
}

#[test]
fn splitting_at_a_character() {
    assert_eq!(split_before_first("abc-def-ghi", '-'), "abc");
    assert_eq!(split_before_first("abc", '-'), "abc");
    assert_eq!(split_before_first("-abc", '-'), "");
    assert_eq!(split_before_first("", '-'), "");
    assert_eq!(split_after_last("/nix/store/abc", '/'), "abc");
    assert_eq!(split_after_last("abc", '/'), "abc");
    assert_eq!(split_after_last("abc/", '/'), "");
    assert_eq!(split_after_last("", '/'), "");
    assert_eq!(split_after_last("é/ü", '/'), "ü");
}

#[test]
fn numbers_in_decimal() {
    assert_eq!(decimal_string(0), "0");
    assert_eq!(decimal_string(7), "7");
    assert_eq!(decimal_string(10), "10");
    assert_eq!(decimal_string(1234567890), "1234567890");
    assert_eq!(decimal_string(u64::MAX), "18446744073709551615");
    for n in [9u64, 99, 100, 101, 4096, 999999] {
        assert_eq!(decimal_string(n), n.to_string());
    }
}

#[test]
fn joining_two_strings() {
    assert_eq!(join("", ""), "");
    assert_eq!(join("nar/", "abc"), "nar/abc");
}
