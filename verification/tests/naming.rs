use bk::digits::decimal_string;
use bk::paths::{bad_extension, basename};
use bk::pattern::{is_backup, original_name};
use bk::restore::is_affirmative;

#[test]
fn recognizes_plain_and_numbered_backups() {
    assert!(is_backup("a.txt.bak"));
    assert!(is_backup("a.txt.bak.1"));
    assert!(is_backup("a.txt.bak.42"));
}

#[test]
fn rejects_names_without_the_suffix() {
    assert!(!is_backup("a.txt"));
    assert!(!is_backup("a.bak.txt"));
    assert!(!is_backup("a.txtbak"));
}

#[test]
fn recognizes_degenerate_suffix_shapes() {
    assert!(is_backup("a.bak."));
    assert!(is_backup("a.bak..12"));
    assert!(is_backup("a.bak5"));
    assert!(is_backup(".bak"));
    assert!(!is_backup("bak"));
}

#[test]
fn original_name_strips_the_suffix() {
    assert_eq!(original_name("a.txt.bak"), "a.txt");
    assert_eq!(original_name("a.txt.bak.42"), "a.txt");
    assert_eq!(original_name("report.csv.bak.2"), "report.csv");
    assert_eq!(original_name("dir/report.csv.bak"), "dir/report.csv");
}

#[test]
fn original_name_keeps_non_backups() {
    assert_eq!(original_name("a.txt"), "a.txt");
    assert_eq!(original_name("a.bak.txt"), "a.bak.txt");
}

#[test]
fn original_name_strips_only_the_last_suffix() {
    assert_eq!(original_name("a.bak.bak"), "a.bak");
    assert_eq!(original_name("a.bak.1.bak"), "a.bak.1");
    assert_eq!(original_name("a.bak.1.bak.2"), "a.bak.1");
}

#[test]
fn basename_returns_the_last_component() {
    assert_eq!(basename("dir/a.txt"), "a.txt");
    assert_eq!(basename("a.txt"), "a.txt");
    assert_eq!(basename("x/y/z"), "z");
    assert_eq!(basename("x/y/.hidden"), ".hidden");
}

#[test]
fn bad_extension_means_a_space_in_it() {
    assert!(bad_extension("a.foo bar"));
    assert!(!bad_extension("a.txt"));
    assert!(!bad_extension("dir/a.bak.2"));
    assert!(bad_extension("my doc.bak.2 x"));
}

#[test]
fn only_a_leading_y_affirms() {
    assert!(is_affirmative("y\n"));
    assert!(is_affirmative("Y\n"));
    assert!(is_affirmative("yes"));
    assert!(!is_affirmative("n\n"));
    assert!(!is_affirmative(""));
    assert!(!is_affirmative("why"));
    assert!(!is_affirmative(" y"));
}

#[test]
fn decimal_rendering_is_canonical() {
    assert_eq!(decimal_string(0), "0");
    assert_eq!(decimal_string(7), "7");
    assert_eq!(decimal_string(10), "10");
    assert_eq!(decimal_string(42), "42");
    assert_eq!(decimal_string(u64::MAX), "18446744073709551615");
}
