use bk::allocate::next_backup_name;

fn names(list: &[&str]) -> Vec<String> {
    list.iter().map(|s| s.to_string()).collect()
}

#[test]
fn first_backup_gets_the_plain_name() {
    assert_eq!(next_backup_name("report.csv", &names(&[]), false), "report.csv.bak");
}

#[test]
fn second_backup_gets_version_one() {
    assert_eq!(next_backup_name("report.csv", &names(&[]), true), "report.csv.bak.1");
}

#[test]
fn third_backup_gets_version_two() {
    let cands = names(&["report.csv.bak.1"]);
    assert_eq!(next_backup_name("report.csv", &cands, true), "report.csv.bak.2");
}

#[test]
fn the_largest_version_wins_whatever_the_order() {
    let cands = names(&["s.bak.3", "s.bak.5", "s.bak.1"]);
    assert_eq!(next_backup_name("s", &cands, false), "s.bak.6");
    let cands = names(&["s.bak.5", "s.bak.1", "s.bak.3"]);
    assert_eq!(next_backup_name("s", &cands, false), "s.bak.6");
}

#[test]
fn deleted_intermediate_versions_do_not_matter() {
    let cands = names(&["report.csv.bak.1", "report.csv.bak.7"]);
    assert_eq!(next_backup_name("report.csv", &cands, true), "report.csv.bak.8");
}

#[test]
fn a_bare_bak_suffix_counts_as_version_zero() {
    let cands = names(&["report.csv.old.bak"]);
    assert_eq!(next_backup_name("report.csv", &cands, false), "report.csv.bak.1");
}

#[test]
fn malformed_candidates_are_skipped() {
    let cands = names(&["report.csv.bak.notes", "report.csv.bak."]);
    assert_eq!(next_backup_name("report.csv", &cands, false), "report.csv.bak");
    assert_eq!(next_backup_name("report.csv", &cands, true), "report.csv.bak.1");
}

#[test]
fn a_spaced_extension_is_skipped() {
    let cands = names(&["a.bak.2 2"]);
    assert_eq!(next_backup_name("a", &cands, false), "a.bak");
}

#[test]
fn versions_that_overflow_are_skipped() {
    let cands = names(&["a.bak.18446744073709551615"]);
    assert_eq!(next_backup_name("a", &cands, false), "a.bak");
    let cands = names(&["a.bak.18446744073709551614"]);
    assert_eq!(next_backup_name("a", &cands, false), "a.bak.18446744073709551615");
}

#[test]
fn leading_zeros_are_read_as_their_value() {
    let cands = names(&["a.bak.007"]);
    assert_eq!(next_backup_name("a", &cands, false), "a.bak.8");
}

#[test]
fn sources_with_odd_endings_round_trip() {
    for s in ["report2", "a.bak", "a.bak.9", "x.", ""] {
        let name = next_backup_name(s, &names(&[]), false);
        assert_eq!(bk::pattern::original_name(&name), s);
        let name = next_backup_name(s, &vec![format!("{}.bak.4", s)], false);
        assert_eq!(bk::pattern::original_name(&name), s);
    }
}
