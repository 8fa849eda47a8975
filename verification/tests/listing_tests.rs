use promptgen::listing::{fetch_directory_children, EntryKind, PathEntry, RawEntry};
use promptgen::rules::{compile_rule_set, is_excluded, RuleSet};

fn raw(name: &str, path: &str, is_dir: bool) -> RawEntry {
    RawEntry { name: String::from(name), path: String::from(path), is_dir }
}

fn rules_of(files: &[(&str, &str)]) -> RuleSet {
    let pairs: Vec<(String, String)> = files
        .iter()
        .map(|(b, c)| (String::from(*b), String::from(*c)))
        .collect();
    compile_rule_set(pairs)
}

fn names(entries: &[PathEntry]) -> Vec<String> {
    entries.iter().map(|e| e.name.clone()).collect()
}

#[test]
fn directories_sort_before_files_case_insensitively() {
    let entries = vec![
        raw("b.txt", "/r/b.txt", false),
        raw("Zeta", "/r/Zeta", true),
        raw("Alpha.txt", "/r/Alpha.txt", false),
        raw("alpha", "/r/alpha", true),
    ];
    let out = fetch_directory_children(entries, &rules_of(&[]));
    assert_eq!(names(&out), vec!["alpha", "Zeta", "Alpha.txt", "b.txt"]);
    assert_eq!(out[0].kind, EntryKind::Directory);
    assert_eq!(out[1].kind, EntryKind::Directory);
    assert_eq!(out[2].kind, EntryKind::File);
    assert_eq!(out[3].kind, EntryKind::File);
}

#[test]
fn entries_that_tie_keep_input_order() {
    let entries = vec![
        raw("readme", "/r/readme", false),
        raw("README", "/r/README", false),
    ];
    let out = fetch_directory_children(entries, &rules_of(&[]));
    assert_eq!(names(&out), vec!["readme", "README"]);
}

#[test]
fn gitignored_directory_is_excluded_from_listing() {
    let rules = rules_of(&[("/repo", "build/")]);
    let entries = vec![
        raw("build", "/repo/build", true),
        raw("main.rs", "/repo/main.rs", false),
    ];
    let out = fetch_directory_children(entries, &rules);
    assert_eq!(out.len(), 1);
    assert_eq!(out[0].name, "main.rs");
    assert_eq!(out[0].kind, EntryKind::File);
    assert_eq!(out[0].path, "/repo/main.rs");
}

#[test]
fn directory_only_pattern_keeps_plain_file_of_same_name() {
    let rules = rules_of(&[("/repo", "build/")]);
    assert!(is_excluded(&rules, "/repo/build", true));
    assert!(!is_excluded(&rules, "/repo/build", false));
}

#[test]
fn unrelated_rule_file_does_not_exclude() {
    let rules = rules_of(&[("/other", "main.rs")]);
    assert!(!is_excluded(&rules, "/repo/main.rs", false));
}

#[test]
fn rule_matches_at_any_ancestor_level() {
    let rules = rules_of(&[("/repo", "*.log"), ("/repo/sub", "data/")]);
    assert!(is_excluded(&rules, "/repo/sub/x.log", false));
    assert!(is_excluded(&rules, "/repo/sub/data", true));
    assert!(!is_excluded(&rules, "/repo/sub/kept.txt", false));
}

#[test]
fn whitelist_line_wins_over_earlier_match() {
    let rules = rules_of(&[("/repo", "*.log\n!keep.log")]);
    assert!(is_excluded(&rules, "/repo/a.log", false));
    assert!(!is_excluded(&rules, "/repo/keep.log", false));
}

#[test]
fn comment_and_blank_lines_are_inert() {
    let rules = rules_of(&[("/repo", "# note\n\n*.tmp\n")]);
    assert!(is_excluded(&rules, "/repo/x.tmp", false));
    assert!(!is_excluded(&rules, "/repo/x.rs", false));
}

#[test]
fn anchored_pattern_matches_only_at_rule_directory() {
    let rules = rules_of(&[("/repo", "/top.txt")]);
    assert!(is_excluded(&rules, "/repo/top.txt", false));
    assert!(!is_excluded(&rules, "/repo/sub/top.txt", false));
}

#[test]
fn empty_rule_set_keeps_everything() {
    let rules = rules_of(&[]);
    assert!(!is_excluded(&rules, "/repo/anything", false));
}
