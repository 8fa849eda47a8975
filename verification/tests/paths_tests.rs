use promptgen::paths::{
    ancestor_chain, is_under_str, parent_of_str, relative_to, split_components,
};
use promptgen::text::{count_lines, replace_all_str, replace_first_str, split_lines, str_eq};

#[test]
fn relative_strips_base_at_component_boundary() {
    assert_eq!(relative_to("a", "a/x.txt"), "x.txt");
    assert_eq!(relative_to("/repo", "/repo/src/f"), "src/f");
}

#[test]
fn relative_falls_back_when_not_under_base() {
    assert_eq!(relative_to("a", "b/x"), "b/x");
    assert_eq!(relative_to("a", "ab/x"), "ab/x");
    assert_eq!(relative_to("", "x"), "x");
    assert_eq!(relative_to("a", "a"), "a");
}

#[test]
fn under_test_requires_separator() {
    assert!(is_under_str("a", "a/x"));
    assert!(!is_under_str("a", "ax"));
    assert!(!is_under_str("a", "a"));
    assert!(!is_under_str("", "x"));
}

#[test]
fn components_skip_empty_segments() {
    assert_eq!(split_components("a/b/c"), vec!["a", "b", "c"]);
    assert_eq!(split_components("/a//b/"), vec!["a", "b"]);
    let empty: Vec<String> = Vec::new();
    assert_eq!(split_components(""), empty);
}

#[test]
fn parent_walks_one_level_up() {
    assert_eq!(parent_of_str("/repo/sub"), Some(String::from("/repo")));
    assert_eq!(parent_of_str("/repo"), Some(String::from("/")));
    assert_eq!(parent_of_str("/"), None);
    assert_eq!(parent_of_str("name"), Some(String::from("")));
    assert_eq!(parent_of_str(""), None);
}

#[test]
fn ancestor_chain_stops_at_boundary() {
    assert_eq!(
        ancestor_chain("/a/b/c", "/a"),
        vec!["/a/b/c", "/a/b", "/a"]
    );
}

#[test]
fn ancestor_chain_walks_to_root_when_boundary_is_elsewhere() {
    assert_eq!(ancestor_chain("/a/b", "/x"), vec!["/a/b", "/a", "/"]);
}

#[test]
fn ancestor_chain_of_boundary_is_itself() {
    assert_eq!(ancestor_chain("rel", "rel"), vec!["rel"]);
}

#[test]
fn line_count_counts_terminated_and_final_segments() {
    assert_eq!(count_lines(""), 0);
    assert_eq!(count_lines("a"), 1);
    assert_eq!(count_lines("a\n"), 1);
    assert_eq!(count_lines("\n"), 1);
    assert_eq!(count_lines("a\nb\nc"), 3);
    assert_eq!(count_lines("a\r\nb"), 2);
}

#[test]
fn lines_strip_carriage_return_before_newline_only() {
    assert_eq!(split_lines("x\r\ny\nz"), vec!["x", "y", "z"]);
    assert_eq!(split_lines("a\r"), vec!["a\r"]);
}

#[test]
fn replace_first_touches_leftmost_occurrence() {
    assert_eq!(replace_first_str("aaa", "a", "b"), "baa");
    assert_eq!(replace_first_str("abc", "x", "y"), "abc");
}

#[test]
fn replace_all_does_not_rescan_inserted_text() {
    assert_eq!(replace_all_str("aaa", "a", "b"), "bbb");
    assert_eq!(replace_all_str("ab", "a", "ab"), "abb");
}

#[test]
fn string_equality_is_by_characters() {
    assert!(str_eq("héllo", "héllo"));
    assert!(!str_eq("a", "ab"));
}
