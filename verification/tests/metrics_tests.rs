use promptgen::metrics::{collect_file_metrics, compute_file_metrics};
use promptgen::prompt::render_selected_file;

#[test]
fn readable_file_yields_valid_record() {
    let m = compute_file_metrics(String::from("f.txt"), 10, Some("l1\nl2\nl3")).unwrap();
    assert_eq!(m.file_path, "f.txt");
    assert_eq!(m.size, 10);
    assert!(m.is_valid);
    assert_eq!(m.line_count, 3);
    assert!(m.token_count > 0);
}

#[test]
fn unreadable_file_yields_invalid_record_with_real_size() {
    let m = compute_file_metrics(String::from("bin"), 4096, None).unwrap();
    assert_eq!(m.file_path, "bin");
    assert_eq!(m.size, 4096);
    assert!(!m.is_valid);
    assert_eq!(m.line_count, 0);
    assert_eq!(m.token_count, 0);
}

#[test]
fn empty_text_has_zero_counts_but_is_valid() {
    let m = compute_file_metrics(String::from("e"), 0, Some("")).unwrap();
    assert!(m.is_valid);
    assert_eq!(m.line_count, 0);
    assert_eq!(m.token_count, 0);
}

#[test]
fn token_count_is_deterministic() {
    let a = compute_file_metrics(String::from("a"), 1, Some("hello world")).unwrap();
    let b = compute_file_metrics(String::from("b"), 1, Some("hello world")).unwrap();
    assert_eq!(a.token_count, b.token_count);
    let c = compute_file_metrics(String::from("c"), 1, Some("hello world hello world")).unwrap();
    assert!(c.token_count > a.token_count);
}

#[test]
fn batch_keeps_one_record_per_file() {
    let inputs = vec![
        (String::from("good.txt"), 9, Some(String::from("a\nb\nc"))),
        (String::from("bad.bin"), 7, None),
    ];
    let out = collect_file_metrics(inputs).unwrap();
    assert_eq!(out.len(), 2);
    assert_eq!(out[0].file_path, "good.txt");
    assert!(out[0].is_valid);
    assert_eq!(out[0].line_count, 3);
    assert!(out[0].token_count > 0);
    assert_eq!(out[0].size, 9);
    assert_eq!(out[1].file_path, "bad.bin");
    assert!(!out[1].is_valid);
    assert_eq!(out[1].line_count, 0);
    assert_eq!(out[1].token_count, 0);
    assert_eq!(out[1].size, 7);
}

#[test]
fn selected_file_renders_only_when_readable() {
    let some = render_selected_file(
        "{{file_path}}: {{file_content}}",
        "x.txt",
        "a",
        "a/x.txt",
        Some(String::from("X")),
    );
    assert_eq!(some.unwrap(), "x.txt: X");
    let none = render_selected_file("t", "x.txt", "a", "a/x.txt", None);
    assert!(none.is_none());
}
