use promptgen::template::{apply_template, render_file_block};
use promptgen::prompt::{
    extract_completion, prepare_convert_request, prepare_enhance_request,
};

#[test]
fn file_template_expands_name_path_content() {
    let out = render_file_block(
        "N={{file_name}} P={{file_path}} C={{file_content}}",
        "n",
        "p",
        "body",
    );
    assert_eq!(out, "N=n P=p C=body");
}

#[test]
fn content_containing_name_token_stays_verbatim() {
    let out = render_file_block(
        "N={{file_name}} C={{file_content}}",
        "n",
        "p",
        "x{{file_name}}y",
    );
    assert_eq!(out, "N=n C=x{{file_name}}y");
}

#[test]
fn content_substitution_is_not_rescanned() {
    let out = render_file_block("{{file_name}}: {{file_content}}", "a.txt", "a.txt", "{{file_name}}");
    assert_eq!(out, "a.txt: {{file_name}}");
}

#[test]
fn apply_template_replaces_first_occurrence_only() {
    let out = apply_template("{{x}} {{x}}", &[("{{x}}", "1")]);
    assert_eq!(out, "1 {{x}}");
}

#[test]
fn apply_template_leaves_unknown_placeholder_verbatim() {
    let out = apply_template("{{nope}}", &[("{{x}}", "1")]);
    assert_eq!(out, "{{nope}}");
}

#[test]
fn apply_template_applies_pairs_in_order() {
    let out = apply_template(
        "a b c",
        &[("a", "b"), ("b", "z")],
    );
    // "a" becomes "b" first, then the first "b" (the new one) becomes "z".
    assert_eq!(out, "z b c");
}

#[test]
fn enhance_request_replaces_every_marker() {
    let out = prepare_enhance_request("Do %%prompt%% and %%prompt%%", "T");
    assert_eq!(out, "Do T and T");
}

#[test]
fn convert_request_replaces_format_then_prompt() {
    let out = prepare_convert_request("%%format%% :: %%prompt%%", "xml", "p");
    assert_eq!(out, "xml :: p");
}

#[test]
fn extract_completion_takes_first_choice() {
    let r = extract_completion(vec![String::from("one"), String::from("two")]);
    assert_eq!(r.unwrap(), "one");
}

#[test]
fn extract_completion_rejects_empty_answer() {
    let r = extract_completion(Vec::new());
    assert_eq!(r.unwrap_err(), "Invalid response format: no choices found");
}
