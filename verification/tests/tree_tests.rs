use promptgen::tree::{build_filetree, TreeNode};
use promptgen::FileNodeInput;
use promptgen::prompt::generate_prompt_string;

fn node(name: &str, path: &str) -> FileNodeInput {
    FileNodeInput { name: String::from(name), path: String::from(path) }
}

#[test]
fn two_siblings_use_tee_then_elbow() {
    let files = vec![node("x.txt", "a/x.txt"), node("y.txt", "a/y.txt")];
    let out = build_filetree("a", &files);
    assert_eq!(out, "├── x.txt\n└── y.txt\n");
}

#[test]
fn nested_tree_indents_with_guides() {
    let files = vec![
        node("main.rs", "/base/src/main.rs"),
        node("lib.rs", "/base/src/lib.rs"),
        node("README.md", "/base/README.md"),
    ];
    let out = build_filetree("/base", &files);
    assert_eq!(out, "├── README.md\n└── src\n    ├── lib.rs\n    └── main.rs\n");
}

#[test]
fn sibling_directory_uses_bar_guide() {
    let files = vec![
        node("a.txt", "r/d/a.txt"),
        node("z.txt", "r/z.txt"),
    ];
    let out = build_filetree("r", &files);
    assert_eq!(out, "├── d\n│   └── a.txt\n└── z.txt\n");
}

#[test]
fn duplicate_selection_renders_identically() {
    let once = vec![node("x.txt", "a/x.txt"), node("y.txt", "a/y.txt")];
    let twice = vec![
        node("x.txt", "a/x.txt"),
        node("x.txt", "a/x.txt"),
        node("y.txt", "a/y.txt"),
    ];
    assert_eq!(build_filetree("a", &once), build_filetree("a", &twice));
}

#[test]
fn path_outside_base_falls_back_to_full_path() {
    let files = vec![node("x.txt", "elsewhere/x.txt")];
    let out = build_filetree("a", &files);
    assert_eq!(out, "└── elsewhere\n    └── x.txt\n");
}

#[test]
fn insert_builds_sorted_children() {
    let mut root = TreeNode::new();
    root.insert(&[String::from("b")]);
    root.insert(&[String::from("a"), String::from("c")]);
    let out = root.to_string_tree("");
    assert_eq!(out, "├── a\n│   └── c\n└── b\n");
}

#[test]
fn insert_of_empty_component_list_changes_nothing() {
    let mut root = TreeNode::new();
    root.insert(&[]);
    assert_eq!(root.to_string_tree(""), "");
}

#[test]
fn prompt_substitutes_tree_and_blocks_once() {
    let files = vec![node("x.txt", "a/x.txt")];
    let contents = vec![Some(String::from("hello"))];
    let out = generate_prompt_string(
        "a",
        &files,
        &contents,
        "[{{file_path}}]\n{{file_content}}\n",
        "tree:\n{{filetree}}files:\n{{files}}",
    );
    assert_eq!(out, "tree:\n└── x.txt\nfiles:\n[x.txt]\nhello\n");
}

#[test]
fn second_files_token_stays_literal() {
    let files: Vec<FileNodeInput> = Vec::new();
    let contents: Vec<Option<String>> = Vec::new();
    let out = generate_prompt_string("a", &files, &contents, "t", "A {{files}} B {{files}}");
    assert_eq!(out, "A  B {{files}}");
}

#[test]
fn unreadable_file_contributes_no_block_but_stays_in_tree() {
    let files = vec![node("x.txt", "a/x.txt"), node("y.txt", "a/y.txt")];
    let contents = vec![None, Some(String::from("Y"))];
    let out = generate_prompt_string("a", &files, &contents, "<{{file_content}}>", "{{filetree}}|{{files}}");
    assert_eq!(out, "├── x.txt\n└── y.txt\n|<Y>");
}
