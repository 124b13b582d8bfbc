use gitzeug::model::build_tree;
use gitzeug::render::render_tree;

fn paths(v: &[&str]) -> Vec<String> {
    v.iter().map(|s| s.to_string()).collect()
}

fn rendered(v: &[&str]) -> Vec<String> {
    render_tree(&build_tree(&paths(v)), "", true)
}

#[test]
fn root_emits_no_line() {
    let lines = rendered(&[]);
    assert_eq!(lines.len(), 0);
}

#[test]
fn single_file_line() {
    let lines = rendered(&["README.md"]);
    assert_eq!(lines, vec!["└── README.md".to_string()]);
}

#[test]
fn interior_and_last_connectors() {
    let lines = rendered(&["x/1.txt", "y/2.txt"]);
    assert_eq!(
        lines,
        vec![
            "├── x".to_string(),
            "│   └── 1.txt".to_string(),
            "└── y".to_string(),
            "    └── 2.txt".to_string(),
        ]
    );
}

#[test]
fn directories_render_before_files() {
    let lines = rendered(&["b.txt", "a", "a/x.txt"]);
    assert_eq!(
        lines,
        vec![
            "├── a".to_string(),
            "│   └── x.txt".to_string(),
            "└── b.txt".to_string(),
        ]
    );
}

#[test]
fn lines_show_base_names_only() {
    let lines = rendered(&["src/deep/file.rs"]);
    assert_eq!(
        lines,
        vec![
            "└── src".to_string(),
            "    └── deep".to_string(),
            "        └── file.rs".to_string(),
        ]
    );
}

#[test]
fn interior_siblings_continue_the_bar() {
    let lines = rendered(&["a/1", "a/2", "b"]);
    assert_eq!(
        lines,
        vec![
            "├── a".to_string(),
            "│   ├── 1".to_string(),
            "│   └── 2".to_string(),
            "└── b".to_string(),
        ]
    );
}

#[test]
fn duplicated_listing_renders_identically() {
    let once = rendered(&["src/a.rs", "src", "README.md"]);
    let twice = rendered(&["src/a.rs", "src", "README.md", "src/a.rs", "src", "README.md"]);
    assert_eq!(once, twice);
}

#[test]
fn permuted_listing_renders_identically() {
    let one = rendered(&["b", "a/c.txt", "a", "b/d"]);
    let two = rendered(&["b/d", "a", "b", "a/c.txt"]);
    assert_eq!(one, two);
}

#[test]
fn empty_named_node_emits_no_line_and_resets_prefix() {
    let lines = rendered(&["/a"]);
    assert_eq!(lines, vec!["└── a".to_string()]);
}

#[test]
fn renderer_honours_given_prefix_and_flag() {
    let tree = build_tree(&paths(&["only.txt"]));
    let lines = render_tree(&tree.children[0], ">>", false);
    assert_eq!(lines, vec![">>├── only.txt".to_string()]);
}
