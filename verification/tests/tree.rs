use gitzeug::model::{build_tree, TreeNode};

fn paths(v: &[&str]) -> Vec<String> {
    v.iter().map(|s| s.to_string()).collect()
}

fn assert_same_tree(a: &TreeNode, b: &TreeNode) {
    assert_eq!(a.path, b.path);
    assert_eq!(a.is_dir, b.is_dir);
    assert_eq!(a.children.len(), b.children.len());
    for (ca, cb) in a.children.iter().zip(b.children.iter()) {
        assert_same_tree(ca, cb);
    }
}

#[test]
fn empty_input_yields_childless_root() {
    let root = build_tree(&paths(&[]));
    assert_eq!(root.path, "");
    assert!(root.is_dir);
    assert_eq!(root.children.len(), 0);
}

#[test]
fn directory_inference_takes_precedence() {
    let root = build_tree(&paths(&["a", "a/b"]));
    assert_eq!(root.children.len(), 1);
    let a = &root.children[0];
    assert_eq!(a.path, "a");
    assert!(a.is_dir);
    assert_eq!(a.children.len(), 1);
    assert_eq!(a.children[0].path, "a/b");
}

#[test]
fn directory_inference_overrides_extension() {
    let root = build_tree(&paths(&["a.txt/b", "a.txt"]));
    let a = &root.children[0];
    assert_eq!(a.path, "a.txt");
    assert!(a.is_dir);
    assert_eq!(a.children[0].path, "a.txt/b");
}

#[test]
fn extension_marks_a_leaf_as_file() {
    let root = build_tree(&paths(&["README.md"]));
    assert_eq!(root.children.len(), 1);
    assert_eq!(root.children[0].path, "README.md");
    assert!(!root.children[0].is_dir);
}

#[test]
fn extensionless_leaf_counts_as_directory() {
    let root = build_tree(&paths(&["README"]));
    assert_eq!(root.children.len(), 1);
    assert_eq!(root.children[0].path, "README");
    assert!(root.children[0].is_dir);
}

#[test]
fn leading_dot_is_no_extension() {
    let root = build_tree(&paths(&[".gitignore"]));
    assert!(root.children[0].is_dir);
}

#[test]
fn later_dots_are_extensions() {
    let root = build_tree(&paths(&["a.b.c", "trailing."]));
    assert!(!root.children[0].is_dir);
    assert!(!root.children[1].is_dir);
}

#[test]
fn directories_sort_before_files() {
    let root = build_tree(&paths(&["b.txt", "a", "a/x.txt"]));
    assert_eq!(root.children.len(), 2);
    assert_eq!(root.children[0].path, "a");
    assert!(root.children[0].is_dir);
    assert_eq!(root.children[1].path, "b.txt");
    assert!(!root.children[1].is_dir);
    assert_eq!(root.children[0].children.len(), 1);
    assert_eq!(root.children[0].children[0].path, "a/x.txt");
}

#[test]
fn siblings_of_one_kind_sort_by_path() {
    let root = build_tree(&paths(&["z.txt", "m.txt", "a.txt"]));
    let names: Vec<&str> = root.children.iter().map(|c| c.path.as_str()).collect();
    assert_eq!(names, vec!["a.txt", "m.txt", "z.txt"]);
}

#[test]
fn duplicate_paths_leave_the_tree_unchanged() {
    let once = paths(&["src/a.rs", "src", "README.md"]);
    let mut twice = once.clone();
    twice.extend(once.clone());
    let t1 = build_tree(&once);
    let t2 = build_tree(&twice);
    assert_same_tree(&t1, &t2);
}

#[test]
fn input_order_leaves_the_tree_unchanged() {
    let t1 = build_tree(&paths(&["b", "a/c.txt", "a", "b/d"]));
    let t2 = build_tree(&paths(&["a", "b/d", "b", "a/c.txt"]));
    let t3 = build_tree(&paths(&["b/d", "b", "a", "a/c.txt"]));
    assert_same_tree(&t1, &t2);
    assert_same_tree(&t1, &t3);
}

#[test]
fn intermediate_segments_become_directories() {
    let root = build_tree(&paths(&["src/deep/nest/file.rs"]));
    let src = &root.children[0];
    assert_eq!(src.path, "src");
    assert!(src.is_dir);
    let deep = &src.children[0];
    assert_eq!(deep.path, "src/deep");
    assert!(deep.is_dir);
    let nest = &deep.children[0];
    assert_eq!(nest.path, "src/deep/nest");
    assert!(nest.is_dir);
    let file = &nest.children[0];
    assert_eq!(file.path, "src/deep/nest/file.rs");
    assert!(!file.is_dir);
}

#[test]
fn repeated_separators_become_empty_segments() {
    let root = build_tree(&paths(&["a//b"]));
    let a = &root.children[0];
    assert_eq!(a.path, "a");
    assert!(a.is_dir);
    let mid = &a.children[0];
    assert_eq!(mid.path, "a/");
    assert!(mid.is_dir);
    let b = &mid.children[0];
    assert_eq!(b.path, "a//b");
    assert_eq!(b.children.len(), 0);
}

#[test]
fn leading_separator_yields_empty_named_node() {
    let root = build_tree(&paths(&["/a"]));
    assert_eq!(root.children.len(), 1);
    let blank = &root.children[0];
    assert_eq!(blank.path, "");
    assert!(blank.is_dir);
    assert_eq!(blank.children.len(), 1);
    assert_eq!(blank.children[0].path, "/a");
    assert!(blank.children[0].is_dir);
}

#[test]
fn shared_prefixes_merge_into_one_node() {
    let root = build_tree(&paths(&["a/b.txt", "a/c.txt", "a/d/e.txt"]));
    assert_eq!(root.children.len(), 1);
    let a = &root.children[0];
    assert_eq!(a.children.len(), 3);
    assert_eq!(a.children[0].path, "a/d");
    assert_eq!(a.children[1].path, "a/b.txt");
    assert_eq!(a.children[2].path, "a/c.txt");
}

#[test]
fn new_node_starts_childless() {
    let node = TreeNode::new("x/y".to_string(), false);
    assert_eq!(node.path, "x/y");
    assert!(!node.is_dir);
    assert_eq!(node.children.len(), 0);
}
