use querypath_fmt::fmt_node::{sums_fit, InternalNode, ScanDir, ScanFile, ScanResults};
use querypath_fmt::tree::TreeItem;

fn names(n: &InternalNode) -> Vec<String> {
    n.children.iter().map(|(name, _)| name.clone()).collect()
}

fn child<'a>(n: &'a InternalNode, name: &str) -> &'a InternalNode {
    &n.children.iter().find(|(k, _)| k == name).expect("child").1
}

fn scan(dir: &str, dirs: Vec<ScanDir>, files: Vec<ScanFile>) -> ScanResults {
    ScanResults { execution_dir: dir.to_string(), files, dirs }
}

fn sdir(path: &str, real_size: u64, matched_size: u64, modified_at: Option<u64>) -> ScanDir {
    ScanDir { path: path.to_string(), real_size, matched_size, modified_at }
}

fn sfile(path: &str, size: u64, is_binary: bool, modified_at: Option<u64>) -> ScanFile {
    ScanFile { path: path.to_string(), size, is_binary, modified_at }
}

#[test]
fn insert_creates_the_way_and_records_the_entry() {
    let mut root = InternalNode::default();
    InternalNode::insert_path(&mut root, "a/b.txt", false, true, 10, 0, 0, Some(5));
    assert_eq!(names(&root), vec!["a"]);
    let a = child(&root, "a");
    assert!(a.is_dir);
    assert!(!a.is_binary);
    assert_eq!(a.original_path, "");
    assert_eq!((a.size, a.matched_size, a.real_size, a.modified_at), (0, 0, 0, None));
    let b = child(a, "b.txt");
    assert!(!b.is_dir);
    assert!(b.is_binary);
    assert_eq!(b.original_path, "a/b.txt");
    assert_eq!((b.size, b.modified_at), (10, Some(5)));
}

#[test]
fn insert_at_an_existing_node_updates_its_data() {
    let mut root = InternalNode::default();
    InternalNode::insert_path(&mut root, "a/b.txt", false, false, 10, 0, 0, None);
    InternalNode::insert_path(&mut root, "a", true, false, 0, 7, 9, Some(3));
    let a = child(&root, "a");
    assert!(a.is_dir);
    assert_eq!(a.original_path, "a/");
    assert_eq!((a.matched_size, a.real_size, a.modified_at), (7, 9, Some(3)));
    assert_eq!(names(a), vec!["b.txt"]);
}

#[test]
fn insert_keeps_the_kind_of_an_existing_node() {
    let mut root = InternalNode::default();
    InternalNode::insert_path(&mut root, "z", false, false, 1, 0, 0, None);
    InternalNode::insert_path(&mut root, "z", true, false, 0, 2, 3, None);
    let z = child(&root, "z");
    assert!(!z.is_dir);
    assert_eq!(z.original_path, "z/");
    assert_eq!((z.size, z.matched_size, z.real_size), (0, 2, 3));
}

#[test]
fn insert_normalizes_separators_and_dots() {
    let mut root = InternalNode::default();
    InternalNode::insert_path(&mut root, "./a/./c\\d", false, false, 4, 0, 0, None);
    let a = child(&root, "a");
    let c = child(a, "c");
    assert!(c.is_dir);
    let d = child(c, "d");
    assert_eq!(d.original_path, "./a/./c\\d");
    assert_eq!(d.size, 4);
}

#[test]
fn insert_without_components_changes_nothing() {
    let mut root = InternalNode::default();
    for p in ["", "/", "./", ".", "//.//"] {
        InternalNode::insert_path(&mut root, p, true, false, 0, 1, 1, None);
    }
    assert!(root.children.is_empty());
    assert_eq!(root.original_path, "");
    assert_eq!(root.matched_size, 0);
}

#[test]
fn children_are_kept_in_name_order() {
    let mut root = InternalNode::default();
    for p in ["src", "README.md", "Cargo.toml", "a", "b", "src"] {
        InternalNode::insert_path(&mut root, p, false, false, 0, 0, 0, None);
    }
    assert_eq!(names(&root), vec!["Cargo.toml", "README.md", "a", "b", "src"]);
}

#[test]
fn tree_item_of_a_node() {
    let mut root = InternalNode::default();
    InternalNode::insert_path(&mut root, "d/f", false, false, 8, 0, 0, Some(1));
    match root.to_tree_item("top".to_string()) {
        TreeItem::Node { label, is_dir, children, .. } => {
            assert_eq!(label, "top");
            assert!(!is_dir);
            assert_eq!(children.len(), 1);
            match &children[0] {
                TreeItem::Node { label, is_dir, path, children, .. } => {
                    assert_eq!(label, "d");
                    assert!(*is_dir);
                    assert_eq!(path, "");
                    match &children[0] {
                        TreeItem::Node { label, path, size, modified_at, .. } => {
                            assert_eq!(label, "f");
                            assert_eq!(path, "d/f");
                            assert_eq!((*size, *modified_at), (8, Some(1)));
                        },
                        _ => panic!("expected a node"),
                    }
                },
                _ => panic!("expected a node"),
            }
        },
        _ => panic!("expected a node"),
    }
}

#[test]
fn root_of_a_scan() {
    let res = scan(
        "/home/u/proj",
        vec![sdir("src", 300, 200, Some(100))],
        vec![sfile("src/main.rs", 150, false, Some(50)), sfile("README.md", 50, true, None)],
    );
    match InternalNode::build_root(&res) {
        TreeItem::Root { label, path, matched_size, real_size, modified_at, children } => {
            assert_eq!(label, "proj");
            assert_eq!(path, "/home/u/proj/");
            assert_eq!((matched_size, real_size, modified_at), (200, 300, None));
            assert_eq!(children.len(), 2);
            match &children[0] {
                TreeItem::Node { label, is_dir, is_binary, path, size, .. } => {
                    assert_eq!(label, "README.md");
                    assert!(!*is_dir);
                    assert!(*is_binary);
                    assert_eq!(path, "README.md");
                    assert_eq!(*size, 50);
                },
                _ => panic!("expected a node"),
            }
            match &children[1] {
                TreeItem::Node { label, is_dir, path, matched_size, real_size, modified_at, children, .. } => {
                    assert_eq!(label, "src");
                    assert!(*is_dir);
                    assert_eq!(path, "src/");
                    assert_eq!((*matched_size, *real_size, *modified_at), (200, 300, Some(100)));
                    assert_eq!(children.len(), 1);
                },
                _ => panic!("expected a node"),
            }
        },
        _ => panic!("expected the root"),
    }
}

fn root_label_and_path(dir: &str) -> (String, String) {
    match InternalNode::build_root(&scan(dir, vec![], vec![])) {
        TreeItem::Root { label, path, .. } => (label, path),
        _ => panic!("expected the root"),
    }
}

#[test]
fn root_names() {
    assert_eq!(root_label_and_path("/home/u/proj"), ("proj".to_string(), "/home/u/proj/".to_string()));
    assert_eq!(root_label_and_path("/a/b/"), ("b".to_string(), "/a/b/".to_string()));
    assert_eq!(root_label_and_path("."), (".".to_string(), "./".to_string()));
    assert_eq!(root_label_and_path("/"), (".".to_string(), "/".to_string()));
    assert_eq!(root_label_and_path(""), (".".to_string(), "/".to_string()));
    assert_eq!(root_label_and_path("/a/.."), (".".to_string(), "/a/../".to_string()));
    assert_eq!(root_label_and_path("a/."), ("a".to_string(), "a/./".to_string()));
    assert_eq!(root_label_and_path("C:\\x\\proj"), ("C:\\x\\proj".to_string(), "C:/x/proj/".to_string()));
}

#[test]
fn sums_fit_checks_both_totals() {
    assert!(sums_fit(&scan(".", vec![sdir("a", u64::MAX, 0, None)], vec![sfile("f", u64::MAX, false, None)])));
    assert!(!sums_fit(&scan(".", vec![], vec![sfile("f", u64::MAX, false, None), sfile("g", 1, false, None)])));
    assert!(!sums_fit(&scan(".", vec![sdir("a", u64::MAX, 0, None), sdir("b", 1, 0, None)], vec![])));
    assert!(sums_fit(&scan(".", vec![], vec![])));
}
