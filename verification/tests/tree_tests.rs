use querypath_fmt::tree::{tree_symbol, Tree, TreeItem};

fn node(name: &str, is_dir: bool, path: &str, children: Vec<TreeItem>) -> TreeItem {
    TreeItem::Node {
        label: name.to_string(),
        is_dir,
        is_binary: false,
        path: path.to_string(),
        size: 0,
        matched_size: 0,
        real_size: 0,
        modified_at: None,
        children,
    }
}

fn pad(s: &str, width: usize) -> String {
    let n = s.chars().count();
    if n >= width { s.to_string() } else { format!("{}{}", s, " ".repeat(width - n)) }
}

#[test]
fn symbols() {
    assert_eq!(tree_symbol(0), "└───");
    assert_eq!(tree_symbol(1), "└──┬");
    assert_eq!(tree_symbol(2), "└──•");
    assert_eq!(tree_symbol(3), "   ");
    assert_eq!(tree_symbol(4), "├───");
    assert_eq!(tree_symbol(5), "├──┬");
    assert_eq!(tree_symbol(6), "├──•");
    assert_eq!(tree_symbol(7), "│  ");
    assert_eq!(tree_symbol(8), "  ├───");
    assert_eq!(tree_symbol(9), "  └───");
    assert_eq!(tree_symbol(10), "    •");
    assert_eq!(tree_symbol(11), "  ├──•");
    assert_eq!(tree_symbol(12), "  ┌──•");
    assert_eq!(tree_symbol(13), "  └──•");
    assert_eq!(tree_symbol(14), "   ──•");
    assert_eq!(tree_symbol(15), "");
    assert_eq!(tree_symbol(100), "");
}

#[test]
fn tree_defaults_and_builders() {
    let t = Tree::new();
    assert_eq!(t.column_width, 35);
    assert_eq!(t.max_name_len, None);
    assert!(t.root_items.is_empty());
    let t = Tree::new().column_width(10).max_name_len(4);
    assert_eq!(t.column_width, 10);
    assert_eq!(t.max_name_len, Some(4));
}

#[test]
fn empty_tree_renders_nothing() {
    assert_eq!(Tree::new().render(), "");
}

#[test]
fn nested_entries() {
    let mut t = Tree::new();
    t.add_item(node("a", true, "a/", vec![node("b.txt", false, "a/b.txt", vec![]), node("c", true, "a/c/", vec![])]));
    let want = [
        format!("{}a/\n", pad("└──┬ a", 35)),
        format!("{}a/b.txt\n", pad("   ├──• b.txt", 35)),
        format!("{}a/c/\n", pad("   └─── c", 35)),
    ]
    .concat();
    assert_eq!(t.render(), want);
}

#[test]
fn bars_continue_below_open_branches() {
    let mut t = Tree::new().column_width(12);
    t.add_item(node("d", true, "d/", vec![node("x", false, "d/x", vec![])]));
    t.add_item(node("e", false, "e", vec![]));
    let want = [
        format!("{}d/\n", pad("├──┬ d", 12)),
        format!("{}d/x\n", pad("│  └──• x", 12)),
        format!("{}e\n", pad("└──• e", 12)),
    ]
    .concat();
    assert_eq!(t.render(), want);
}

#[test]
fn spacer_carries_the_prefix() {
    let mut t = Tree::new().column_width(8);
    t.add_item(node("d", true, "d/", vec![TreeItem::Spacer, node("x", false, "d/x", vec![])]));
    let want = [format!("{}d/\n", pad("└──┬ d", 8)), "   \n".to_string(), format!("{}d/x\n", pad("   └──• x", 8))].concat();
    assert_eq!(t.render(), want);
}

#[test]
fn long_names_wrap_with_their_path() {
    let mut t = Tree::new().column_width(12).max_name_len(3);
    t.add_item(node("abcdefg", false, "x/abcdefg", vec![]));
    let want = [
        format!("{}x/abc\n", pad("└──• abc", 12)),
        format!("{}def\n", pad("     def", 12)),
        format!("{}g\n", pad("     g", 12)),
    ]
    .concat();
    assert_eq!(t.render(), want);
}

#[test]
fn paths_not_ending_in_the_name_wrap_on_their_own() {
    let mut t = Tree::new().column_width(10).max_name_len(4);
    t.add_item(node("ab", true, "q/ab/", vec![]));
    let want = [format!("{}q/ab\n", pad("└─── ab", 10)), format!("{}/\n", pad("     ", 10))].concat();
    assert_eq!(t.render(), want);
}

#[test]
fn names_longer_than_the_column_push_the_path() {
    let mut t = Tree::new().column_width(5);
    t.add_item(node("longname", false, "p", vec![]));
    assert_eq!(t.render(), "└──• longnamep\n");
}

#[test]
fn item_accessors() {
    let n = node("a", true, "a/", vec![]);
    assert_eq!(n.label(), "a");
    assert!(n.is_dir());
    assert!(!TreeItem::Spacer.is_dir());
    assert_eq!(TreeItem::Spacer.label(), "");
}
