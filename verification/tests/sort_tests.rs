use querypath_fmt::sort::{
    CasePrecedence, CharClass, GroupStrategy, NoExtPriority, NodeGroup, SameNamePriority, Sorting,
};
use querypath_fmt::tree::TreeItem;

fn node(name: &str, is_dir: bool, is_binary: bool, children: Vec<TreeItem>) -> TreeItem {
    TreeItem::Node {
        label: name.to_string(),
        is_dir,
        is_binary,
        path: name.to_string(),
        size: 0,
        matched_size: 0,
        real_size: 0,
        modified_at: None,
        children,
    }
}

fn file(name: &str) -> TreeItem {
    node(name, false, false, vec![])
}

fn bin(name: &str) -> TreeItem {
    node(name, false, true, vec![])
}

fn dir(name: &str, children: Vec<TreeItem>) -> TreeItem {
    node(name, true, false, children)
}

fn labels(items: &[TreeItem]) -> Vec<String> {
    items
        .iter()
        .map(|i| match i {
            TreeItem::Node { label, .. } => label.clone(),
            TreeItem::Root { label, .. } => label.clone(),
            TreeItem::Spacer => String::from("~"),
        })
        .collect()
}

fn sorted(s: &Sorting, names: Vec<TreeItem>) -> Vec<String> {
    let mut items = names;
    s.sort_items(&mut items);
    labels(&items)
}

#[test]
fn sorting_defaults() {
    let s = Sorting::new();
    assert!(s.enabled);
    assert_eq!(s.group_strategy, GroupStrategy::Mixed);
    assert_eq!(s.same_name_priority, SameNamePriority::DirectoryFirst);
    assert!(!s.ignore_leading_dot);
    assert!(s.split_extension);
    assert_eq!(s.no_ext_priority, NoExtPriority::Above);
    assert_eq!(s.char_class_order, [CharClass::Special, CharClass::Digit, CharClass::Letter]);
    assert_eq!(s.case_precedence, CasePrecedence::Insensitive);
    assert!(!s.reverse);
    assert_eq!(s, Sorting::default());
}

#[test]
fn sorting_builders_set_one_field_each() {
    let s = Sorting::new()
        .enabled(false)
        .group_strategy(GroupStrategy::Custom(vec![NodeGroup::BinaryFile]))
        .same_name_priority(SameNamePriority::FileFirst)
        .ignore_leading_dot(true)
        .split_extension(false)
        .no_ext_priority(NoExtPriority::Below)
        .char_class_order([CharClass::Letter, CharClass::Digit, CharClass::Special])
        .case_precedence(CasePrecedence::UpperFirst)
        .reverse(true);
    assert!(!s.enabled);
    assert_eq!(s.group_strategy, GroupStrategy::Custom(vec![NodeGroup::BinaryFile]));
    assert_eq!(s.same_name_priority, SameNamePriority::FileFirst);
    assert!(s.ignore_leading_dot);
    assert!(!s.split_extension);
    assert_eq!(s.no_ext_priority, NoExtPriority::Below);
    assert_eq!(s.char_class_order, [CharClass::Letter, CharClass::Digit, CharClass::Special]);
    assert_eq!(s.case_precedence, CasePrecedence::UpperFirst);
    assert!(s.reverse);
}

#[test]
fn character_classes_in_configured_order() {
    let items = || vec![file("b.txt"), file("a.rs"), file("_x"), file("1.md")];
    assert_eq!(sorted(&Sorting::new(), items()), vec!["_x", "1.md", "a.rs", "b.txt"]);
    let letters_first = Sorting::new().char_class_order([CharClass::Letter, CharClass::Digit, CharClass::Special]);
    assert_eq!(sorted(&letters_first, items()), vec!["a.rs", "b.txt", "1.md", "_x"]);
}

#[test]
fn letters_ignore_case_by_default() {
    assert_eq!(sorted(&Sorting::new(), vec![file("B"), file("a"), file("C")]), vec!["a", "B", "C"]);
}

#[test]
fn case_precedence_breaks_ties() {
    let items = || vec![file("a"), file("A")];
    assert_eq!(sorted(&Sorting::new(), items()), vec!["a", "A"]);
    assert_eq!(sorted(&Sorting::new().case_precedence(CasePrecedence::UpperFirst), items()), vec!["A", "a"]);
    let lower = Sorting::new().case_precedence(CasePrecedence::LowerFirst);
    assert_eq!(sorted(&lower, vec![file("A"), file("a")]), vec!["a", "A"]);
}

#[test]
fn digits_compare_by_character() {
    assert_eq!(sorted(&Sorting::new(), vec![file("10"), file("9"), file("1")]), vec!["1", "10", "9"]);
}

#[test]
fn shorter_prefix_first() {
    assert_eq!(sorted(&Sorting::new(), vec![file("abc"), file("ab")]), vec!["ab", "abc"]);
}

#[test]
fn same_name_priority() {
    let items = || vec![file("src.rs"), dir("src", vec![])];
    assert_eq!(sorted(&Sorting::new(), items()), vec!["src", "src.rs"]);
    let files_first = Sorting::new().same_name_priority(SameNamePriority::FileFirst);
    assert_eq!(sorted(&files_first, items()), vec!["src.rs", "src"]);
}

#[test]
fn names_without_extension() {
    let items = || vec![file("Makefile.toml"), file("Makefile")];
    assert_eq!(sorted(&Sorting::new(), items()), vec!["Makefile", "Makefile.toml"]);
    let below = Sorting::new().no_ext_priority(NoExtPriority::Below);
    assert_eq!(sorted(&below, items()), vec!["Makefile.toml", "Makefile"]);
}

#[test]
fn extensions_break_ties() {
    assert_eq!(
        sorted(&Sorting::new(), vec![file("a.txt"), file("a.md"), file("a.c")]),
        vec!["a.c", "a.md", "a.txt"]
    );
}

#[test]
fn whole_names_without_splitting() {
    let items = || vec![file("a.txt"), file("a-b.txt")];
    assert_eq!(sorted(&Sorting::new(), items()), vec!["a.txt", "a-b.txt"]);
    assert_eq!(sorted(&Sorting::new().split_extension(false), items()), vec!["a-b.txt", "a.txt"]);
}

#[test]
fn leading_dot() {
    let items = || vec![file(".zshrc"), file("abc")];
    assert_eq!(sorted(&Sorting::new(), items()), vec![".zshrc", "abc"]);
    assert_eq!(sorted(&Sorting::new().ignore_leading_dot(true), items()), vec!["abc", ".zshrc"]);
}

#[test]
fn dot_files_have_no_extension() {
    let items = vec![file(".gitignore"), file(".a.b")];
    assert_eq!(sorted(&Sorting::new(), items), vec![".a.b", ".gitignore"]);
}

#[test]
fn custom_groups() {
    let items = || vec![file("a.txt"), dir("d", vec![]), bin("b.bin")];
    let s = Sorting::new().group_strategy(GroupStrategy::Custom(vec![
        NodeGroup::BinaryFile,
        NodeGroup::Directory,
        NodeGroup::TextFile,
    ]));
    assert_eq!(sorted(&s, items()), vec!["b.bin", "d", "a.txt"]);
    let partial = Sorting::new().group_strategy(GroupStrategy::Custom(vec![NodeGroup::TextFile]));
    assert_eq!(sorted(&partial, items()), vec!["a.txt", "d", "b.bin"]);
    assert_eq!(sorted(&Sorting::new(), items()), vec!["a.txt", "b.bin", "d"]);
}

#[test]
fn reverse_flips_the_order() {
    let items = vec![file("a"), file("c"), file("b")];
    assert_eq!(sorted(&Sorting::new().reverse(true), items), vec!["c", "b", "a"]);
}

#[test]
fn disabled_keeps_the_order() {
    let items = vec![file("c"), dir("b", vec![file("z"), file("y")]), file("a")];
    let mut v = items;
    Sorting::new().enabled(false).sort_items(&mut v);
    assert_eq!(labels(&v), vec!["c", "b", "a"]);
    match &v[1] {
        TreeItem::Node { children, .. } => assert_eq!(labels(children), vec!["z", "y"]),
        _ => panic!("expected a node"),
    }
}

#[test]
fn children_are_sorted_all_the_way_down() {
    let mut v = vec![dir("b", vec![dir("y", vec![file("2"), file("1")]), file("x")]), file("a")];
    Sorting::new().sort_items(&mut v);
    assert_eq!(labels(&v), vec!["a", "b"]);
    match &v[1] {
        TreeItem::Node { children, .. } => {
            assert_eq!(labels(children), vec!["x", "y"]);
            match &children[1] {
                TreeItem::Node { children, .. } => assert_eq!(labels(children), vec!["1", "2"]),
                _ => panic!("expected a node"),
            }
        },
        _ => panic!("expected a node"),
    }
}

#[test]
fn equal_entries_keep_their_order() {
    let mut v = vec![node("same", false, false, vec![]), node("same", false, true, vec![]), node("same", false, false, vec![])];
    Sorting::new().sort_items(&mut v);
    let kinds: Vec<bool> = v
        .iter()
        .map(|i| match i {
            TreeItem::Node { is_binary, .. } => *is_binary,
            _ => false,
        })
        .collect();
    assert_eq!(kinds, vec![false, true, false]);
}

#[test]
fn sorted_level_is_a_permutation_in_order() {
    let names = ["b.rs", "A.md", "_", "9", "a.rs", "B", "a", ".x", "10.txt"];
    let mut v: Vec<TreeItem> = names.iter().map(|n| file(n)).collect();
    Sorting::new().sort_items(&mut v);
    let mut got = labels(&v);
    assert_eq!(got, vec![".x", "_", "10.txt", "9", "a", "A.md", "a.rs", "B", "b.rs"]);
    got.sort();
    let mut want: Vec<String> = names.iter().map(|s| s.to_string()).collect();
    want.sort();
    assert_eq!(got, want);
}

#[test]
fn unicode_letters_are_letters() {
    assert_eq!(sorted(&Sorting::new(), vec![file("é"), file("_"), file("z")]), vec!["_", "z", "é"]);
    assert_eq!(sorted(&Sorting::new(), vec![file("Éa"), file("éb")]), vec!["Éa", "éb"]);
}

#[test]
fn pair_order_does_not_depend_on_input_order() {
    let settings = [
        Sorting::new(),
        Sorting::new().case_precedence(CasePrecedence::UpperFirst),
        Sorting::new().case_precedence(CasePrecedence::LowerFirst).reverse(true),
        Sorting::new().split_extension(false).ignore_leading_dot(true),
    ];
    let pairs = [("a.rs", "A.md"), ("x1", "x_"), (".b", "a"), ("b.c", "b")];
    for s in settings.iter() {
        for (x, y) in pairs.iter() {
            assert_eq!(sorted(s, vec![file(x), file(y)]), sorted(s, vec![file(y), file(x)]));
        }
    }
}

#[test]
fn sorting_twice_changes_nothing() {
    let names = ["b.rs", "A.md", "_", "9", "a.rs", "B", "a", ".x", "10.txt", "a", "A"];
    for s in [Sorting::new(), Sorting::new().case_precedence(CasePrecedence::UpperFirst).reverse(true)] {
        let mut v: Vec<TreeItem> = names.iter().map(|n| file(n)).collect();
        s.sort_items(&mut v);
        let once = labels(&v);
        s.sort_items(&mut v);
        assert_eq!(labels(&v), once);
    }
}

#[test]
fn order_is_transitive_across_inputs() {
    let names = ["b", "A", "_c", "10", "a.x"];
    let settings = [
        Sorting::new(),
        Sorting::new().case_precedence(CasePrecedence::UpperFirst),
        Sorting::new().char_class_order([CharClass::Letter, CharClass::Digit, CharClass::Special]).reverse(true),
    ];
    for s in settings.iter() {
        let first = sorted(s, names.iter().map(|n| file(n)).collect());
        for shift in 1..names.len() {
            let mut rotated: Vec<&str> = names.to_vec();
            rotated.rotate_left(shift);
            let mut swapped = rotated.clone();
            swapped.swap(0, 1);
            assert_eq!(sorted(s, rotated.iter().map(|n| file(n)).collect()), first);
            assert_eq!(sorted(s, swapped.iter().map(|n| file(n)).collect()), first);
        }
    }
    assert_eq!(sorted(&Sorting::new(), names.iter().map(|n| file(n)).collect()), vec!["_c", "10", "A", "a.x", "b"]);
}

#[test]
fn ties_keep_their_input_order() {
    let s = Sorting::new();
    assert_eq!(sorted(&s, vec![file("A"), file("b"), file("a")]), vec!["A", "a", "b"]);
    assert_eq!(sorted(&s, vec![file("a"), file("b"), file("A")]), vec!["a", "A", "b"]);
    let r = Sorting::new().reverse(true);
    assert_eq!(sorted(&r, vec![file("A"), file("b"), file("a")]), vec!["b", "A", "a"]);
}

#[test]
fn cloned_trees_are_copies() {
    let t = dir("src", vec![file("b.rs"), dir("util", vec![bin("x.bin")]), TreeItem::Spacer]);
    let c = t.clone();
    assert_eq!(format!("{:?}", c), format!("{:?}", t));
    let mut items = vec![c, file("a")];
    Sorting::new().sort_items(&mut items);
    assert_eq!(labels(&items), vec!["a", "src"]);
    assert_eq!(labels(&[t]), vec!["src"]);
}
