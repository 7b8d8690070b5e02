use querypath_fmt::fmt_node::{ScanDir, ScanFile, ScanResults};
use querypath_fmt::paths_tree::PathsTree;

fn pad(s: &str, width: usize) -> String {
    let n = s.chars().count();
    if n >= width { s.to_string() } else { format!("{}{}", s, " ".repeat(width - n)) }
}

fn sample() -> ScanResults {
    ScanResults {
        execution_dir: "/home/u/proj".to_string(),
        files: vec![
            ScanFile { path: "src/main.rs".to_string(), size: 150, is_binary: false, modified_at: Some(7) },
            ScanFile { path: "README.md".to_string(), size: 50, is_binary: false, modified_at: None },
        ],
        dirs: vec![ScanDir { path: "src".to_string(), real_size: 300, matched_size: 200, modified_at: None }],
    }
}

#[test]
fn plain_tree_of_a_scan() {
    let want = [
        format!("{}/home/u/proj/\n", pad("└──┬ proj", 35)),
        format!("{}README.md\n", pad("   ├──• README.md", 35)),
        format!("{}src/\n", pad("   └──┬ src", 35)),
        format!("{}src/main.rs\n", pad("      └──• main.rs", 35)),
    ]
    .concat();
    assert_eq!(PathsTree::new().format_results(&sample()), want);
}

#[test]
fn plain_tree_with_settings() {
    let mut t = PathsTree::new().column_width(14);
    t.set_max_name_len(Some(4));
    let want = [
        format!("{}/hom\n", pad("└──┬ proj", 14)),
        format!("{}e/u/\n", pad("     ", 14)),
        format!("{}proj\n", pad("     ", 14)),
        format!("{}/\n", pad("     ", 14)),
        format!("{}READ\n", pad("   ├──• READ", 14)),
        format!("{}ME.m\n", pad("        ME.m", 14)),
        format!("{}d\n", pad("        d", 14)),
        format!("{}src/\n", pad("   └──┬ src", 14)),
        format!("{}src/main\n", pad("      └──• main", 14)),
        format!("{}.rs\n", pad("           .rs", 14)),
    ]
    .concat();
    assert_eq!(t.format_results(&sample()), want);
}

#[test]
fn empty_scan_shows_the_root_alone() {
    let res = ScanResults { execution_dir: ".".to_string(), files: vec![], dirs: vec![] };
    assert_eq!(PathsTree::new().format_results(&res), format!("{}./\n", pad("└─── .", 35)));
}

#[test]
fn path_chunks_by_width() {
    let t = PathsTree::new().path_width(3);
    assert_eq!(t.format_path_chunks("abcdefg"), vec!["abc", "def", "g"]);
    assert_eq!(t.format_path_chunks(""), vec![""]);
    let mut u = PathsTree::new().max_name_len(2);
    u.set_column_width(3).set_max_name_len(None);
    assert_eq!(u.format_path_chunks("x"), vec!["x"]);
    assert_eq!(PathsTree::new().path_width(0).format_path_chunks("ab"), vec!["a", "b"]);
}

#[test]
fn setters_chain_in_place() {
    let mut t = PathsTree::new();
    t.set_max_name_len(Some(3)).set_column_width(9);
    let mut u = PathsTree::new().column_width(9).max_name_len(3);
    let res = ScanResults { execution_dir: "/x/abcdef".to_string(), files: vec![], dirs: vec![] };
    assert_eq!(t.format_results(&res), u.format_results(&res));
    u.set_max_name_len(None);
    assert_eq!(u.format_results(&res), format!("{}/x/abcdef/\n", pad("└─── abcdef", 9)));
}
