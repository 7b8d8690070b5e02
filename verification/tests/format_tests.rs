use querypath_fmt::fmt_node::{ScanDir, ScanFile, ScanResults};
use querypath_fmt::fmt_render::{calculate_max_prefix_len_for_item, FmtRender};
use querypath_fmt::numeration::Numeration;
use querypath_fmt::querypath_fmt::{Column, QueryPathFmt};
use querypath_fmt::sort::{CasePrecedence, CharClass, GroupStrategy, NoExtPriority, NodeGroup, SameNamePriority, Sorting};
use querypath_fmt::stats_temporal::StatsTemporal;
use querypath_fmt::stats_weight::{DirWeightDisplay, StatsWeight, UnitSystem, WeightPrecision};
use querypath_fmt::temporal::MAX_TIMESTAMP;
use querypath_fmt::tree::TreeItem;

fn pad(s: &str, width: usize) -> String {
    let n = s.chars().count();
    if n >= width { s.to_string() } else { format!("{}{}", s, " ".repeat(width - n)) }
}

fn sp(n: usize) -> String {
    " ".repeat(n)
}

fn small_scan(file_time: Option<u64>) -> ScanResults {
    ScanResults {
        execution_dir: "/w/proj".to_string(),
        files: vec![ScanFile { path: "src/a.rs".to_string(), size: 2048, is_binary: false, modified_at: file_time }],
        dirs: vec![ScanDir { path: "src".to_string(), real_size: 3000, matched_size: 2048, modified_at: None }],
    }
}

fn all_lines_one_width(text: &str) -> bool {
    let widths: Vec<usize> = text.split_terminator('\n').map(|l| l.chars().count()).collect();
    text.ends_with('\n') && widths.windows(2).all(|w| w[0] == w[1])
}

#[test]
fn formatter_defaults() {
    let f = QueryPathFmt::new();
    let text = f.format(&small_scan(None));
    assert!(text.starts_with("[2.0 KiB] "));
    assert_eq!(text.lines().count(), 3);
}

#[test]
fn formatter_keeps_name_order_until_sorting_is_set() {
    let file = |p: &str| ScanFile { path: p.to_string(), size: 1, is_binary: false, modified_at: None };
    let res = ScanResults {
        execution_dir: "/w".to_string(),
        files: vec![file("b.txt"), file("_a.txt"), file("C.txt")],
        dirs: vec![],
    };
    let at = |text: &str, name: &str| text.find(name).unwrap();
    let plain = QueryPathFmt::new().format(&res);
    assert!(at(&plain, "C.txt") < at(&plain, "_a.txt") && at(&plain, "_a.txt") < at(&plain, "b.txt"));
    let sorted = QueryPathFmt::new().sorting(Sorting::new()).format(&res);
    assert!(at(&sorted, "_a.txt") < at(&sorted, "b.txt") && at(&sorted, "b.txt") < at(&sorted, "C.txt"));
}

#[test]
fn format_without_times() {
    let f = QueryPathFmt::new().stats_temporal(StatsTemporal::new().enabled(false));
    let want = [
        format!("[2.0 KiB]  {}{} \n", pad(" proj", 30), pad("/w/proj/", 40)),
        format!("[2.0 KiB] 1{}{} \n", pad("  └──┬ src", 30), pad("src/", 40)),
        format!("[2.0 KiB] 2{}{} \n", pad("     └──• a.rs", 30), pad("src/a.rs", 40)),
    ]
    .concat();
    let text = f.format(&small_scan(None));
    assert_eq!(text, want);
    assert!(all_lines_one_width(&text));
    assert_eq!(f.try_format(&small_scan(None)), Some(want));
}

#[test]
fn format_with_times() {
    let f = QueryPathFmt::new();
    let want = [
        format!("[2.0 KiB] {} {}{} \n", sp(19), pad(" proj", 30), pad("/w/proj/", 40)),
        format!("[2.0 KiB] {}1{}{} \n", sp(19), pad("  └──┬ src", 30), pad("src/", 40)),
        format!("[2.0 KiB] [2023-11-14 22:13] 2{}{} \n", pad("     └──• a.rs", 30), pad("src/a.rs", 40)),
    ]
    .concat();
    let text = f.format(&small_scan(Some(1_700_000_000)));
    assert_eq!(text, want);
    assert!(all_lines_one_width(&text));
}

fn readme_scan() -> ScanResults {
    ScanResults {
        execution_dir: "/w/proj".to_string(),
        files: vec![
            ScanFile { path: "docs/guide.md".to_string(), size: 100, is_binary: false, modified_at: Some(1_700_000_000) },
            ScanFile { path: "app.bin".to_string(), size: 4096, is_binary: true, modified_at: None },
            ScanFile { path: ".env".to_string(), size: 10, is_binary: false, modified_at: None },
            ScanFile { path: "Cargo.toml".to_string(), size: 20, is_binary: false, modified_at: None },
        ],
        dirs: vec![ScanDir { path: "docs".to_string(), real_size: 500, matched_size: 100, modified_at: Some(0) }],
    }
}

fn readme_formatter() -> QueryPathFmt {
    QueryPathFmt::new()
        .name_width(25)
        .path_width(35)
        .column_order_left(vec![])
        .column_order_right(vec![Column::Weight, Column::Temporal, Column::Path])
        .numeration(Numeration::new().enabled(true).numerate_dirs(false).numerate_binaries(false).start_from(1))
        .stats_weight(
            StatsWeight::new()
                .enabled(true)
                .unit_system(UnitSystem::Binary)
                .dir_display(DirWeightDisplay::MatchedOnly)
                .precision(WeightPrecision::Tenths),
        )
        .stats_temporal(StatsTemporal::new().enabled(true).pattern("YYYY-MM-MD AAA Q"))
        .sorting(
            Sorting::new()
                .enabled(true)
                .group_strategy(GroupStrategy::Custom(vec![NodeGroup::TextFile, NodeGroup::Directory, NodeGroup::BinaryFile]))
                .same_name_priority(SameNamePriority::FileFirst)
                .no_ext_priority(NoExtPriority::Above)
                .ignore_leading_dot(true)
                .char_class_order([CharClass::Special, CharClass::Digit, CharClass::Letter])
                .case_precedence(CasePrecedence::Insensitive),
        )
}

#[test]
fn format_with_columns_on_the_right() {
    let want = [
        format!(" {}[4.1 KiB] {}{} \n", pad(" proj", 35), sp(19), pad("/w/proj/", 35)),
        format!("1{}[   20 B] {}{} \n", pad("  ├──• Cargo.toml", 35), sp(19), pad("Cargo.toml", 35)),
        format!("2{}[   10 B] {}{} \n", pad("  ├──• .env", 35), sp(19), pad(".env", 35)),
        format!(" {}[  100 B] [1970-01-01 WIN 1] {} \n", pad("  ├──┬ docs", 35), pad("docs/", 35)),
        format!("3{}[  100 B] [2023-11-14 AUT 4] {} \n", pad("  │  └──• guide.md", 35), pad("docs/guide.md", 35)),
        format!(" {}[4.0 KiB] {}{} \n", pad("  └──• app.bin", 35), sp(19), pad("app.bin", 35)),
    ]
    .concat();
    let text = readme_formatter().format(&readme_scan());
    assert_eq!(text, want);
    assert!(all_lines_one_width(&text));
}

#[test]
fn widths_have_floors() {
    let f = QueryPathFmt::new().name_width(3).path_width(5).stats_temporal(StatsTemporal::new().enabled(false));
    let text = f.format(&small_scan(None));
    let first = text.lines().next().unwrap().to_string();
    assert_eq!(first, format!("[2.0 KiB]  {}{} ", pad(" proj", 30), pad("/w/proj/", 30)));
    let g = QueryPathFmt::new().path_width(31).stats_temporal(StatsTemporal::new().enabled(false));
    let first = g.format(&small_scan(None)).lines().next().unwrap().to_string();
    assert_eq!(first, format!("[2.0 KiB]  {}{} ", pad(" proj", 30), pad("/w/proj/", 31)));
}

#[test]
fn long_paths_wrap_onto_more_lines() {
    let res = ScanResults {
        execution_dir: "/w".to_string(),
        files: vec![ScanFile { path: format!("{}/x", "d".repeat(40)), size: 1, is_binary: false, modified_at: None }],
        dirs: vec![],
    };
    let f = QueryPathFmt::new()
        .column_order_left(vec![])
        .numeration(Numeration::new().enabled(false))
        .stats_weight(StatsWeight::new().enabled(false))
        .stats_temporal(StatsTemporal::new().enabled(false))
        .path_width(30);
    let dir = "d".repeat(40);
    let want = vec![
        format!("{}{} \n", pad(" w", 30), pad("/w/", 30)),
        format!("{}{} \n", pad(&format!("  └──┬ {}", &dir[..20]), 30), pad("", 30)),
        format!("{}{} \n", pad(&format!("     │ {}", &dir[20..]), 30), pad("", 30)),
        format!("{}{} \n", pad("     └──• x", 30), pad(&dir[..30], 30)),
        format!("{}{} \n", pad("", 30), pad(&format!("{}/x", &dir[30..]), 30)),
    ];
    let text = f.format(&res);
    let lines: Vec<String> = text.split_terminator('\n').map(|l| format!("{}\n", l)).collect();
    assert_eq!(lines, want);
    assert!(all_lines_one_width(&text));
}

#[test]
fn try_format_refuses_what_cannot_be_formatted() {
    let late = small_scan(Some(MAX_TIMESTAMP + 1));
    assert_eq!(QueryPathFmt::new().try_format(&late), None);
    let no_times = QueryPathFmt::new().stats_temporal(StatsTemporal::new().enabled(false));
    assert!(no_times.try_format(&late).is_some());

    let huge = ScanResults {
        execution_dir: "/w".to_string(),
        files: vec![
            ScanFile { path: "a".to_string(), size: u64::MAX, is_binary: false, modified_at: None },
            ScanFile { path: "b".to_string(), size: 1, is_binary: false, modified_at: None },
        ],
        dirs: vec![],
    };
    assert_eq!(QueryPathFmt::new().try_format(&huge), None);

    let last_number = QueryPathFmt::new().numeration(Numeration::new().start_from(usize::MAX));
    assert_eq!(last_number.try_format(&small_scan(None)), None);
    let empty = ScanResults { execution_dir: "/w".to_string(), files: vec![], dirs: vec![] };
    assert!(last_number.try_format(&empty).is_some());
}

fn leaf(name: &str, path: &str) -> TreeItem {
    TreeItem::Node {
        label: name.to_string(),
        is_dir: false,
        is_binary: false,
        path: path.to_string(),
        size: 0,
        matched_size: 0,
        real_size: 0,
        modified_at: None,
        children: vec![],
    }
}

#[test]
fn render_with_a_spacer() {
    let root = TreeItem::Root {
        label: "r".to_string(),
        path: "p/".to_string(),
        matched_size: 0,
        real_size: 0,
        modified_at: None,
        children: vec![TreeItem::Node {
            label: "d".to_string(),
            is_dir: true,
            is_binary: false,
            path: "d/".to_string(),
            size: 0,
            matched_size: 0,
            real_size: 0,
            modified_at: None,
            children: vec![TreeItem::Spacer, leaf("f", "d/f")],
        }],
    };
    assert_eq!(calculate_max_prefix_len_for_item(&root), Some(9));
    let left: Vec<Column> = vec![];
    let right = vec![Column::Path];
    let numeration = Numeration::new().enabled(false);
    let weight = StatsWeight::new().enabled(false);
    let temporal = StatsTemporal::new().enabled(false);
    let r = FmtRender {
        name_width: 20,
        path_width: 30,
        left_columns: &left,
        right_columns: &right,
        numeration: &numeration,
        stats_weight: &weight,
        stats_temporal: &temporal,
    };
    assert!(r.check_render(&root, 9));
    assert!(!r.check_render(&root, usize::MAX));
    let want = [
        format!("{}{} \n", pad(" r", 30), pad("p/", 30)),
        format!("{}{} \n", pad("  └──┬ d", 30), pad("d/", 30)),
        format!("{}{} \n", pad("     ", 30), pad("", 30)),
        format!("{}{} \n", pad("     └──• f", 30), pad("d/f", 30)),
    ]
    .concat();
    assert_eq!(r.render(&root, 9), want);
}

#[test]
fn prefix_widths() {
    assert_eq!(calculate_max_prefix_len_for_item(&TreeItem::Spacer), Some(0));
    assert_eq!(calculate_max_prefix_len_for_item(&leaf("a", "a")), Some(4));
    let root = TreeItem::Root {
        label: "r".to_string(),
        path: "r/".to_string(),
        matched_size: 0,
        real_size: 0,
        modified_at: None,
        children: vec![],
    };
    assert_eq!(calculate_max_prefix_len_for_item(&root), Some(0));
}
