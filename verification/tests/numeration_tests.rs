use querypath_fmt::numeration::Numeration;

#[test]
fn numeration_defaults() {
    let n = Numeration::new();
    assert!(n.enabled);
    assert!(n.numerate_dirs);
    assert!(n.numerate_binaries);
    assert_eq!(n.start_from, 1);
    assert_eq!(n, Numeration::default());
}

#[test]
fn numeration_builders_set_one_field_each() {
    let n = Numeration::new().enabled(false).numerate_dirs(false).numerate_binaries(false).start_from(7);
    assert!(!n.enabled);
    assert!(!n.numerate_dirs);
    assert!(!n.numerate_binaries);
    assert_eq!(n.start_from, 7);
}

#[test]
fn should_numerate_by_kind() {
    let all = Numeration::new();
    assert!(all.should_numerate(true, false));
    assert!(all.should_numerate(false, true));
    assert!(all.should_numerate(false, false));

    let no_dirs = Numeration::new().numerate_dirs(false);
    assert!(!no_dirs.should_numerate(true, false));
    assert!(!no_dirs.should_numerate(true, true));
    assert!(no_dirs.should_numerate(false, false));

    let no_bins = Numeration::new().numerate_binaries(false);
    assert!(!no_bins.should_numerate(false, true));
    assert!(no_bins.should_numerate(true, true));
    assert!(no_bins.should_numerate(false, false));

    let off = Numeration::new().enabled(false);
    assert!(!off.should_numerate(false, false));
    assert!(!off.should_numerate(true, false));
}

#[test]
fn column_width_is_digits_of_max() {
    let n = Numeration::new();
    assert_eq!(n.column_width(0), 0);
    assert_eq!(n.column_width(1), 1);
    assert_eq!(n.column_width(9), 1);
    assert_eq!(n.column_width(10), 2);
    assert_eq!(n.column_width(999), 3);
    assert_eq!(n.column_width(1000), 4);
    assert_eq!(n.column_width(usize::MAX), usize::MAX.to_string().len());
    assert_eq!(Numeration::new().enabled(false).column_width(50), 0);
}

#[test]
fn format_cell_right_aligns() {
    let n = Numeration::new();
    assert_eq!(n.format_cell(3, 12), " 3");
    assert_eq!(n.format_cell(12, 12), "12");
    assert_eq!(n.format_cell(7, 100), "  7");
    assert_eq!(n.format_cell(5, 0), "");
    assert_eq!(Numeration::new().enabled(false).format_cell(5, 10), "");
}

#[test]
fn empty_cell_is_blank_of_column_width() {
    let n = Numeration::new();
    assert_eq!(n.empty_cell(12), "  ");
    assert_eq!(n.empty_cell(5), " ");
    assert_eq!(n.empty_cell(0), "");
    assert_eq!(Numeration::new().enabled(false).empty_cell(99), "");
}

#[test]
fn cells_align_for_every_number_up_to_max() {
    let n = Numeration::new();
    for max in [1usize, 9, 10, 99, 100, 12345] {
        let width = n.column_width(max);
        assert_eq!(n.empty_cell(max).chars().count(), width);
        for current in [0usize, 1, max / 2, max] {
            assert_eq!(n.format_cell(current, max).chars().count(), width);
        }
    }
}

#[test]
fn push_cell_appends() {
    let n = Numeration::new();
    let mut out: Vec<char> = vec!['x'];
    n.push_cell(&mut out, 4, 20);
    n.push_empty_cell(&mut out, 20);
    assert_eq!(out.iter().collect::<String>(), "x 4  ");
}
