//! The main formatter: columns around the tree of a scan.
use vstd::prelude::*;
use crate::fmt_node::{root_item_of, sum_dir_real, sum_file_sizes, sums_fit, InternalNode, ScanResults};
use crate::fmt_render::{
    calculate_max_prefix_len_for_item, law_render_lines_align, max_prefix_item, uniform_lines, FmtRender, RenderLayout,
};
use crate::numeration::Numeration;
use crate::sort::Sorting;
use crate::stats_temporal::StatsTemporal;
use crate::stats_weight::StatsWeight;
use crate::tree::TreeItem;

verus! {

/// A metadata column.
#[derive(Debug, Clone, Copy, PartialEq, Eq, Structural)]
pub enum Column {
    Weight,
    Temporal,
    Path,
}

/// The formatter: the width of names and paths, the columns left and right
/// of the tree, and the numbering, size, time and sorting settings.
pub struct QueryPathFmt {
    name_width: usize,
    path_width: usize,
    left_columns: Vec<Column>,
    right_columns: Vec<Column>,
    numeration: Numeration,
    stats_weight: StatsWeight,
    stats_temporal: StatsTemporal,
    sorting: Sorting,
}

/// A sorting of a single entry gives a single entry.
proof fn lemma_sorted_single(s: Sorting, root: TreeItem, new: Seq<TreeItem>)
    requires
        s.sorted_items(seq![root], new),
    ensures
        new.len() == 1,
{
    if s.enabled {
        let mid = choose|mid: Seq<TreeItem>| s.children_sorted(seq![root], mid) && new == #[trigger] s.sort_level(mid);
        assert(mid.len() == 1);
        assert(mid.drop_last() =~= Seq::<TreeItem>::empty());
        assert(s.sort_level(mid.drop_last()) == Seq::<TreeItem>::empty());
    }
}

impl QueryPathFmt {
    /// The settings a rendering takes from the formatter.
    pub closed spec fn layout(self) -> RenderLayout {
        RenderLayout {
            name_width: self.name_width,
            path_width: self.path_width,
            left_columns: self.left_columns@,
            right_columns: self.right_columns@,
            numeration: self.numeration,
            stats_weight: self.stats_weight,
            stats_temporal: self.stats_temporal,
        }
    }

    /// The sorting settings.
    pub closed spec fn spec_sorting(self) -> Sorting {
        self.sorting
    }

    /// Whether the scan `res` can be formatted: its total sizes fit in a
    /// `u64`, and every tree it gives, sorted, can be rendered with a prefix
    /// width that fits in a `usize`.
    pub open spec fn format_ok(self, res: ScanResults) -> bool {
        &&& sum_file_sizes(res.files@) <= u64::MAX
        &&& sum_dir_real(res.dirs@) <= u64::MAX
        &&& forall|root: TreeItem, sorted: TreeItem|
            #[trigger] root_item_of(res, root) && #[trigger] self.spec_sorting().sorted_items(seq![root], seq![sorted])
                ==> max_prefix_item(sorted, 0) <= usize::MAX
                    && self.layout().render_ok(sorted, max_prefix_item(sorted, 0))
    }

    /// Whether `text` is the formatting of the scan `res`: the root item of
    /// the scan, sorted, rendered with the widest prefix of that tree.
    pub open spec fn formats_as(self, res: ScanResults, text: Seq<char>) -> bool {
        exists|root: TreeItem, sorted: TreeItem|
            #[trigger] root_item_of(res, root) && #[trigger] self.spec_sorting().sorted_items(seq![root], seq![sorted])
                && text == self.layout().spec_render(sorted, max_prefix_item(sorted, 0))
    }

    /// Names 20 wide, paths 40 wide, sizes and times left of the tree, paths
    /// right of it, default numbering, size and time settings, and sorting
    /// switched off, so that the tree keeps the order of its names.
    pub fn new() -> (r: Self)
        ensures
            r.layout().name_width == 20,
            r.layout().path_width == 40,
            r.layout().left_columns == seq![Column::Weight, Column::Temporal],
            r.layout().right_columns == seq![Column::Path],
            r.layout().numeration == (Numeration { enabled: true, numerate_dirs: true, numerate_binaries: true, start_from: 1 }),
            r.layout().stats_weight == StatsWeight::spec_default(),
            r.layout().stats_temporal.enabled,
            r.layout().stats_temporal.format_pattern@
                == seq!['Y', 'Y', 'Y', 'Y', '-', 'M', 'M', '-', 'M', 'D', ' ', 'h', 'h', ':', 'm', 'm'],
            r.spec_sorting() == (Sorting { enabled: false, ..Sorting::spec_default() }),
    {
        let mut left: Vec<Column> = Vec::new();
        left.push(Column::Weight);
        left.push(Column::Temporal);
        let mut right: Vec<Column> = Vec::new();
        right.push(Column::Path);
        assert(left@ =~= seq![Column::Weight, Column::Temporal]);
        assert(right@ =~= seq![Column::Path]);
        QueryPathFmt {
            name_width: 20,
            path_width: 40,
            left_columns: left,
            right_columns: right,
            numeration: Numeration::default(),
            stats_weight: StatsWeight::default(),
            stats_temporal: StatsTemporal::default(),
            sorting: Sorting::new().enabled(false),
        }
    }
}

impl QueryPathFmt {
    /// Sets the width of the name column; it is at least 20.
    pub fn name_width(self, width: usize) -> (r: Self)
        ensures
            r.layout() == (RenderLayout { name_width: if width >= 20 { width } else { 20 }, ..self.layout() }),
            r.spec_sorting() == self.spec_sorting(),
    {
        let mut s = self;
        s.name_width = if width >= 20 { width } else { 20 };
        s
    }

    /// Sets the width of the path column; it is at least 30.
    pub fn path_width(self, width: usize) -> (r: Self)
        ensures
            r.layout() == (RenderLayout { path_width: if width >= 30 { width } else { 30 }, ..self.layout() }),
            r.spec_sorting() == self.spec_sorting(),
    {
        let mut s = self;
        s.path_width = if width >= 30 { width } else { 30 };
        s
    }

    /// Sets the columns left of the tree, in order.
    pub fn column_order_left(self, cols: Vec<Column>) -> (r: Self)
        ensures
            r.layout() == (RenderLayout { left_columns: cols@, ..self.layout() }),
            r.spec_sorting() == self.spec_sorting(),
    {
        let mut s = self;
        s.left_columns = cols;
        s
    }

    /// Sets the columns right of the tree, in order.
    pub fn column_order_right(self, cols: Vec<Column>) -> (r: Self)
        ensures
            r.layout() == (RenderLayout { right_columns: cols@, ..self.layout() }),
            r.spec_sorting() == self.spec_sorting(),
    {
        let mut s = self;
        s.right_columns = cols;
        s
    }

    /// Sets the numbering.
    pub fn numeration(self, numeration: Numeration) -> (r: Self)
        ensures
            r.layout() == (RenderLayout { numeration, ..self.layout() }),
            r.spec_sorting() == self.spec_sorting(),
    {
        let mut s = self;
        s.numeration = numeration;
        s
    }

    /// Sets the size column.
    pub fn stats_weight(self, weight: StatsWeight) -> (r: Self)
        ensures
            r.layout() == (RenderLayout { stats_weight: weight, ..self.layout() }),
            r.spec_sorting() == self.spec_sorting(),
    {
        let mut s = self;
        s.stats_weight = weight;
        s
    }

    /// Sets the time column.
    pub fn stats_temporal(self, temporal: StatsTemporal) -> (r: Self)
        ensures
            r.layout() == (RenderLayout { stats_temporal: temporal, ..self.layout() }),
            r.spec_sorting() == self.spec_sorting(),
    {
        let mut s = self;
        s.stats_temporal = temporal;
        s
    }

    /// Sets the sorting (switched off unless set).
    pub fn sorting(self, sorting: Sorting) -> (r: Self)
        ensures
            r.layout() == self.layout(),
            r.spec_sorting() == sorting,
    {
        let mut s = self;
        s.sorting = sorting;
        s
    }

    /// The root item of `res`, sorted.
    fn sorted_root(&self, res: &ScanResults) -> (r: TreeItem)
        requires
            sum_file_sizes(res.files@) <= u64::MAX,
            sum_dir_real(res.dirs@) <= u64::MAX,
        ensures
            exists|root: TreeItem| #[trigger] root_item_of(*res, root) && self.spec_sorting().sorted_items(seq![root], seq![r]),
    {
        let root = InternalNode::build_root(res);
        let ghost root_g = root;
        let mut items: Vec<TreeItem> = Vec::new();
        items.push(root);
        assert(items@ =~= seq![root_g]);
        self.sorting.sort_items(&mut items);
        proof {
            lemma_sorted_single(self.sorting, root_g, items@);
        }
        let ghost after = items@;
        let sorted = items.remove(0);
        assert(after =~= seq![sorted]);
        assert(root_item_of(*res, root_g));
        sorted
    }

    /// The renderer over these settings.
    fn renderer(&self) -> (r: FmtRender<'_>)
        ensures
            r@ == self.layout(),
    {
        FmtRender {
            name_width: self.name_width,
            path_width: self.path_width,
            left_columns: self.left_columns.as_slice(),
            right_columns: self.right_columns.as_slice(),
            numeration: &self.numeration,
            stats_weight: &self.stats_weight,
            stats_temporal: &self.stats_temporal,
        }
    }

    /// Formats the scan `res`: its root item, sorted, rendered with the widest
    /// prefix of that tree.
    pub fn format(&self, res: &ScanResults) -> (r: String)
        requires
            self.format_ok(*res),
        ensures
            self.formats_as(*res, r@),
    {
        let sorted = self.sorted_root(res);
        let mp = match calculate_max_prefix_len_for_item(&sorted) {
            Some(m) => m,
            None => {
                proof {
                    assert(false);
                }
                return String::new();
            },
        };
        self.renderer().render(&sorted, mp)
    }

    /// Formats the scan `res` as `format` does, or gives `None` where `res`
    /// cannot be formatted (see `format_ok`).
    pub fn try_format(&self, res: &ScanResults) -> (r: Option<String>)
        ensures
            r matches Some(s) ==> self.formats_as(*res, s@),
            r is None ==> !self.format_ok(*res),
    {
        if !sums_fit(res) {
            return None;
        }
        let sorted = self.sorted_root(res);
        let mp = match calculate_max_prefix_len_for_item(&sorted) {
            Some(m) => m,
            None => {
                return None;
            },
        };
        let renderer = self.renderer();
        if !renderer.check_render(&sorted, mp) {
            return None;
        }
        Some(renderer.render(&sorted, mp))
    }
}

/// The columns of a formatted scan line up: the text is a run of lines of
/// one width, the width its layout gives for the sorted tree of the scan.
pub proof fn law_format_lines_align(f: QueryPathFmt, res: ScanResults, text: Seq<char>)
    requires
        f.format_ok(res),
        f.formats_as(res, text),
    ensures
        exists|root: TreeItem, sorted: TreeItem|
            #[trigger] root_item_of(res, root) && #[trigger] f.spec_sorting().sorted_items(seq![root], seq![sorted])
                && uniform_lines(text, f.layout().line_width(f.layout().widths(sorted, max_prefix_item(sorted, 0)))),
{
    let (root, sorted) = choose|root: TreeItem, sorted: TreeItem|
        #[trigger] root_item_of(res, root) && #[trigger] f.spec_sorting().sorted_items(seq![root], seq![sorted])
            && text == f.layout().spec_render(sorted, max_prefix_item(sorted, 0));
    law_render_lines_align(f.layout(), sorted, max_prefix_item(sorted, 0));
}

} // verus!
