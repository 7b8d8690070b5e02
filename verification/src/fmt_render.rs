//! Rendering a tree with numbering, size, time and path columns.
use vstd::prelude::*;
use crate::numeration::{law_cells_align, Numeration};
use crate::querypath_fmt::Column;
use crate::stats_temporal::{timestamp_ok, StatsTemporal};
use crate::temporal::MAX_TIMESTAMP;
use crate::stats_weight::StatsWeight;
use crate::text::{
    chars_of, chunk_chars, chunk_text, pad_left, pad_right, part_or_empty, push_all, push_pad_left,
    push_pad_right, push_repeat, spaces, string_of, views,
};
use crate::tree::{children_of, entry_symbol, entry_symbol_index, push_tree_symbol, spec_tree_symbol, TreeItem};

verus! {

/// Borrowed settings of one rendering.
pub struct FmtRender<'a> {
    pub name_width: usize,
    pub path_width: usize,
    pub left_columns: &'a [Column],
    pub right_columns: &'a [Column],
    pub numeration: &'a Numeration,
    pub stats_weight: &'a StatsWeight,
    pub stats_temporal: &'a StatsTemporal,
}

/// What a rendering depends on, as plain values.
pub struct RenderLayout {
    pub name_width: usize,
    pub path_width: usize,
    pub left_columns: Seq<Column>,
    pub right_columns: Seq<Column>,
    pub numeration: Numeration,
    pub stats_weight: StatsWeight,
    pub stats_temporal: StatsTemporal,
}

impl<'a> View for FmtRender<'a> {
    type V = RenderLayout;

    open spec fn view(&self) -> RenderLayout {
        RenderLayout {
            name_width: self.name_width,
            path_width: self.path_width,
            left_columns: self.left_columns@,
            right_columns: self.right_columns@,
            numeration: *self.numeration,
            stats_weight: *self.stats_weight,
            stats_temporal: *self.stats_temporal,
        }
    }
}

/// The widths fixed for a whole rendering.
#[derive(Debug, Clone, Copy)]
pub struct Widths {
    /// Width of the tree column (prefix, blank and name).
    pub tree_col: usize,
    /// The largest number given out.
    pub max_num: usize,
    /// Widest size text.
    pub max_weight: usize,
    /// Widest time text.
    pub max_temporal: usize,
}

pub open spec fn max_nat(a: nat, b: nat) -> nat {
    if a >= b { a } else { b }
}

/// Continuation prefix: bars and branching symbols become bars, all else blanks.
pub open spec fn cont_prefix(p: Seq<char>) -> Seq<char> {
    Seq::new(p.len(), |i: int| if p[i] == '│' || p[i] == '├' || p[i] == '┬' || p[i] == '┌' { '│' } else { ' ' })
}

/// A size cell: nothing when no size is shown anywhere, blanks for an empty
/// size, otherwise the size right-aligned in brackets and a blank.
pub open spec fn bracket_col(raw: Seq<char>, max_inner: nat) -> Seq<char> {
    if max_inner == 0 {
        Seq::empty()
    } else if raw.len() == 0 {
        spaces(max_inner + 3)
    } else {
        seq!['['] + pad_left(raw, max_inner, ' ') + seq![']', ' ']
    }
}

/// A plain cell: nothing when the column is empty everywhere, blanks for an
/// empty content, otherwise the content right-aligned and a blank.
pub open spec fn plain_col(content: Seq<char>, max_len: nat) -> Seq<char> {
    if max_len == 0 {
        Seq::empty()
    } else if content.len() == 0 {
        spaces(max_len + 1)
    } else {
        pad_left(content, max_len, ' ') + seq![' ']
    }
}

pub open spec fn modified_of(item: TreeItem) -> Option<u64> {
    match item {
        TreeItem::Root { modified_at, .. } => modified_at,
        TreeItem::Node { modified_at, .. } => modified_at,
        TreeItem::Spacer => None,
    }
}

/// Every timestamp in the tree can be formatted.
pub open spec fn timestamps_ok_item(item: TreeItem) -> bool
    decreases item,
{
    match item {
        TreeItem::Spacer => true,
        _ => timestamp_ok(modified_of(item)) && timestamps_ok_items(children_of(item)),
    }
}

pub open spec fn timestamps_ok_items(s: Seq<TreeItem>) -> bool
    decreases s,
{
    s.len() == 0 || (timestamps_ok_items(s.drop_last()) && timestamps_ok_item(s.last()))
}

impl RenderLayout {
    pub open spec fn eff_name_width(self) -> nat {
        max_nat(self.name_width as nat, 20)
    }

    pub open spec fn eff_path_width(self) -> nat {
        max_nat(self.path_width as nat, 30)
    }

    /// Pieces of a path in the path column.
    pub open spec fn path_pieces(self, path: Seq<char>) -> Seq<Seq<char>> {
        chunk_text(path, if self.path_width == 0 { 1 } else { self.path_width as nat })
    }

    /// The size text of an entry.
    pub open spec fn weight_text(self, item: TreeItem) -> Seq<char> {
        match item {
            TreeItem::Root { matched_size, real_size, .. } =>
                self.stats_weight.spec_format_dir_size_raw(matched_size as nat, real_size as nat),
            TreeItem::Node { is_dir, is_binary, size, matched_size, real_size, .. } =>
                if is_dir {
                    self.stats_weight.spec_format_dir_size_raw(matched_size as nat, real_size as nat)
                } else {
                    self.stats_weight.spec_format_file_size_raw(size as nat, is_binary)
                },
            TreeItem::Spacer => Seq::empty(),
        }
    }

    /// The time text of an entry.
    pub open spec fn temporal_text(self, item: TreeItem) -> Seq<char> {
        self.stats_temporal.spec_format_timestamp(modified_of(item))
    }

    /// Widest size text in the tree.
    pub open spec fn max_weight_item(self, item: TreeItem) -> nat
        decreases item,
    {
        match item {
            TreeItem::Spacer => 0,
            _ => max_nat(self.weight_text(item).len(), self.max_weight_items(children_of(item))),
        }
    }

    pub open spec fn max_weight_items(self, s: Seq<TreeItem>) -> nat
        decreases s,
    {
        if s.len() == 0 { 0 } else { max_nat(self.max_weight_items(s.drop_last()), self.max_weight_item(s.last())) }
    }

    /// Widest time text in the tree.
    pub open spec fn max_temporal_item(self, item: TreeItem) -> nat
        decreases item,
    {
        match item {
            TreeItem::Spacer => 0,
            _ => max_nat(self.temporal_text(item).len(), self.max_temporal_items(children_of(item))),
        }
    }

    pub open spec fn max_temporal_items(self, s: Seq<TreeItem>) -> nat
        decreases s,
    {
        if s.len() == 0 { 0 } else { max_nat(self.max_temporal_items(s.drop_last()), self.max_temporal_item(s.last())) }
    }

    /// Number of entries in the tree that get a number (the root never does).
    pub open spec fn count_item(self, item: TreeItem) -> nat
        decreases item,
    {
        match item {
            TreeItem::Spacer => 0,
            TreeItem::Root { children, .. } => self.count_items(children@),
            TreeItem::Node { is_dir, is_binary, children, .. } =>
                (if self.numeration.spec_should_numerate(is_dir, is_binary) { 1nat } else { 0nat })
                    + self.count_items(children@),
        }
    }

    pub open spec fn count_items(self, s: Seq<TreeItem>) -> nat
        decreases s,
    {
        if s.len() == 0 { 0 } else { self.count_items(s.drop_last()) + self.count_item(s.last()) }
    }

    /// One cell of a metadata column; only the first line of an entry shows
    /// its size and time.
    pub open spec fn cell(
        self,
        col: Column,
        is_first: bool,
        weight_raw: Seq<char>,
        temp_str: Seq<char>,
        path_chunk: Seq<char>,
        w: Widths,
    ) -> Seq<char> {
        match col {
            Column::Weight => bracket_col(if is_first { weight_raw } else { Seq::empty() }, w.max_weight as nat),
            Column::Temporal => plain_col(if is_first { temp_str } else { Seq::empty() }, w.max_temporal as nat),
            Column::Path => pad_right(path_chunk, self.eff_path_width()) + seq![' '],
        }
    }

    /// The cells of a list of columns.
    pub open spec fn cells(
        self,
        cols: Seq<Column>,
        is_first: bool,
        weight_raw: Seq<char>,
        temp_str: Seq<char>,
        path_chunk: Seq<char>,
        w: Widths,
    ) -> Seq<char>
        decreases cols.len(),
    {
        if cols.len() == 0 {
            Seq::empty()
        } else {
            self.cells(cols.drop_last(), is_first, weight_raw, temp_str, path_chunk, w)
                + self.cell(cols.last(), is_first, weight_raw, temp_str, path_chunk, w)
        }
    }

    /// One line: left cells, number cell, tree column, right cells.
    pub open spec fn line(
        self,
        num_cell: Seq<char>,
        pfx: Seq<char>,
        name: Seq<char>,
        path_chunk: Seq<char>,
        is_first: bool,
        weight_raw: Seq<char>,
        temp_str: Seq<char>,
        w: Widths,
    ) -> Seq<char> {
        self.cells(self.left_columns, is_first, weight_raw, temp_str, path_chunk, w) + num_cell
            + pad_right(pfx + seq![' '] + name, w.tree_col as nat)
            + self.cells(self.right_columns, is_first, weight_raw, temp_str, path_chunk, w) + seq!['\n']
    }

    /// The first `n` lines of an entry.
    pub open spec fn lines(
        self,
        line_prefix: Seq<char>,
        first_num: Seq<char>,
        names: Seq<Seq<char>>,
        paths: Seq<Seq<char>>,
        weight_raw: Seq<char>,
        temp_str: Seq<char>,
        w: Widths,
        n: nat,
    ) -> Seq<char>
        decreases n,
    {
        if n == 0 {
            Seq::empty()
        } else {
            let i = n - 1;
            self.lines(line_prefix, first_num, names, paths, weight_raw, temp_str, w, (n - 1) as nat)
                + self.line(
                if i == 0 { first_num } else { self.numeration.spec_empty_cell(w.max_num as nat) },
                if i == 0 { line_prefix } else { cont_prefix(line_prefix) },
                part_or_empty(names, i),
                part_or_empty(paths, i),
                i == 0,
                weight_raw,
                temp_str,
                w,
            )
        }
    }

    /// The lines of an entry without its children.
    #[verifier::opaque]
    pub open spec fn head(self, item: TreeItem, line_prefix: Seq<char>, first_num: Seq<char>, w: Widths) -> Seq<char> {
        let names = chunk_text(crate::tree::label_of(item), self.eff_name_width());
        let paths = self.path_pieces(crate::tree::path_of(item));
        let n = if names.len() >= paths.len() { names.len() } else { paths.len() };
        self.lines(line_prefix, first_num, names, paths, self.weight_text(item), self.temporal_text(item), w, n)
    }

    /// The line of a spacer: empty cells and the prefix alone.
    #[verifier::opaque]
    pub open spec fn spacer_line(self, prefix: Seq<char>, w: Widths) -> Seq<char> {
        self.cells(self.left_columns, false, Seq::empty(), Seq::empty(), Seq::empty(), w)
            + self.numeration.spec_empty_cell(w.max_num as nat) + pad_right(prefix, w.tree_col as nat)
            + self.cells(self.right_columns, false, Seq::empty(), Seq::empty(), Seq::empty(), w)
            + seq!['\n']
    }

    /// Whether an entry takes a number (the root never does).
    pub open spec fn numbered(self, item: TreeItem) -> bool {
        match item {
            TreeItem::Node { is_dir, is_binary, .. } => self.numeration.spec_should_numerate(is_dir, is_binary),
            _ => false,
        }
    }

    /// The prefix of the first line of an entry: the root adds symbol 15 or
    /// 16 (which are empty), any other entry its branch symbol.
    pub open spec fn line_prefix(self, item: TreeItem, prefix: Seq<char>, is_last: bool) -> Seq<char> {
        let has_children = children_of(item).len() > 0;
        match item {
            TreeItem::Node { is_dir, .. } => prefix + spec_tree_symbol(entry_symbol_index(is_dir, has_children, is_last)),
            _ => prefix + spec_tree_symbol(if has_children { 15 } else { 16 }),
        }
    }

    /// The number cell of the first line of an entry.
    pub open spec fn first_num(self, item: TreeItem, w: Widths, counter: nat) -> Seq<char> {
        if self.numbered(item) {
            self.numeration.spec_format_cell(counter, w.max_num as nat)
        } else {
            self.numeration.spec_empty_cell(w.max_num as nat)
        }
    }

    /// The prefix handed to the children of an entry.
    pub open spec fn child_prefix(self, item: TreeItem, prefix: Seq<char>, is_last: bool) -> Seq<char> {
        match item {
            TreeItem::Node { .. } => prefix + spec_tree_symbol(if is_last { 3 } else { 7 }),
            _ => seq![' ', ' '],
        }
    }

    /// The text of an entry and all below it, drawn below `prefix` with the
    /// next number `counter`; also the next number after it.
    pub open spec fn item_out(self, item: TreeItem, prefix: Seq<char>, is_last: bool, w: Widths, counter: nat) -> (Seq<char>, nat)
        decreases item,
    {
        let next = if self.numbered(item) { counter + 1 } else { counter };
        let head = self.head(item, self.line_prefix(item, prefix, is_last), self.first_num(item, w, counter), w);
        let cp = self.child_prefix(item, prefix, is_last);
        match item {
            TreeItem::Spacer => (self.spacer_line(prefix, w), counter),
            TreeItem::Root { children, .. } => {
                let rest = self.items_out(children@, cp, children@.len() - 1, w, next);
                (head + rest.0, rest.1)
            },
            TreeItem::Node { children, .. } => {
                let rest = self.items_out(children@, cp, children@.len() - 1, w, next);
                (head + rest.0, rest.1)
            },
        }
    }

    /// The texts of consecutive entries, the one at index `last` drawn last.
    pub open spec fn items_out(self, s: Seq<TreeItem>, prefix: Seq<char>, last: int, w: Widths, counter: nat) -> (Seq<char>, nat)
        decreases s,
    {
        if s.len() == 0 {
            (Seq::empty(), counter)
        } else {
            let first = self.items_out(s.drop_last(), prefix, last, w, counter);
            let second = self.item_out(s.last(), prefix, s.len() - 1 == last, w, first.1);
            (first.0 + second.0, second.1)
        }
    }

    /// The widths of a rendering of `root` with prefixes of at most
    /// `max_prefix_len` characters.
    pub open spec fn widths(self, root: TreeItem, max_prefix_len: nat) -> Widths {
        let total = self.count_item(root);
        Widths {
            tree_col: (max_prefix_len + 1 + self.eff_name_width()) as usize,
            max_num: (if total == 0 { 0 } else { self.numeration.start_from + total - 1 }) as usize,
            max_weight: self.max_weight_item(root) as usize,
            max_temporal: self.max_temporal_item(root) as usize,
        }
    }

    /// The rendering of `root`.
    pub open spec fn spec_render(self, root: TreeItem, max_prefix_len: nat) -> Seq<char> {
        self.item_out(root, Seq::empty(), true, self.widths(root, max_prefix_len), self.numeration.start_from as nat).0
    }

    /// What the rendering needs of `root`: numbers, widths and timestamps
    /// within their machine ranges.
    pub open spec fn render_ok(self, root: TreeItem, max_prefix_len: nat) -> bool {
        &&& max_prefix_len + 1 + self.eff_name_width() <= usize::MAX
        &&& (self.count_item(root) == 0 || self.numeration.start_from + self.count_item(root) <= usize::MAX)
        &&& self.max_weight_item(root) + 3 <= usize::MAX
        &&& self.max_temporal_item(root) + 1 <= usize::MAX
        &&& (self.stats_temporal.enabled ==> timestamps_ok_item(root))
    }
}

proof fn lemma_count_prefix(r: RenderLayout, s: Seq<TreeItem>, k: int)
    requires
        0 <= k <= s.len(),
    ensures
        r.count_items(s.take(k)) <= r.count_items(s),
    decreases s.len() - k,
{
    if k < s.len() {
        lemma_count_prefix(r, s, k + 1);
        assert(s.take(k + 1).drop_last() =~= s.take(k));
    } else {
        assert(s.take(k) =~= s);
    }
}

proof fn lemma_timestamps_prefix(s: Seq<TreeItem>, k: int)
    requires
        0 <= k < s.len(),
        timestamps_ok_items(s),
    ensures
        timestamps_ok_item(s[k]),
    decreases s.len(),
{
    if k < s.len() - 1 {
        lemma_timestamps_prefix(s.drop_last(), k);
        assert(s.drop_last()[k] == s[k]);
    }
}


/// Every entry's widths are within the tree's widest.
proof fn lemma_max_child(r: RenderLayout, s: Seq<TreeItem>, k: int)
    requires
        0 <= k < s.len(),
    ensures
        r.max_weight_item(s[k]) <= r.max_weight_items(s),
        r.max_temporal_item(s[k]) <= r.max_temporal_items(s),
    decreases s.len(),
{
    if k < s.len() - 1 {
        lemma_max_child(r, s.drop_last(), k);
        assert(s.drop_last()[k] == s[k]);
    }
}

impl<'a> FmtRender<'a> {
    /// Counts the numbered entries of a tree into `count`.
    #[verifier::loop_isolation(false)]
    fn count_numerated(&self, item: &TreeItem, count: &mut usize)
        requires
            *old(count) + self@.count_item(*item) <= usize::MAX,
        ensures
            *final(count) == *old(count) + self@.count_item(*item),
        decreases item,
    {
        let children = match item {
            TreeItem::Spacer => {
                return;
            },
            TreeItem::Root { children, .. } => children,
            TreeItem::Node { is_dir, is_binary, children, .. } => {
                if self.numeration.should_numerate(*is_dir, *is_binary) {
                    *count = *count + 1;
                }
                children
            },
        };
        let ghost base = *count;
        assert(base + self@.count_items(children@) == *old(count) + self@.count_item(*item));
        let mut i: usize = 0;
        while i < children.len()
            invariant
                i <= children@.len(),
                *count == base + self@.count_items(children@.take(i as int)),
            decreases children.len() - i,
        {
            proof {
                assert(decreases_to!(*item => children@[i as int]));
                lemma_count_prefix(self@, children@, i + 1);
                assert(children@.take(i + 1).drop_last() =~= children@.take(i as int));
            }
            self.count_numerated(&children[i], count);
            i = i + 1;
        }
        assert(children@.take(i as int) =~= children@);
    }

    /// Appends the size text of an entry.
    fn push_weight(&self, out: &mut Vec<char>, item: &TreeItem)
        ensures
            final(out)@ == old(out)@ + self@.weight_text(*item),
    {
        match item {
            TreeItem::Root { matched_size, real_size, .. } => self.stats_weight.push_dir_size_raw(out, *matched_size, *real_size),
            TreeItem::Node { is_dir, is_binary, size, matched_size, real_size, .. } => {
                if *is_dir {
                    self.stats_weight.push_dir_size_raw(out, *matched_size, *real_size)
                } else {
                    self.stats_weight.push_file_size_raw(out, *size, *is_binary)
                }
            },
            TreeItem::Spacer => {
                assert(out@ =~= old(out)@ + self@.weight_text(*item));
            },
        }
    }

    /// Appends the time text of an entry.
    fn push_temporal(&self, out: &mut Vec<char>, item: &TreeItem)
        requires
            self.stats_temporal.enabled ==> timestamp_ok(modified_of(*item)),
        ensures
            final(out)@ == old(out)@ + self@.temporal_text(*item),
    {
        let ts = match item {
            TreeItem::Root { modified_at, .. } => *modified_at,
            TreeItem::Node { modified_at, .. } => *modified_at,
            TreeItem::Spacer => None,
        };
        self.stats_temporal.push_timestamp(out, ts);
    }

    /// Raises `max_weight_inner_len` and `max_temporal_len` to the widest size
    /// and time texts of the tree.
    #[verifier::loop_isolation(false)]
    fn collect_max_widths(&self, item: &TreeItem, max_weight_inner_len: &mut usize, max_temporal_len: &mut usize)
        requires
            self.stats_temporal.enabled ==> timestamps_ok_item(*item),
        ensures
            *final(max_weight_inner_len) == max_nat(*old(max_weight_inner_len) as nat, self@.max_weight_item(*item)),
            *final(max_temporal_len) == max_nat(*old(max_temporal_len) as nat, self@.max_temporal_item(*item)),
        decreases item,
    {
        if let TreeItem::Spacer = item {
            return;
        }
        let mut w: Vec<char> = Vec::new();
        self.push_weight(&mut w, item);
        let mut t: Vec<char> = Vec::new();
        self.push_temporal(&mut t, item);
        assert(w@ =~= self@.weight_text(*item));
        assert(t@ =~= self@.temporal_text(*item));
        if w.len() > *max_weight_inner_len {
            *max_weight_inner_len = w.len();
        }
        if t.len() > *max_temporal_len {
            *max_temporal_len = t.len();
        }
        let children = match item {
            TreeItem::Root { children, .. } => children,
            TreeItem::Node { children, .. } => children,
            TreeItem::Spacer => { return; },
        };
        let ghost mw0 = *max_weight_inner_len;
        let ghost mt0 = *max_temporal_len;
        let mut i: usize = 0;
        while i < children.len()
            invariant
                i <= children@.len(),
                self.stats_temporal.enabled ==> timestamps_ok_items(children@),
                *max_weight_inner_len == max_nat(mw0 as nat, self@.max_weight_items(children@.take(i as int))),
                *max_temporal_len == max_nat(mt0 as nat, self@.max_temporal_items(children@.take(i as int))),
            decreases children.len() - i,
        {
            proof {
                assert(decreases_to!(*item => children@[i as int]));
                if self.stats_temporal.enabled {
                    lemma_timestamps_prefix(children@, i as int);
                }
                lemma_max_child(self@, children@, i as int);
                assert(children@.take(i + 1).drop_last() =~= children@.take(i as int));
                assert(children@.take(i + 1).last() == children@[i as int]);
            }
            self.collect_max_widths(&children[i], max_weight_inner_len, max_temporal_len);
            i = i + 1;
        }
        assert(children@.take(i as int) =~= children@);
    }

    /// Appends a size cell (see `bracket_col`).
    fn format_bracket_col(&self, out: &mut Vec<char>, raw_content: &Vec<char>, max_inner_len: usize)
        requires
            max_inner_len + 3 <= usize::MAX,
        ensures
            final(out)@ == old(out)@ + bracket_col(raw_content@, max_inner_len as nat),
    {
        if max_inner_len == 0 {
            assert(out@ =~= old(out)@ + bracket_col(raw_content@, max_inner_len as nat));
        } else if raw_content.len() == 0 {
            push_repeat(out, ' ', max_inner_len + 3);
        } else {
            out.push('[');
            push_pad_left(out, raw_content, max_inner_len, ' ');
            out.push(']');
            out.push(' ');
            assert(out@ =~= old(out)@ + bracket_col(raw_content@, max_inner_len as nat));
        }
    }

    /// Appends a plain cell (see `plain_col`).
    fn format_col(&self, out: &mut Vec<char>, content: &Vec<char>, max_len: usize)
        requires
            max_len + 1 <= usize::MAX,
        ensures
            final(out)@ == old(out)@ + plain_col(content@, max_len as nat),
    {
        if max_len == 0 {
            assert(out@ =~= old(out)@ + plain_col(content@, max_len as nat));
        } else if content.len() == 0 {
            push_repeat(out, ' ', max_len + 1);
        } else {
            push_pad_left(out, content, max_len, ' ');
            out.push(' ');
            assert(out@ =~= old(out)@ + plain_col(content@, max_len as nat));
        }
    }

    /// Appends one cell of a metadata column.
    fn render_column_cell(
        &self,
        out: &mut Vec<char>,
        col: Column,
        is_first: bool,
        weight_raw: &Vec<char>,
        temp_str: &Vec<char>,
        path_chunk: &Vec<char>,
        w: &Widths,
    )
        requires
            w.max_weight + 3 <= usize::MAX,
            w.max_temporal + 1 <= usize::MAX,
        ensures
            final(out)@ == old(out)@ + self@.cell(col, is_first, weight_raw@, temp_str@, path_chunk@, *w),
    {
        let empty: Vec<char> = Vec::new();
        match col {
            Column::Weight => {
                if is_first {
                    self.format_bracket_col(out, weight_raw, w.max_weight);
                } else {
                    self.format_bracket_col(out, &empty, w.max_weight);
                }
            },
            Column::Temporal => {
                if is_first {
                    self.format_col(out, temp_str, w.max_temporal);
                } else {
                    self.format_col(out, &empty, w.max_temporal);
                }
            },
            Column::Path => {
                let eff_path_width = if self.path_width >= 30 { self.path_width } else { 30 };
                push_pad_right(out, path_chunk, eff_path_width);
                out.push(' ');
                assert(out@ =~= old(out)@ + self@.cell(col, is_first, weight_raw@, temp_str@, path_chunk@, *w));
            },
        }
    }

    /// Appends the cells of a list of columns.
    fn push_cells(
        &self,
        out: &mut Vec<char>,
        cols: &[Column],
        is_first: bool,
        weight_raw: &Vec<char>,
        temp_str: &Vec<char>,
        path_chunk: &Vec<char>,
        w: &Widths,
    )
        requires
            w.max_weight + 3 <= usize::MAX,
            w.max_temporal + 1 <= usize::MAX,
        ensures
            final(out)@ == old(out)@ + self@.cells(cols@, is_first, weight_raw@, temp_str@, path_chunk@, *w),
    {
        let mut i: usize = 0;
        while i < cols.len()
            invariant
                i <= cols@.len(),
                w.max_weight + 3 <= usize::MAX,
                w.max_temporal + 1 <= usize::MAX,
                out@ == old(out)@ + self@.cells(cols@.take(i as int), is_first, weight_raw@, temp_str@, path_chunk@, *w),
            decreases cols.len() - i,
        {
            self.render_column_cell(out, cols[i], is_first, weight_raw, temp_str, path_chunk, w);
            proof {
                assert(cols@.take(i + 1).drop_last() =~= cols@.take(i as int));
                assert(cols@.take(i + 1).last() == cols@[i as int]);
            }
            i = i + 1;
            assert(out@ =~= old(out)@ + self@.cells(cols@.take(i as int), is_first, weight_raw@, temp_str@, path_chunk@, *w));
        }
        assert(cols@.take(i as int) =~= cols@);
    }

    /// Pieces of at most `limit` characters; an empty text gives one empty piece.
    fn chunk_str(&self, s: &Vec<char>, limit: usize) -> (r: Vec<Vec<char>>)
        requires
            limit > 0,
        ensures
            views(r@) == chunk_text(s@, limit as nat),
    {
        chunk_chars(s, limit)
    }
}


/// The continuation prefix of `p` (see `cont_prefix`).
fn cont_prefix_chars(p: &Vec<char>) -> (r: Vec<char>)
    ensures
        r@ == cont_prefix(p@),
{
    let mut cont: Vec<char> = Vec::new();
    let mut k: usize = 0;
    while k < p.len()
        invariant
            k <= p.len(),
            cont@ == cont_prefix(p@).take(k as int),
        decreases p.len() - k,
    {
        let c = p[k];
        cont.push(if c == '│' || c == '├' || c == '┬' || c == '┌' { '│' } else { ' ' });
        k = k + 1;
        assert(cont@ =~= cont_prefix(p@).take(k as int));
    }
    assert(cont@ =~= cont_prefix(p@));
    cont
}

impl<'a> FmtRender<'a> {
    /// Appends one line (see `line`).
    fn push_line(
        &self,
        out: &mut Vec<char>,
        num: &Vec<char>,
        pfx: &Vec<char>,
        nm: &Vec<char>,
        pth: &Vec<char>,
        is_first: bool,
        weight_raw: &Vec<char>,
        temp_str: &Vec<char>,
        w: &Widths,
    )
        requires
            w.max_weight + 3 <= usize::MAX,
            w.max_temporal + 1 <= usize::MAX,
        ensures
            final(out)@ == old(out)@ + self@.line(num@, pfx@, nm@, pth@, is_first, weight_raw@, temp_str@, *w),
    {
        self.push_cells(out, self.left_columns, is_first, weight_raw, temp_str, pth, w);
        push_all(out, num);
        let mut left: Vec<char> = Vec::new();
        push_all(&mut left, pfx);
        left.push(' ');
        push_all(&mut left, nm);
        push_pad_right(out, &left, w.tree_col);
        self.push_cells(out, self.right_columns, is_first, weight_raw, temp_str, pth, w);
        out.push('\n');
        assert(left@ =~= pfx@ + seq![' '] + nm@);
        assert(out@ =~= old(out)@ + self@.line(num@, pfx@, nm@, pth@, is_first, weight_raw@, temp_str@, *w));
    }

    /// Appends the lines of an entry (see `lines`): as many as the longer of
    /// its name pieces and path pieces.
    fn push_lines(
        &self,
        out: &mut Vec<char>,
        line_prefix: &Vec<char>,
        first_num: &Vec<char>,
        names: &Vec<Vec<char>>,
        paths: &Vec<Vec<char>>,
        weight_raw: &Vec<char>,
        temp_str: &Vec<char>,
        w: &Widths,
    )
        requires
            w.max_weight + 3 <= usize::MAX,
            w.max_temporal + 1 <= usize::MAX,
        ensures
            final(out)@ == old(out)@ + self@.lines(
                line_prefix@,
                first_num@,
                views(names@),
                views(paths@),
                weight_raw@,
                temp_str@,
                *w,
                if names.len() >= paths.len() { names.len() as nat } else { paths.len() as nat },
            ),
    {
        let cont = cont_prefix_chars(line_prefix);
        let mut empty_num: Vec<char> = Vec::new();
        self.numeration.push_empty_cell(&mut empty_num, w.max_num);
        assert(empty_num@ =~= self.numeration.spec_empty_cell(w.max_num as nat));
        let empty: Vec<char> = Vec::new();
        let n = if names.len() >= paths.len() { names.len() } else { paths.len() };
        let ghost nv = views(names@);
        let ghost pv = views(paths@);
        let mut i: usize = 0;
        while i < n
            invariant
                i <= n,
                w.max_weight + 3 <= usize::MAX,
                w.max_temporal + 1 <= usize::MAX,
                nv == views(names@),
                pv == views(paths@),
                cont@ == cont_prefix(line_prefix@),
                empty_num@ == self.numeration.spec_empty_cell(w.max_num as nat),
                empty@ == Seq::<char>::empty(),
                out@ == old(out)@ + self@.lines(line_prefix@, first_num@, nv, pv, weight_raw@, temp_str@, *w, i as nat),
            decreases n - i,
        {
            let is_first = i == 0;
            let num = if is_first { first_num } else { &empty_num };
            let pfx = if is_first { line_prefix } else { &cont };
            let nm = if i < names.len() { &names[i] } else { &empty };
            let pth = if i < paths.len() { &paths[i] } else { &empty };
            self.push_line(out, num, pfx, nm, pth, is_first, weight_raw, temp_str, w);
            proof {
                assert(part_or_empty(nv, i as int) == nm@);
                assert(part_or_empty(pv, i as int) == pth@);
            }
            i = i + 1;
        }
    }
}

/// Drawing an entry moves the counter on by its numbered entries.
proof fn lemma_counter_item(r: RenderLayout, item: TreeItem, prefix: Seq<char>, is_last: bool, w: Widths, counter: nat)
    ensures
        r.item_out(item, prefix, is_last, w, counter).1 == counter + r.count_item(item),
    decreases item,
{
    let next = if r.numbered(item) { counter + 1 } else { counter };
    let cp = r.child_prefix(item, prefix, is_last);
    match item {
        TreeItem::Spacer => {},
        TreeItem::Root { children, .. } => {
            lemma_counter_items(r, children@, cp, children@.len() - 1, w, next);
        },
        TreeItem::Node { children, .. } => {
            lemma_counter_items(r, children@, cp, children@.len() - 1, w, next);
        },
    }
}

proof fn lemma_counter_items(r: RenderLayout, s: Seq<TreeItem>, prefix: Seq<char>, last: int, w: Widths, counter: nat)
    ensures
        r.items_out(s, prefix, last, w, counter).1 == counter + r.count_items(s),
    decreases s,
{
    if s.len() > 0 {
        lemma_counter_items(r, s.drop_last(), prefix, last, w, counter);
        let first = r.items_out(s.drop_last(), prefix, last, w, counter);
        lemma_counter_item(r, s.last(), prefix, s.len() - 1 == last, w, first.1);
    }
}

impl<'a> FmtRender<'a> {
    /// Appends the lines of an entry without its children (see `head`).
    fn push_head(&self, out: &mut Vec<char>, item: &TreeItem, line_prefix: &Vec<char>, first_num: &Vec<char>, w: &Widths)
        requires
            w.max_weight + 3 <= usize::MAX,
            w.max_temporal + 1 <= usize::MAX,
            self.stats_temporal.enabled ==> timestamp_ok(modified_of(*item)),
        ensures
            final(out)@ == old(out)@ + self@.head(*item, line_prefix@, first_num@, *w),
    {
        let label = chars_of(item.label());
        let path = match item {
            TreeItem::Root { path, .. } => chars_of(path.as_str()),
            TreeItem::Node { path, .. } => chars_of(path.as_str()),
            TreeItem::Spacer => Vec::new(),
        };
        assert(path@ =~= crate::tree::path_of(*item));
        let eff_name_width = if self.name_width >= 20 { self.name_width } else { 20 };
        let path_limit = if self.path_width == 0 { 1 } else { self.path_width };
        let names = self.chunk_str(&label, eff_name_width);
        let paths = chunk_chars(&path, path_limit);
        let mut weight_raw: Vec<char> = Vec::new();
        self.push_weight(&mut weight_raw, item);
        let mut temp_str: Vec<char> = Vec::new();
        self.push_temporal(&mut temp_str, item);
        assert(weight_raw@ =~= self@.weight_text(*item));
        assert(temp_str@ =~= self@.temporal_text(*item));
        assert(views(names@).len() == names@.len());
        assert(views(paths@).len() == paths@.len());
        self.push_lines(out, line_prefix, first_num, &names, &paths, &weight_raw, &temp_str, w);
        proof {
            reveal(RenderLayout::head);
        }
    }
}

impl<'a> FmtRender<'a> {
    /// Appends the line of a spacer.
    fn push_spacer(&self, out: &mut Vec<char>, prefix: &Vec<char>, w: &Widths)
        requires
            w.max_weight + 3 <= usize::MAX,
            w.max_temporal + 1 <= usize::MAX,
        ensures
            final(out)@ == old(out)@ + self@.spacer_line(prefix@, *w),
    {
        let empty: Vec<char> = Vec::new();
        self.push_cells(out, self.left_columns, false, &empty, &empty, &empty, w);
        self.numeration.push_empty_cell(out, w.max_num);
        push_pad_right(out, prefix, w.tree_col);
        self.push_cells(out, self.right_columns, false, &empty, &empty, &empty, w);
        out.push('\n');
        assert(out@ =~= old(out)@ + self@.spacer_line(prefix@, *w)) by {
            reveal(RenderLayout::spacer_line);
        }
    }

    /// Appends the lines of an entry that is no spacer, takes its number and
    /// gives the prefix for its children.
    fn push_entry_start(
        &self,
        item: &TreeItem,
        prefix: &Vec<char>,
        is_last: bool,
        w: &Widths,
        counter: &mut usize,
        out: &mut Vec<char>,
    ) -> (child_prefix: Vec<char>)
        requires
            !(*item is Spacer),
            w.max_weight + 3 <= usize::MAX,
            w.max_temporal + 1 <= usize::MAX,
            self.stats_temporal.enabled ==> timestamp_ok(modified_of(*item)),
            self@.numbered(*item) ==> *old(counter) < usize::MAX,
        ensures
            final(out)@ == old(out)@ + self@.head(
                *item,
                self@.line_prefix(*item, prefix@, is_last),
                self@.first_num(*item, *w, *old(counter) as nat),
                *w,
            ),
            *final(counter) == (if self@.numbered(*item) { *old(counter) + 1 } else { *old(counter) as int }),
            child_prefix@ == self@.child_prefix(*item, prefix@, is_last),
    {
        let (is_root, is_dir, is_binary, has_children) = match item {
            TreeItem::Root { children, .. } => (true, true, false, children.len() > 0),
            TreeItem::Node { is_dir, is_binary, children, .. } => (false, *is_dir, *is_binary, children.len() > 0),
            TreeItem::Spacer => (false, false, false, false),
        };
        let mut line_prefix: Vec<char> = Vec::new();
        push_all(&mut line_prefix, prefix);
        let symbol = if is_root {
            if has_children { 15 } else { 16 }
        } else {
            entry_symbol(is_dir, has_children, is_last)
        };
        push_tree_symbol(&mut line_prefix, symbol);
        assert(line_prefix@ =~= self@.line_prefix(*item, prefix@, is_last));
        let mut first_num: Vec<char> = Vec::new();
        if !is_root && self.numeration.should_numerate(is_dir, is_binary) {
            self.numeration.push_cell(&mut first_num, *counter, w.max_num);
            *counter = *counter + 1;
        } else {
            self.numeration.push_empty_cell(&mut first_num, w.max_num);
        }
        assert(first_num@ =~= self@.first_num(*item, *w, *old(counter) as nat));
        self.push_head(out, item, &line_prefix, &first_num, w);
        let mut child_prefix: Vec<char> = Vec::new();
        if is_root {
            child_prefix.push(' ');
            child_prefix.push(' ');
        } else {
            push_all(&mut child_prefix, prefix);
            push_tree_symbol(&mut child_prefix, if is_last { 3 } else { 7 });
        }
        assert(child_prefix@ =~= self@.child_prefix(*item, prefix@, is_last));
        child_prefix
    }

    /// Appends an entry and everything below it (see `item_out`), numbering
    /// entries from `counter` on.
    #[verifier::loop_isolation(false)]
    #[verifier::spinoff_prover]
    #[verifier::rlimit(80)]
    fn render_item_combined(
        &self,
        item: &TreeItem,
        prefix: &Vec<char>,
        is_last: bool,
        w: &Widths,
        counter: &mut usize,
        out: &mut Vec<char>,
    )
        requires
            w.max_weight + 3 <= usize::MAX,
            w.max_temporal + 1 <= usize::MAX,
            self.stats_temporal.enabled ==> timestamps_ok_item(*item),
            *old(counter) + self@.count_item(*item) <= usize::MAX,
        ensures
            final(out)@ == old(out)@ + self@.item_out(*item, prefix@, is_last, *w, *old(counter) as nat).0,
            *final(counter) == *old(counter) + self@.count_item(*item),
        decreases item,
    {
        proof {
            lemma_counter_item(self@, *item, prefix@, is_last, *w, *counter as nat);
        }
        let children = match item {
            TreeItem::Spacer => {
                self.push_spacer(out, prefix, w);
                return;
            },
            TreeItem::Root { children, .. } => children,
            TreeItem::Node { children, .. } => children,
        };
        assert(children@ == children_of(*item));
        let child_prefix = self.push_entry_start(item, prefix, is_last, w, counter, out);
        let child_total = children.len();
        let ghost head_end = out@;
        let ghost start = *counter as nat;
        assert(start + self@.count_items(children@) == *old(counter) + self@.count_item(*item));
        let mut i: usize = 0;
        while i < child_total
            invariant
                child_total == children@.len(),
                i <= child_total,
                out@ == head_end + self@.items_out(children@.take(i as int), child_prefix@, child_total - 1, *w, start).0,
                *counter as nat == start + self@.count_items(children@.take(i as int)),
            decreases child_total - i,
        {
            proof {
                assert(decreases_to!(*item => children@[i as int]));
                if self.stats_temporal.enabled {
                    lemma_timestamps_prefix(children@, i as int);
                }
                lemma_count_prefix(self@, children@, i + 1);
                lemma_counter_items(self@, children@.take(i as int), child_prefix@, child_total - 1, *w, start);
                assert(children@.take(i + 1).drop_last() =~= children@.take(i as int));
                assert(children@.take(i + 1).last() == children@[i as int]);
            }
            self.render_item_combined(&children[i], &child_prefix, i == child_total - 1, w, counter, out);
            i = i + 1;
        }
        assert(children@.take(child_total as int) =~= children@);
        assert(out@ =~= old(out)@ + self@.item_out(*item, prefix@, is_last, *w, *old(counter) as nat).0);
    }
}

impl<'a> FmtRender<'a> {
    /// Renders `root_item` and everything below it: per line the left
    /// columns, the number, the tree column `max_prefix_len + 1 + name width`
    /// wide, and the right columns.
    pub fn render(&self, root_item: &TreeItem, max_prefix_len: usize) -> (r: String)
        requires
            self@.render_ok(*root_item, max_prefix_len as nat),
        ensures
            r@ == self@.spec_render(*root_item, max_prefix_len as nat),
    {
        let eff_name_width = if self.name_width >= 20 { self.name_width } else { 20 };
        let total_tree_col_width = max_prefix_len + 1 + eff_name_width;
        let mut total_numerated: usize = 0;
        self.count_numerated(root_item, &mut total_numerated);
        let max_num = if total_numerated == 0 { 0 } else { self.numeration.start_from + total_numerated - 1 };
        let mut max_weight_inner_len: usize = 0;
        let mut max_temporal_len: usize = 0;
        self.collect_max_widths(root_item, &mut max_weight_inner_len, &mut max_temporal_len);
        let w = Widths {
            tree_col: total_tree_col_width,
            max_num,
            max_weight: max_weight_inner_len,
            max_temporal: max_temporal_len,
        };
        assert(w == self@.widths(*root_item, max_prefix_len as nat));
        let mut out: Vec<char> = Vec::new();
        let mut counter = self.numeration.start_from;
        let empty: Vec<char> = Vec::new();
        self.render_item_combined(root_item, &empty, true, &w, &mut counter, &mut out);
        assert(out@ =~= self@.spec_render(*root_item, max_prefix_len as nat));
        string_of(&out)
    }
}

/// The widest prefix of an entry drawn below a prefix of `depth` characters,
/// and of everything below it: a spacer shows the prefix alone; the root adds
/// no symbol and hands its children two blanks; any other entry adds a
/// four-character symbol and hands its children three more characters.
pub open spec fn max_prefix_item(item: TreeItem, depth: nat) -> nat
    decreases item,
{
    match item {
        TreeItem::Spacer => depth,
        TreeItem::Root { children, .. } => max_nat(depth, max_prefix_items(children@, 2)),
        TreeItem::Node { children, .. } => max_nat(depth + 4, max_prefix_items(children@, depth + 3)),
    }
}

pub open spec fn max_prefix_items(s: Seq<TreeItem>, depth: nat) -> nat
    decreases s,
{
    if s.len() == 0 { 0 } else { max_nat(max_prefix_items(s.drop_last(), depth), max_prefix_item(s.last(), depth)) }
}

proof fn lemma_max_prefix_child(s: Seq<TreeItem>, depth: nat, k: int)
    requires
        0 <= k < s.len(),
    ensures
        max_prefix_item(s[k], depth) <= max_prefix_items(s, depth),
    decreases s.len(),
{
    if k < s.len() - 1 {
        lemma_max_prefix_child(s.drop_last(), depth, k);
        assert(s.drop_last()[k] == s[k]);
    }
}

/// The widest prefix of `item` drawn below `depth` characters (see
/// `max_prefix_item`), or `None` when it does not fit in a `usize`.
#[verifier::loop_isolation(false)]
fn max_prefix_from(item: &TreeItem, depth: usize) -> (r: Option<usize>)
    ensures
        r matches Some(m) ==> m == max_prefix_item(*item, depth as nat),
        r is None ==> max_prefix_item(*item, depth as nat) > usize::MAX,
    decreases item,
{
    let (start, child_depth, children) = match item {
        TreeItem::Spacer => {
            return Some(depth);
        },
        TreeItem::Root { children, .. } => (depth, 2usize, children),
        TreeItem::Node { children, .. } => {
            if depth > usize::MAX - 4 {
                return None;
            }
            (depth + 4, depth + 3, children)
        },
    };
    assert(max_prefix_item(*item, depth as nat) == max_nat(start as nat, max_prefix_items(children@, child_depth as nat)));
    let mut m = start;
    let mut i: usize = 0;
    while i < children.len()
        invariant
            i <= children@.len(),
            m as nat == max_nat(start as nat, max_prefix_items(children@.take(i as int), child_depth as nat)),
        decreases children.len() - i,
    {
        proof {
            assert(decreases_to!(*item => children@[i as int]));
            assert(children@.take(i + 1).drop_last() =~= children@.take(i as int));
            assert(children@.take(i + 1).last() == children@[i as int]);
        }
        match max_prefix_from(&children[i], child_depth) {
            Some(c) => {
                if c > m {
                    m = c;
                }
            },
            None => {
                proof {
                    lemma_max_prefix_child(children@, child_depth as nat, i as int);
                }
                return None;
            },
        }
        i = i + 1;
    }
    assert(children@.take(i as int) =~= children@);
    Some(m)
}

/// The widest prefix in the rendering of `item` (see `max_prefix_item`), or
/// `None` when it does not fit in a `usize`.
pub fn calculate_max_prefix_len_for_item(item: &TreeItem) -> (r: Option<usize>)
    ensures
        r matches Some(m) ==> m == max_prefix_item(*item, 0),
        r is None ==> max_prefix_item(*item, 0) > usize::MAX,
{
    max_prefix_from(item, 0)
}

/// Whether every timestamp in the tree can be formatted.
#[verifier::loop_isolation(false)]
fn timestamps_check(item: &TreeItem) -> (r: bool)
    ensures
        r == timestamps_ok_item(*item),
    decreases item,
{
    let (ts, children) = match item {
        TreeItem::Spacer => {
            return true;
        },
        TreeItem::Root { modified_at, children, .. } => (*modified_at, children),
        TreeItem::Node { modified_at, children, .. } => (*modified_at, children),
    };
    if let Some(t) = ts {
        if t > MAX_TIMESTAMP {
            return false;
        }
    }
    let mut i: usize = 0;
    while i < children.len()
        invariant
            i <= children@.len(),
            timestamps_ok_items(children@.take(i as int)),
        decreases children.len() - i,
    {
        proof {
            assert(decreases_to!(*item => children@[i as int]));
            assert(children@.take(i + 1).drop_last() =~= children@.take(i as int));
            assert(children@.take(i + 1).last() == children@[i as int]);
        }
        if !timestamps_check(&children[i]) {
            proof {
                if timestamps_ok_items(children@) {
                    lemma_timestamps_prefix(children@, i as int);
                }
            }
            return false;
        }
        i = i + 1;
    }
    assert(children@.take(i as int) =~= children@);
    true
}

impl<'a> FmtRender<'a> {
    /// `acc` plus the numbered entries of the tree, or `None` when that does
    /// not fit in a `usize`.
    #[verifier::loop_isolation(false)]
    fn count_numerated_checked(&self, item: &TreeItem, acc: usize) -> (r: Option<usize>)
        ensures
            r matches Some(c) ==> c == acc + self@.count_item(*item),
            r is None ==> acc + self@.count_item(*item) > usize::MAX,
        decreases item,
    {
        let (base, children) = match item {
            TreeItem::Spacer => {
                return Some(acc);
            },
            TreeItem::Root { children, .. } => (acc, children),
            TreeItem::Node { is_dir, is_binary, children, .. } => {
                if self.numeration.should_numerate(*is_dir, *is_binary) {
                    if acc == usize::MAX {
                        return None;
                    }
                    (acc + 1, children)
                } else {
                    (acc, children)
                }
            },
        };
        assert(base + self@.count_items(children@) == acc + self@.count_item(*item));
        let mut total = base;
        let mut i: usize = 0;
        while i < children.len()
            invariant
                i <= children@.len(),
                total == base + self@.count_items(children@.take(i as int)),
            decreases children.len() - i,
        {
            proof {
                assert(decreases_to!(*item => children@[i as int]));
                assert(children@.take(i + 1).drop_last() =~= children@.take(i as int));
                assert(children@.take(i + 1).last() == children@[i as int]);
                lemma_count_prefix(self@, children@, i + 1);
            }
            match self.count_numerated_checked(&children[i], total) {
                Some(t) => {
                    total = t;
                },
                None => {
                    return None;
                },
            }
            i = i + 1;
        }
        assert(children@.take(i as int) =~= children@);
        Some(total)
    }

    /// Whether `root_item` can be rendered with prefixes of `max_prefix_len`
    /// characters (see `render_ok`).
    pub fn check_render(&self, root_item: &TreeItem, max_prefix_len: usize) -> (r: bool)
        ensures
            r == self@.render_ok(*root_item, max_prefix_len as nat),
    {
        let eff_name_width = if self.name_width >= 20 { self.name_width } else { 20 };
        if max_prefix_len >= usize::MAX - eff_name_width {
            return false;
        }
        if self.count_numerated_checked(root_item, self.numeration.start_from).is_none() {
            return false;
        }
        if self.stats_temporal.enabled && !timestamps_check(root_item) {
            return false;
        }
        let mut max_weight_inner_len: usize = 0;
        let mut max_temporal_len: usize = 0;
        self.collect_max_widths(root_item, &mut max_weight_inner_len, &mut max_temporal_len);
        max_weight_inner_len <= usize::MAX - 3 && max_temporal_len <= usize::MAX - 1
    }
}

impl RenderLayout {
    /// The first line of an entry, with number cell `num`: the first piece
    /// of its name and of its path, its size and its time.
    pub open spec fn first_line(self, item: TreeItem, line_prefix: Seq<char>, num: Seq<char>, w: Widths) -> Seq<char> {
        let names = chunk_text(crate::tree::label_of(item), self.eff_name_width());
        let paths = self.path_pieces(crate::tree::path_of(item));
        self.line(num, line_prefix, part_or_empty(names, 0), part_or_empty(paths, 0), true,
            self.weight_text(item), self.temporal_text(item), w)
    }
}

/// The lines of an entry start with its first line.
proof fn lemma_lines_start(
    r: RenderLayout,
    line_prefix: Seq<char>,
    num: Seq<char>,
    names: Seq<Seq<char>>,
    paths: Seq<Seq<char>>,
    weight_raw: Seq<char>,
    temp_str: Seq<char>,
    w: Widths,
    n: nat,
)
    requires
        n >= 1,
    ensures
        ({
            let first = r.line(num, line_prefix, part_or_empty(names, 0), part_or_empty(paths, 0), true, weight_raw, temp_str, w);
            let all = r.lines(line_prefix, num, names, paths, weight_raw, temp_str, w, n);
            all.len() >= first.len() && all.take(first.len() as int) == first
        }),
    decreases n,
{
    let first = r.line(num, line_prefix, part_or_empty(names, 0), part_or_empty(paths, 0), true, weight_raw, temp_str, w);
    if n == 1 {
        assert(r.lines(line_prefix, num, names, paths, weight_raw, temp_str, w, 0) =~= Seq::<char>::empty());
        assert(r.lines(line_prefix, num, names, paths, weight_raw, temp_str, w, 1) =~= first);
    } else {
        lemma_lines_start(r, line_prefix, num, names, paths, weight_raw, temp_str, w, (n - 1) as nat);
        let a = r.lines(line_prefix, num, names, paths, weight_raw, temp_str, w, (n - 1) as nat);
        let all = r.lines(line_prefix, num, names, paths, weight_raw, temp_str, w, n);
        assert(all.take(first.len() as int) =~= a.take(first.len() as int));
    }
}

/// Lines after the first do not depend on the number cell of the entry.
proof fn lemma_lines_number_first(
    r: RenderLayout,
    line_prefix: Seq<char>,
    num: Seq<char>,
    names: Seq<Seq<char>>,
    paths: Seq<Seq<char>>,
    weight_raw: Seq<char>,
    temp_str: Seq<char>,
    w: Widths,
    n: nat,
)
    requires
        n >= 1,
    ensures
        ({
            let e = r.numeration.spec_empty_cell(w.max_num as nat);
            let first = r.line(num, line_prefix, part_or_empty(names, 0), part_or_empty(paths, 0), true, weight_raw, temp_str, w);
            let first_e = r.line(e, line_prefix, part_or_empty(names, 0), part_or_empty(paths, 0), true, weight_raw, temp_str, w);
            r.lines(line_prefix, num, names, paths, weight_raw, temp_str, w, n)
                == first + r.lines(line_prefix, e, names, paths, weight_raw, temp_str, w, n).skip(first_e.len() as int)
        }),
    decreases n,
{
    let e = r.numeration.spec_empty_cell(w.max_num as nat);
    let first = r.line(num, line_prefix, part_or_empty(names, 0), part_or_empty(paths, 0), true, weight_raw, temp_str, w);
    let first_e = r.line(e, line_prefix, part_or_empty(names, 0), part_or_empty(paths, 0), true, weight_raw, temp_str, w);
    let k = first_e.len() as int;
    if n == 1 {
        assert(r.lines(line_prefix, num, names, paths, weight_raw, temp_str, w, 0) =~= Seq::<char>::empty());
        assert(r.lines(line_prefix, num, names, paths, weight_raw, temp_str, w, 1) =~= first);
        assert(r.lines(line_prefix, e, names, paths, weight_raw, temp_str, w, 0) =~= Seq::<char>::empty());
        assert(r.lines(line_prefix, e, names, paths, weight_raw, temp_str, w, 1) =~= first_e);
        assert(first_e.skip(k) =~= Seq::<char>::empty());
        assert(first + Seq::<char>::empty() =~= first);
    } else {
        let m = (n - 1) as nat;
        lemma_lines_number_first(r, line_prefix, num, names, paths, weight_raw, temp_str, w, m);
        lemma_lines_start(r, line_prefix, e, names, paths, weight_raw, temp_str, w, m);
        let a = r.lines(line_prefix, e, names, paths, weight_raw, temp_str, w, m);
        let i = n - 1;
        let last = r.line(
            e,
            cont_prefix(line_prefix),
            part_or_empty(names, i),
            part_or_empty(paths, i),
            false,
            weight_raw,
            temp_str,
            w,
        );
        assert(r.lines(line_prefix, e, names, paths, weight_raw, temp_str, w, n) == a + last);
        assert((a + last).skip(k) =~= a.skip(k) + last);
        assert(r.lines(line_prefix, num, names, paths, weight_raw, temp_str, w, n)
            == r.lines(line_prefix, num, names, paths, weight_raw, temp_str, w, m) + last);
        assert(first + (a.skip(k) + last) =~= (first + a.skip(k)) + last);
    }
}

/// An entry's number shows on its first line alone: after that line, the
/// lines of an entry drawn with any number cell are those of the same entry
/// drawn with the empty number cell (blanks of the column's width). So an
/// entry whose name or path takes several lines carries its number once.
pub proof fn law_number_on_first_line_only(r: RenderLayout, item: TreeItem, line_prefix: Seq<char>, num: Seq<char>, w: Widths)
    ensures
        ({
            let e = r.numeration.spec_empty_cell(w.max_num as nat);
            r.head(item, line_prefix, num, w) == r.first_line(item, line_prefix, num, w)
                + r.head(item, line_prefix, e, w).skip(r.first_line(item, line_prefix, e, w).len() as int)
        }),
{
    reveal(RenderLayout::head);
    let names = chunk_text(crate::tree::label_of(item), r.eff_name_width());
    let paths = r.path_pieces(crate::tree::path_of(item));
    let n = if names.len() >= paths.len() { names.len() } else { paths.len() };
    let path = crate::tree::path_of(item);
    if path.len() > 0 {
        crate::text::lemma_chunks(path, if r.path_width == 0 { 1 } else { r.path_width as nat });
    }
    assert(paths.len() >= 1);
    lemma_lines_number_first(r, line_prefix, num, names, paths, r.weight_text(item), r.temporal_text(item), w, n);
}

/// Whether `t` is a run of lines of `n` characters each, every one ending in
/// a line break.
pub open spec fn uniform_lines(t: Seq<char>, n: nat) -> bool
    decreases t.len(),
{
    if t.len() == 0 {
        true
    } else if n == 0 || t.len() < n {
        false
    } else {
        t[n - 1] == '\n' && uniform_lines(t.skip(n as int), n)
    }
}

proof fn lemma_uniform_line(l: Seq<char>, n: nat)
    requires
        n > 0,
        l.len() == n,
        l[n - 1] == '\n',
    ensures
        uniform_lines(l, n),
{
    assert(l.skip(n as int) =~= Seq::<char>::empty());
    assert(uniform_lines(l.skip(n as int), n));
}

proof fn lemma_uniform_concat(a: Seq<char>, b: Seq<char>, n: nat)
    requires
        uniform_lines(a, n),
        uniform_lines(b, n),
    ensures
        uniform_lines(a + b, n),
    decreases a.len(),
{
    if a.len() == 0 {
        assert(a + b =~= b);
    } else {
        lemma_uniform_concat(a.skip(n as int), b, n);
        assert((a + b).skip(n as int) =~= a.skip(n as int) + b);
        assert((a + b)[n - 1] == a[n - 1]);
    }
}

impl RenderLayout {
    /// Width of a cell of column `col`.
    pub open spec fn cell_width(self, col: Column, w: Widths) -> nat {
        match col {
            Column::Weight => if w.max_weight == 0 { 0 } else { (w.max_weight + 3) as nat },
            Column::Temporal => if w.max_temporal == 0 { 0 } else { (w.max_temporal + 1) as nat },
            Column::Path => self.eff_path_width() + 1,
        }
    }

    /// Width of the cells of a list of columns.
    pub open spec fn cells_width(self, cols: Seq<Column>, w: Widths) -> nat
        decreases cols.len(),
    {
        if cols.len() == 0 { 0 } else { self.cells_width(cols.drop_last(), w) + self.cell_width(cols.last(), w) }
    }

    /// Width of every line of a rendering, its line break included.
    pub open spec fn line_width(self, w: Widths) -> nat {
        self.cells_width(self.left_columns, w) + self.numeration.spec_column_width(w.max_num as nat) + w.tree_col as nat
            + self.cells_width(self.right_columns, w) + 1
    }

    /// What every line of an entry needs to fit its columns: a number cell
    /// of the column's width, a prefix that leaves room for a full name piece,
    /// and size and time texts no wider than their columns.
    pub open spec fn entry_fits(self, item: TreeItem, line_prefix: Seq<char>, first_num: Seq<char>, w: Widths) -> bool {
        &&& first_num.len() == self.numeration.spec_column_width(w.max_num as nat)
        &&& line_prefix.len() + 1 + self.eff_name_width() <= w.tree_col
        &&& self.weight_text(item).len() <= w.max_weight
        &&& self.temporal_text(item).len() <= w.max_temporal
    }
}

proof fn lemma_cell_len(r: RenderLayout, col: Column, is_first: bool, raw: Seq<char>, temp: Seq<char>, path: Seq<char>, w: Widths)
    requires
        is_first ==> raw.len() <= w.max_weight && temp.len() <= w.max_temporal,
        path.len() <= r.eff_path_width(),
    ensures
        r.cell(col, is_first, raw, temp, path, w).len() == r.cell_width(col, w),
{
}

proof fn lemma_cells_len(r: RenderLayout, cols: Seq<Column>, is_first: bool, raw: Seq<char>, temp: Seq<char>, path: Seq<char>, w: Widths)
    requires
        is_first ==> raw.len() <= w.max_weight && temp.len() <= w.max_temporal,
        path.len() <= r.eff_path_width(),
    ensures
        r.cells(cols, is_first, raw, temp, path, w).len() == r.cells_width(cols, w),
    decreases cols.len(),
{
    if cols.len() > 0 {
        lemma_cells_len(r, cols.drop_last(), is_first, raw, temp, path, w);
        lemma_cell_len(r, cols.last(), is_first, raw, temp, path, w);
    }
}

proof fn lemma_line_uniform(
    r: RenderLayout,
    num: Seq<char>,
    pfx: Seq<char>,
    name: Seq<char>,
    path: Seq<char>,
    is_first: bool,
    raw: Seq<char>,
    temp: Seq<char>,
    w: Widths,
)
    requires
        num.len() == r.numeration.spec_column_width(w.max_num as nat),
        pfx.len() + 1 + name.len() <= w.tree_col,
        path.len() <= r.eff_path_width(),
        is_first ==> raw.len() <= w.max_weight && temp.len() <= w.max_temporal,
    ensures
        uniform_lines(r.line(num, pfx, name, path, is_first, raw, temp, w), r.line_width(w)),
{
    lemma_cells_len(r, r.left_columns, is_first, raw, temp, path, w);
    lemma_cells_len(r, r.right_columns, is_first, raw, temp, path, w);
    let l = r.line(num, pfx, name, path, is_first, raw, temp, w);
    assert(l.len() == r.line_width(w));
    assert(l[l.len() - 1] == '\n');
    lemma_uniform_line(l, r.line_width(w));
}

proof fn lemma_lines_uniform(
    r: RenderLayout,
    line_prefix: Seq<char>,
    first_num: Seq<char>,
    names: Seq<Seq<char>>,
    paths: Seq<Seq<char>>,
    raw: Seq<char>,
    temp: Seq<char>,
    w: Widths,
    n: nat,
)
    requires
        first_num.len() == r.numeration.spec_column_width(w.max_num as nat),
        line_prefix.len() + 1 + r.eff_name_width() <= w.tree_col,
        forall|i: int| 0 <= i < names.len() ==> #[trigger] names[i].len() <= r.eff_name_width(),
        forall|i: int| 0 <= i < paths.len() ==> #[trigger] paths[i].len() <= r.eff_path_width(),
        raw.len() <= w.max_weight,
        temp.len() <= w.max_temporal,
    ensures
        uniform_lines(r.lines(line_prefix, first_num, names, paths, raw, temp, w, n), r.line_width(w)),
    decreases n,
{
    if n > 0 {
        let i = n - 1;
        lemma_lines_uniform(r, line_prefix, first_num, names, paths, raw, temp, w, (n - 1) as nat);
        let num = if i == 0 { first_num } else { r.numeration.spec_empty_cell(w.max_num as nat) };
        let pfx = if i == 0 { line_prefix } else { cont_prefix(line_prefix) };
        let name = part_or_empty(names, i);
        let path = part_or_empty(paths, i);
        assert(pfx.len() == line_prefix.len());
        lemma_line_uniform(r, num, pfx, name, path, i == 0, raw, temp, w);
        lemma_uniform_concat(
            r.lines(line_prefix, first_num, names, paths, raw, temp, w, (n - 1) as nat),
            r.line(num, pfx, name, path, i == 0, raw, temp, w),
            r.line_width(w),
        );
    }
}

proof fn lemma_pieces_fit(s: Seq<char>, limit: nat, bound: nat)
    requires
        0 < limit <= bound,
    ensures
        forall|i: int| 0 <= i < chunk_text(s, limit).len() ==> #[trigger] chunk_text(s, limit)[i].len() <= bound,
{
    if s.len() > 0 {
        crate::text::lemma_chunks(s, limit);
    }
}

proof fn lemma_head_uniform(r: RenderLayout, item: TreeItem, line_prefix: Seq<char>, first_num: Seq<char>, w: Widths)
    requires
        r.entry_fits(item, line_prefix, first_num, w),
    ensures
        uniform_lines(r.head(item, line_prefix, first_num, w), r.line_width(w)),
{
    reveal(RenderLayout::head);
    let names = chunk_text(crate::tree::label_of(item), r.eff_name_width());
    let limit: nat = if r.path_width == 0 { 1 } else { r.path_width as nat };
    let paths = r.path_pieces(crate::tree::path_of(item));
    lemma_pieces_fit(crate::tree::label_of(item), r.eff_name_width(), r.eff_name_width());
    lemma_pieces_fit(crate::tree::path_of(item), limit, r.eff_path_width());
    let n = if names.len() >= paths.len() { names.len() } else { paths.len() };
    lemma_lines_uniform(r, line_prefix, first_num, names, paths, r.weight_text(item), r.temporal_text(item), w, n);
}

impl RenderLayout {
    /// What an entry and everything below it need so that all their lines
    /// fit the columns: prefixes that leave room for a full name piece, size
    /// and time texts no wider than their columns, and numbers up to the
    /// largest one counted.
    pub open spec fn subtree_fits(self, item: TreeItem, depth: nat, w: Widths, counter: nat) -> bool {
        &&& max_prefix_item(item, depth) + 1 + self.eff_name_width() <= w.tree_col
        &&& self.max_weight_item(item) <= w.max_weight
        &&& self.max_temporal_item(item) <= w.max_temporal
        &&& (self.count_item(item) == 0 || counter + self.count_item(item) <= w.max_num + 1)
    }

    pub open spec fn subtrees_fit(self, s: Seq<TreeItem>, depth: nat, w: Widths, counter: nat) -> bool {
        &&& max_prefix_items(s, depth) + 1 + self.eff_name_width() <= w.tree_col
        &&& self.max_weight_items(s) <= w.max_weight
        &&& self.max_temporal_items(s) <= w.max_temporal
        &&& (self.count_items(s) == 0 || counter + self.count_items(s) <= w.max_num + 1)
    }
}

proof fn lemma_symbol_len(i: int)
    requires
        0 <= i <= 6,
        i != 3,
    ensures
        spec_tree_symbol(i).len() == 4,
{
}

proof fn lemma_item_uniform(r: RenderLayout, item: TreeItem, prefix: Seq<char>, is_last: bool, w: Widths, counter: nat)
    requires
        r.subtree_fits(item, prefix.len(), w, counter),
    ensures
        uniform_lines(r.item_out(item, prefix, is_last, w, counter).0, r.line_width(w)),
    decreases item,
{
    let next = if r.numbered(item) { counter + 1 } else { counter };
    let cp = r.child_prefix(item, prefix, is_last);
    let lp = r.line_prefix(item, prefix, is_last);
    let fnum = r.first_num(item, w, counter);
    law_cells_align(r.numeration, 0, w.max_num as nat);
    match item {
        TreeItem::Spacer => {
            reveal(RenderLayout::spacer_line);
            lemma_cells_len(r, r.left_columns, false, Seq::empty(), Seq::empty(), Seq::empty(), w);
            lemma_cells_len(r, r.right_columns, false, Seq::empty(), Seq::empty(), Seq::empty(), w);
            let l = r.spacer_line(prefix, w);
            assert(l.len() == r.line_width(w));
            lemma_uniform_line(l, r.line_width(w));
        },
        TreeItem::Root { children, .. } => {
            assert(lp =~= prefix);
            assert(r.entry_fits(item, lp, fnum, w));
            lemma_head_uniform(r, item, lp, fnum, w);
            lemma_items_uniform(r, children@, cp, children@.len() - 1, w, next);
            lemma_uniform_concat(
                r.head(item, lp, fnum, w),
                r.items_out(children@, cp, children@.len() - 1, w, next).0,
                r.line_width(w),
            );
        },
        TreeItem::Node { is_dir, children, .. } => {
            lemma_symbol_len(entry_symbol_index(is_dir, children@.len() > 0, is_last));
            if r.numbered(item) {
                law_cells_align(r.numeration, counter, w.max_num as nat);
            }
            assert(r.entry_fits(item, lp, fnum, w));
            lemma_head_uniform(r, item, lp, fnum, w);
            assert(cp.len() == prefix.len() + 3);
            lemma_items_uniform(r, children@, cp, children@.len() - 1, w, next);
            lemma_uniform_concat(
                r.head(item, lp, fnum, w),
                r.items_out(children@, cp, children@.len() - 1, w, next).0,
                r.line_width(w),
            );
        },
    }
}

proof fn lemma_items_uniform(r: RenderLayout, s: Seq<TreeItem>, prefix: Seq<char>, last: int, w: Widths, counter: nat)
    requires
        r.subtrees_fit(s, prefix.len(), w, counter),
    ensures
        uniform_lines(r.items_out(s, prefix, last, w, counter).0, r.line_width(w)),
    decreases s,
{
    if s.len() > 0 {
        lemma_items_uniform(r, s.drop_last(), prefix, last, w, counter);
        let first = r.items_out(s.drop_last(), prefix, last, w, counter);
        lemma_counter_items(r, s.drop_last(), prefix, last, w, counter);
        lemma_item_uniform(r, s.last(), prefix, s.len() - 1 == last, w, first.1);
        lemma_uniform_concat(
            first.0,
            r.item_out(s.last(), prefix, s.len() - 1 == last, w, first.1).0,
            r.line_width(w),
        );
    }
}

/// Every line of a rendering has one width: the rendering is a run of
/// lines of `line_width` characters, each ending in a line break, so every
/// column stands at the same place on every line.
pub proof fn law_render_lines_align(r: RenderLayout, root: TreeItem, max_prefix_len: nat)
    requires
        r.render_ok(root, max_prefix_len),
        max_prefix_item(root, 0) <= max_prefix_len,
    ensures
        uniform_lines(r.spec_render(root, max_prefix_len), r.line_width(r.widths(root, max_prefix_len))),
{
    let w = r.widths(root, max_prefix_len);
    assert(r.subtree_fits(root, 0, w, r.numeration.start_from as nat));
    assert(Seq::<char>::empty().len() == 0);
    lemma_item_uniform(r, root, Seq::empty(), true, w, r.numeration.start_from as nat);
}

} // verus!
