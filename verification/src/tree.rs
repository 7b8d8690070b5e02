//! The tree model shared by all renderers, and a plain two-column tree renderer
//! (names on the left, paths on the right).
use vstd::prelude::*;
use crate::text::{
    chars_of, chunk_chars, chunk_text, ends_with, ends_with_chars, pad_right, part_or_empty,
    push_all, push_pad_right, skip_chars, string_of, take_chars, views,
};

verus! {

/// One entry of a rendered tree.
#[derive(Debug)]
pub enum TreeItem {
    /// The scanned root directory.
    Root {
        label: String,
        path: String,
        matched_size: u64,
        real_size: u64,
        modified_at: Option<u64>,
        children: Vec<TreeItem>,
    },
    /// A directory or a file below the root.
    Node {
        label: String,
        is_dir: bool,
        is_binary: bool,
        path: String,
        size: u64,
        matched_size: u64,
        real_size: u64,
        modified_at: Option<u64>,
        children: Vec<TreeItem>,
    },
    /// A visual gap that carries on the vertical lines of the enclosing branches.
    Spacer,
}

/// The name shown for an item (a spacer has none).
pub open spec fn label_of(item: TreeItem) -> Seq<char> {
    match item {
        TreeItem::Root { label, .. } => label@,
        TreeItem::Node { label, .. } => label@,
        TreeItem::Spacer => Seq::empty(),
    }
}

/// The path shown for an item.
pub open spec fn path_of(item: TreeItem) -> Seq<char> {
    match item {
        TreeItem::Root { path, .. } => path@,
        TreeItem::Node { path, .. } => path@,
        TreeItem::Spacer => Seq::empty(),
    }
}

/// Whether an item stands for a directory (the root is one).
pub open spec fn is_dir_of(item: TreeItem) -> bool {
    match item {
        TreeItem::Root { .. } => true,
        TreeItem::Node { is_dir, .. } => is_dir,
        TreeItem::Spacer => false,
    }
}

/// Whether an item stands for a binary file.
pub open spec fn is_binary_of(item: TreeItem) -> bool {
    match item {
        TreeItem::Node { is_binary, .. } => is_binary,
        _ => false,
    }
}

/// The children of an item (a spacer has none).
pub open spec fn children_of(item: TreeItem) -> Seq<TreeItem> {
    match item {
        TreeItem::Root { children, .. } => children@,
        TreeItem::Node { children, .. } => children@,
        TreeItem::Spacer => Seq::empty(),
    }
}

/// `b` is a copy of `a`: the same kind of entry with the same fields, and
/// children that are copies of `a`'s children in the same order.
pub open spec fn same_tree(a: TreeItem, b: TreeItem) -> bool
    decreases a, 1nat,
{
    match (a, b) {
        (
            TreeItem::Root { label: l1, path: p1, matched_size: m1, real_size: r1, modified_at: t1, children: c1 },
            TreeItem::Root { label: l2, path: p2, matched_size: m2, real_size: r2, modified_at: t2, children: c2 },
        ) => {
            &&& l1@ == l2@ && p1@ == p2@ && m1 == m2 && r1 == r2 && t1 == t2
            &&& same_children(c1@, c2@)
        },
        (
            TreeItem::Node { label: l1, is_dir: d1, is_binary: b1, path: p1, size: s1, matched_size: m1, real_size: r1, modified_at: t1, children: c1 },
            TreeItem::Node { label: l2, is_dir: d2, is_binary: b2, path: p2, size: s2, matched_size: m2, real_size: r2, modified_at: t2, children: c2 },
        ) => {
            &&& l1@ == l2@ && d1 == d2 && b1 == b2 && p1@ == p2@ && s1 == s2 && m1 == m2 && r1 == r2 && t1 == t2
            &&& same_children(c1@, c2@)
        },
        (TreeItem::Spacer, TreeItem::Spacer) => true,
        _ => false,
    }
}

/// `b` holds copies of the entries of `a`, in the same order.
pub open spec fn same_children(a: Seq<TreeItem>, b: Seq<TreeItem>) -> bool
    decreases a, 0nat,
{
    &&& a.len() == b.len()
    &&& (a.len() == 0 || (same_children(a.drop_last(), b.drop_last()) && same_tree(a.last(), b.last())))
}

impl TreeItem {
    /// A copy of the entry and of everything below it.
    fn copy_item(&self) -> (r: TreeItem)
        ensures
            same_tree(*self, r),
        decreases self,
    {
        match self {
            TreeItem::Spacer => TreeItem::Spacer,
            TreeItem::Root { label, path, matched_size, real_size, modified_at, children } => {
                let copies = copy_children(self, children);
                TreeItem::Root {
                    label: label.clone(),
                    path: path.clone(),
                    matched_size: *matched_size,
                    real_size: *real_size,
                    modified_at: *modified_at,
                    children: copies,
                }
            },
            TreeItem::Node { label, is_dir, is_binary, path, size, matched_size, real_size, modified_at, children } => {
                let copies = copy_children(self, children);
                TreeItem::Node {
                    label: label.clone(),
                    is_dir: *is_dir,
                    is_binary: *is_binary,
                    path: path.clone(),
                    size: *size,
                    matched_size: *matched_size,
                    real_size: *real_size,
                    modified_at: *modified_at,
                    children: copies,
                }
            },
        }
    }

    /// The item's name (a spacer has none).
    pub fn label(&self) -> (r: &str)
        ensures
            r@ == label_of(*self),
    {
        match self {
            TreeItem::Root { label, .. } => label.as_str(),
            TreeItem::Node { label, .. } => label.as_str(),
            TreeItem::Spacer => {
                let empty = "";
                proof {
                    reveal_strlit("");
                }
                empty
            },
        }
    }

    /// Whether the item stands for a directory.
    pub fn is_dir(&self) -> (r: bool)
        ensures
            r == is_dir_of(*self),
    {
        match self {
            TreeItem::Root { .. } => true,
            TreeItem::Node { is_dir, .. } => *is_dir,
            TreeItem::Spacer => false,
        }
    }
}

/// Copies of the children of `parent`, in order.
fn copy_children(parent: &TreeItem, children: &Vec<TreeItem>) -> (r: Vec<TreeItem>)
    requires
        children@ == children_of(*parent),
        !(parent is Spacer),
    ensures
        same_children(children@, r@),
    decreases parent, 0nat,
{
    let mut copies: Vec<TreeItem> = Vec::new();
    let mut i: usize = 0;
    while i < children.len()
        invariant
            i <= children@.len(),
            children@ == children_of(*parent),
            !(parent is Spacer),
            same_children(children@.take(i as int), copies@),
        decreases children@.len() - i,
    {
        proof {
            assert(decreases_to!(*parent => children@[i as int]));
        }
        let c = children[i].copy_item();
        let ghost before = copies@;
        copies.push(c);
        i = i + 1;
        assert(children@.take(i as int).drop_last() =~= children@.take(i - 1));
        assert(copies@.drop_last() =~= before);
        assert(children@.take(i as int).last() == children@[i - 1]);
    }
    assert(children@.take(i as int) =~= children@);
    copies
}

impl Clone for TreeItem {
    /// A copy of the entry and of everything below it.
    fn clone(&self) -> (r: Self)
        ensures
            same_tree(*self, r),
    {
        self.copy_item()
    }
}

/// The drawing symbols: index 0 to 14; any other index gives no text.
pub open spec fn spec_tree_symbol(i: int) -> Seq<char> {
    if i == 0 { seq!['└', '─', '─', '─'] }
    else if i == 1 { seq!['└', '─', '─', '┬'] }
    else if i == 2 { seq!['└', '─', '─', '•'] }
    else if i == 3 { seq![' ', ' ', ' '] }
    else if i == 4 { seq!['├', '─', '─', '─'] }
    else if i == 5 { seq!['├', '─', '─', '┬'] }
    else if i == 6 { seq!['├', '─', '─', '•'] }
    else if i == 7 { seq!['│', ' ', ' '] }
    else if i == 8 { seq![' ', ' ', '├', '─', '─', '─'] }
    else if i == 9 { seq![' ', ' ', '└', '─', '─', '─'] }
    else if i == 10 { seq![' ', ' ', ' ', ' ', '•'] }
    else if i == 11 { seq![' ', ' ', '├', '─', '─', '•'] }
    else if i == 12 { seq![' ', ' ', '┌', '─', '─', '•'] }
    else if i == 13 { seq![' ', ' ', '└', '─', '─', '•'] }
    else if i == 14 { seq![' ', ' ', ' ', '─', '─', '•'] }
    else { Seq::empty() }
}

/// Appends symbol `i` to `out`.
pub fn push_tree_symbol(out: &mut Vec<char>, i: usize)
    ensures
        final(out)@ == old(out)@ + spec_tree_symbol(i as int),
{
    let s: Vec<char> = if i == 0 { vec!['└', '─', '─', '─'] }
    else if i == 1 { vec!['└', '─', '─', '┬'] }
    else if i == 2 { vec!['└', '─', '─', '•'] }
    else if i == 3 { vec![' ', ' ', ' '] }
    else if i == 4 { vec!['├', '─', '─', '─'] }
    else if i == 5 { vec!['├', '─', '─', '┬'] }
    else if i == 6 { vec!['├', '─', '─', '•'] }
    else if i == 7 { vec!['│', ' ', ' '] }
    else if i == 8 { vec![' ', ' ', '├', '─', '─', '─'] }
    else if i == 9 { vec![' ', ' ', '└', '─', '─', '─'] }
    else if i == 10 { vec![' ', ' ', ' ', ' ', '•'] }
    else if i == 11 { vec![' ', ' ', '├', '─', '─', '•'] }
    else if i == 12 { vec![' ', ' ', '┌', '─', '─', '•'] }
    else if i == 13 { vec![' ', ' ', '└', '─', '─', '•'] }
    else if i == 14 { vec![' ', ' ', ' ', '─', '─', '•'] }
    else { Vec::new() };
    assert(s@ =~= spec_tree_symbol(i as int));
    push_all(out, &s);
}

/// The drawing symbol `index` (the full set of fifteen); any other index gives
/// an empty string.
pub fn tree_symbol(index: usize) -> (r: String)
    ensures
        r@ == spec_tree_symbol(index as int),
{
    let mut out: Vec<char> = Vec::new();
    push_tree_symbol(&mut out, index);
    assert(out@ =~= spec_tree_symbol(index as int));
    string_of(&out)
}

/// Index of the symbol that opens the line of an entry.
pub open spec fn entry_symbol_index(is_dir: bool, has_children: bool, is_last: bool) -> int {
    if is_dir {
        if has_children {
            if is_last { 1 } else { 5 }
        } else {
            if is_last { 0 } else { 4 }
        }
    } else {
        if is_last { 2 } else { 6 }
    }
}

/// The symbol that opens the line of an entry has four characters: a corner
/// `└` for the last entry of its level and a tee `├` for any other, two
/// dashes, and an end that tells the kind of entry: the bullet `•` for a
/// file, `┬` for a directory with entries below it, `─` for an empty
/// directory. So a directory never ends in the bullet, and a file always does.
pub proof fn law_entry_symbol_shape(is_dir: bool, has_children: bool, is_last: bool)
    ensures
        ({
            let sym = spec_tree_symbol(entry_symbol_index(is_dir, has_children, is_last));
            &&& sym.len() == 4
            &&& sym[0] == (if is_last { '└' } else { '├' })
            &&& sym[1] == '─' && sym[2] == '─'
            &&& sym[3] == (if !is_dir { '•' } else if has_children { '┬' } else { '─' })
        }),
{
}

/// The symbol that the children of an entry carry below it: a vertical bar
/// `│` that goes on to the next entries of the level, and blanks below the
/// last one, three characters in either case.
pub proof fn law_child_symbol_shape(is_last: bool)
    ensures
        ({
            let sym = spec_tree_symbol(if is_last { 3 } else { 7 });
            &&& sym.len() == 3
            &&& sym[0] == (if is_last { ' ' } else { '│' })
            &&& sym[1] == ' ' && sym[2] == ' '
        }),
{
}

pub fn entry_symbol(is_dir: bool, has_children: bool, is_last: bool) -> (r: usize)
    ensures
        r as int == entry_symbol_index(is_dir, has_children, is_last),
{
    if is_dir {
        if has_children {
            if is_last { 1 } else { 5 }
        } else {
            if is_last { 0 } else { 4 }
        }
    } else {
        if is_last { 2 } else { 6 }
    }
}

/// The prefix of continuation lines: vertical bars stay, all else turns blank.
pub open spec fn plain_cont_prefix(p: Seq<char>) -> Seq<char> {
    Seq::new(p.len(), |i: int| if p[i] == '│' { '│' } else { ' ' })
}

/// A plain tree: root items, the width of the name column and an optional
/// limit on the characters of a name per line.
pub struct Tree {
    pub root_items: Vec<TreeItem>,
    pub column_width: usize,
    pub max_name_len: Option<usize>,
}

/// The settings that shape a drawing: width of the name column and the
/// optional limit on name characters per line.
#[derive(Debug, Clone, Copy)]
pub struct TreeLayout {
    pub column_width: usize,
    pub max_name_len: Option<usize>,
}

impl TreeLayout {
    /// Name chunks and path chunks of one entry. Without a positive limit both
    /// stay whole. With one, the name is cut into chunks of the limit; a file
    /// path that ends with the name gets the same cut (its directory part
    /// joined to the first chunk), any other path is cut on its own.
    pub open spec fn spec_split_chunks(self, name: Seq<char>, full_path: Seq<char>) -> (Seq<Seq<char>>, Seq<Seq<char>>) {
        match self.max_name_len {
            Some(limit) if limit > 0 => {
                let names = chunk_text(name, limit as nat);
                let paths = if full_path.len() != 0 && full_path.last() != '/' && ends_with(full_path, name) {
                    seq![full_path.take(full_path.len() - name.len()) + names[0]] + names.skip(1)
                } else {
                    chunk_text(full_path, limit as nat)
                };
                (names, paths)
            },
            _ => (seq![name], seq![full_path]),
        }
    }

    /// One output line: prefix, a blank and the name chunk, padded to the
    /// column width, then the path chunk.
    pub open spec fn spec_line(self, pfx: Seq<char>, name: Seq<char>, path: Seq<char>) -> Seq<char> {
        pad_right(pfx + seq![' '] + name, self.column_width as nat) + path + seq!['\n']
    }

    /// The first `n` lines of an entry.
    pub open spec fn spec_lines(
        self,
        line_prefix: Seq<char>,
        names: Seq<Seq<char>>,
        paths: Seq<Seq<char>>,
        n: nat,
    ) -> Seq<char>
        decreases n,
    {
        if n == 0 {
            Seq::empty()
        } else {
            let i = n - 1;
            let pfx = if i == 0 { line_prefix } else { plain_cont_prefix(line_prefix) };
            self.spec_lines(line_prefix, names, paths, (n - 1) as nat)
                + self.spec_line(pfx, part_or_empty(names, i), part_or_empty(paths, i))
        }
    }

    /// The lines of one entry (without its children).
    pub open spec fn spec_entry_head(
        self,
        label: Seq<char>,
        path: Seq<char>,
        is_dir: bool,
        has_children: bool,
        is_last: bool,
        prefix: Seq<char>,
    ) -> Seq<char> {
        let line_prefix = prefix + spec_tree_symbol(entry_symbol_index(is_dir, has_children, is_last));
        let (names, paths) = self.spec_split_chunks(label, path);
        let n = if names.len() >= paths.len() { names.len() } else { paths.len() };
        self.spec_lines(line_prefix, names, paths, n)
    }

    /// The text of an item drawn below `prefix`.
    pub open spec fn spec_item_text(self, item: TreeItem, prefix: Seq<char>, is_last: bool) -> Seq<char>
        decreases item,
    {
        match item {
            TreeItem::Spacer => prefix + seq!['\n'],
            _ => {
                let children = children_of(item);
                let child_prefix = prefix + spec_tree_symbol(if is_last { 3 } else { 7 });
                self.spec_entry_head(label_of(item), path_of(item), is_dir_of(item), children.len() > 0, is_last, prefix)
                    + self.spec_items_text(children, child_prefix, children.len() - 1)
            },
        }
    }

    /// The text of the items `items`, the one at index `last` drawn as the last.
    pub open spec fn spec_items_text(self, items: Seq<TreeItem>, prefix: Seq<char>, last: int) -> Seq<char>
        decreases items,
    {
        if items.len() == 0 {
            Seq::empty()
        } else {
            self.spec_items_text(items.drop_last(), prefix, last)
                + self.spec_item_text(items.last(), prefix, items.len() - 1 == last)
        }
    }

}

impl Tree {
    pub open spec fn layout(self) -> TreeLayout {
        TreeLayout { column_width: self.column_width, max_name_len: self.max_name_len }
    }

    /// The whole drawing.
    pub open spec fn spec_render(self) -> Seq<char> {
        self.layout().spec_items_text(self.root_items@, Seq::empty(), self.root_items@.len() - 1)
    }

    pub fn new() -> (r: Self)
        ensures
            r.root_items@.len() == 0,
            r.column_width == 35,
            r.max_name_len.is_none(),
    {
        Tree { root_items: Vec::new(), column_width: 35, max_name_len: None }
    }

    pub fn column_width(self, width: usize) -> (r: Self)
        ensures
            r == (Tree { column_width: width, ..self }),
    {
        let mut s = self;
        s.column_width = width;
        s
    }

    pub fn max_name_len(self, max_len: usize) -> (r: Self)
        ensures
            r == (Tree { max_name_len: Some(max_len), ..self }),
    {
        let mut s = self;
        s.max_name_len = Some(max_len);
        s
    }

    pub fn add_item(&mut self, item: TreeItem)
        ensures
            final(self).root_items@ == old(self).root_items@.push(item),
            final(self).column_width == old(self).column_width,
            final(self).max_name_len == old(self).max_name_len,
    {
        self.root_items.push(item);
    }

    /// Draws all root items, the last one closing the tree.
    pub fn render(&self) -> (r: String)
        ensures
            r@ == self.spec_render(),
    {
        let mut out: Vec<char> = Vec::new();
        let empty: Vec<char> = Vec::new();
        let total = self.root_items.len();
        let mut i: usize = 0;
        while i < total
            invariant
                total == self.root_items@.len(),
                i <= total,
                empty@ == Seq::<char>::empty(),
                out@ == self.layout().spec_items_text(self.root_items@.take(i as int), Seq::empty(), total - 1),
            decreases total - i,
        {
            let ghost before = out@;
            self.render_item(&self.root_items[i], &empty, i == total - 1, &mut out);
            i = i + 1;
            assert(self.root_items@.take(i as int).drop_last() =~= self.root_items@.take(i - 1));
        }
        assert(self.root_items@.take(total as int) =~= self.root_items@);
        string_of(&out)
    }

    /// Appends the lines of one entry.
    fn push_lines(
        &self,
        line_prefix: &Vec<char>,
        names: &Vec<Vec<char>>,
        paths: &Vec<Vec<char>>,
        out: &mut Vec<char>,
    )
        ensures
            final(out)@ == old(out)@ + self.layout().spec_lines(
                line_prefix@,
                views(names@),
                views(paths@),
                if names.len() >= paths.len() { names.len() as nat } else { paths.len() as nat },
            ),
    {
        let mut cont: Vec<char> = Vec::new();
        let mut k: usize = 0;
        while k < line_prefix.len()
            invariant
                k <= line_prefix.len(),
                cont@ == plain_cont_prefix(line_prefix@).take(k as int),
            decreases line_prefix.len() - k,
        {
            let c = line_prefix[k];
            cont.push(if c == '│' { '│' } else { ' ' });
            k = k + 1;
            assert(cont@ =~= plain_cont_prefix(line_prefix@).take(k as int));
        }
        assert(cont@ =~= plain_cont_prefix(line_prefix@));
        let n = if names.len() >= paths.len() { names.len() } else { paths.len() };
        let empty: Vec<char> = Vec::new();
        let mut i: usize = 0;
        while i < n
            invariant
                n == (if names.len() >= paths.len() { names.len() } else { paths.len() }),
                i <= n,
                cont@ == plain_cont_prefix(line_prefix@),
                empty@ == Seq::<char>::empty(),
                out@ == old(out)@ + self.layout().spec_lines(line_prefix@, views(names@), views(paths@), i as nat),
            decreases n - i,
        {
            let pfx = if i == 0 { line_prefix } else { &cont };
            let nm = if i < names.len() { &names[i] } else { &empty };
            let pth = if i < paths.len() { &paths[i] } else { &empty };
            let mut left: Vec<char> = Vec::new();
            push_all(&mut left, pfx);
            left.push(' ');
            push_all(&mut left, nm);
            push_pad_right(out, &left, self.column_width);
            push_all(out, pth);
            out.push('\n');
            proof {
                assert(part_or_empty(views(names@), i as int) == nm@);
                assert(part_or_empty(views(paths@), i as int) == pth@);
            }
            proof {
                let pf = if i == 0 { line_prefix@ } else { plain_cont_prefix(line_prefix@) };
                assert(pf == pfx@);
                assert(self.layout().spec_lines(line_prefix@, views(names@), views(paths@), (i + 1) as nat)
                    == self.layout().spec_lines(line_prefix@, views(names@), views(paths@), i as nat)
                        + self.layout().spec_line(pfx@, nm@, pth@));
                assert(left@ =~= pfx@ + seq![' '] + nm@);
            }
            i = i + 1;
            assert(out@ =~= old(out)@ + self.layout().spec_lines(line_prefix@, views(names@), views(paths@), i as nat));
        }
    }

    /// Appends the lines of one entry.
    fn push_entry_head(
        &self,
        label: &String,
        path: &String,
        is_dir: bool,
        has_children: bool,
        is_last: bool,
        prefix: &Vec<char>,
        out: &mut Vec<char>,
    )
        ensures
            final(out)@ == old(out)@ + self.layout().spec_entry_head(label@, path@, is_dir, has_children, is_last, prefix@),
    {
        let mut line_prefix: Vec<char> = Vec::new();
        push_all(&mut line_prefix, prefix);
        push_tree_symbol(&mut line_prefix, entry_symbol(is_dir, has_children, is_last));
        let name = chars_of(label.as_str());
        let full = chars_of(path.as_str());
        let (names, paths) = self.split_chunks(&name, &full);
        self.push_lines(&line_prefix, &names, &paths, out);
    }

    #[verifier::loop_isolation(false)]
    #[verifier::spinoff_prover]
    #[verifier::rlimit(100)]
    fn render_item(&self, item: &TreeItem, prefix: &Vec<char>, is_last: bool, out: &mut Vec<char>)
        ensures
            final(out)@ == old(out)@ + self.layout().spec_item_text(*item, prefix@, is_last),
        decreases item,
    {
        let ghost lay = self.layout();
        match item {
            TreeItem::Spacer => {
                push_all(out, prefix);
                out.push('\n');
                assert(out@ =~= old(out)@ + lay.spec_item_text(*item, prefix@, is_last));
            },
            _ => {
                let (label, path, is_dir, children) = match item {
                    TreeItem::Root { label, path, children, .. } => (label, path, true, children),
                    TreeItem::Node { label, path, is_dir, children, .. } => (label, path, *is_dir, children),
                    TreeItem::Spacer => { proof { assert(false); } return; },
                };
                assert(children@ == children_of(*item));
                self.push_entry_head(label, path, is_dir, children.len() > 0, is_last, prefix, out);
                let mut child_prefix: Vec<char> = Vec::new();
                push_all(&mut child_prefix, prefix);
                push_tree_symbol(&mut child_prefix, if is_last { 3 } else { 7 });
                let child_total = children.len();
                let ghost lines_end = out@;
                let mut i: usize = 0;
                while i < child_total
                    invariant
                        child_total == children@.len(),
                        i <= child_total,
                        out@ == lines_end + lay.spec_items_text(
                            children@.take(i as int),
                            child_prefix@,
                            child_total - 1,
                        ),
                    decreases child_total - i,
                {
                    proof {
                        assert(decreases_to!(*item => children@[i as int]));
                    }
                    self.render_item(&children[i], &child_prefix, i == child_total - 1, out);
                    i = i + 1;
                    assert(children@.take(i as int).drop_last() =~= children@.take(i - 1));
                }
                assert(children@.take(child_total as int) =~= children@);
                assert(out@ =~= old(out)@ + lay.spec_item_text(*item, prefix@, is_last));
            },
        }
    }

    /// Name and path chunks of one entry (see `spec_split_chunks`).
    fn split_chunks(&self, name: &Vec<char>, full_path: &Vec<char>) -> (r: (Vec<Vec<char>>, Vec<Vec<char>>))
        ensures
            (views(r.0@), views(r.1@)) == self.layout().spec_split_chunks(name@, full_path@),
    {
        let limit = match self.max_name_len {
            Some(limit) if limit > 0 => limit,
            _ => {
                let mut a: Vec<Vec<char>> = Vec::new();
                a.push(name.clone());
                let mut b: Vec<Vec<char>> = Vec::new();
                b.push(full_path.clone());
                assert(views(a@) =~= seq![name@]);
                assert(views(b@) =~= seq![full_path@]);
                return (a, b);
            },
        };
        let name_chunks = self.chunk_str(name, limit);
        let path_chunks = if full_path.len() != 0 && full_path[full_path.len() - 1] != '/'
            && ends_with_chars(full_path, name) {
            let dir_part = take_chars(full_path, full_path.len() - name.len());
            let mut first = dir_part;
            push_all(&mut first, &name_chunks[0]);
            let mut chunks: Vec<Vec<char>> = Vec::new();
            chunks.push(first);
            let mut j: usize = 1;
            while j < name_chunks.len()
                invariant
                    1 <= j <= name_chunks.len(),
                    views(chunks@) == seq![full_path@.take(full_path@.len() - name@.len()) + name_chunks@[0]@]
                        + views(name_chunks@).skip(1).take(j - 1),
                decreases name_chunks.len() - j,
            {
                let ghost before = views(chunks@);
                let mut piece: Vec<char> = Vec::new();
                push_all(&mut piece, &name_chunks[j]);
                chunks.push(piece);
                assert(views(chunks@) =~= before.push(name_chunks@[j as int]@));
                assert(views(name_chunks@).skip(1).take(j as int) =~= views(name_chunks@).skip(1).take(j - 1).push(name_chunks@[j as int]@));
                j = j + 1;
                assert(views(chunks@) =~= seq![full_path@.take(full_path@.len() - name@.len()) + name_chunks@[0]@]
                    + views(name_chunks@).skip(1).take(j - 1));
            }
            assert(views(name_chunks@).skip(1).take(j - 1) =~= views(name_chunks@).skip(1));
            chunks
        } else {
            self.chunk_str(full_path, limit)
        };
        (name_chunks, path_chunks)
    }

    /// Pieces of at most `limit` characters; an empty text gives one empty piece.
    fn chunk_str(&self, s: &Vec<char>, limit: usize) -> (r: Vec<Vec<char>>)
        requires
            limit > 0,
        ensures
            views(r@) == chunk_text(s@, limit as nat),
            r@.len() >= 1,
    {
        let r = chunk_chars(s, limit);
        assert(views(r@).len() == r@.len());
        proof {
            if s@.len() > 0 {
                crate::text::lemma_chunks(s@, limit as nat);
            }
        }
        r
    }
}

} // verus!
