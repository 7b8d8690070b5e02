//! A plain tree of the matched paths: names on the left, full paths on the right.
use vstd::prelude::*;
use crate::fmt_node::{
    children_items, record_entries, root_label, root_label_chars, root_path, root_path_chars,
    scan_children, ScanResults,
};
use crate::text::{chars_of, chunk_chars, chunk_text, string_of, views};
use crate::tree::{Tree, TreeItem, TreeLayout};

verus! {

/// Settings of the plain path tree.
pub struct PathsTree {
    column_width: usize,
    max_name_len: Option<usize>,
    path_width: usize,
}

/// `item` is the root of the plain tree of `res`: named and placed after the
/// execution directory, without sizes or time, over the tree that recording
/// all directories, then all files, yields.
pub open spec fn paths_root_of(res: ScanResults, item: TreeItem) -> bool {
    match item {
        TreeItem::Root { label, path, matched_size, real_size, modified_at, children } => {
            &&& label@ == root_label(res.execution_dir@)
            &&& path@ == root_path(res.execution_dir@)
            &&& matched_size == 0
            &&& real_size == 0
            &&& modified_at is None
            &&& scan_children(res, children@, false)
        },
        _ => false,
    }
}

impl PathsTree {
    /// Width of the name column.
    pub closed spec fn spec_column_width(self) -> usize {
        self.column_width
    }

    /// Limit on name characters per line.
    pub closed spec fn spec_max_name_len(self) -> Option<usize> {
        self.max_name_len
    }

    /// Characters of a path per line.
    pub closed spec fn spec_path_width(self) -> usize {
        self.path_width
    }

    pub fn new() -> (r: Self)
        ensures
            r.spec_column_width() == 35,
            r.spec_max_name_len() is None,
            r.spec_path_width() == 40,
    {
        PathsTree { column_width: 35, max_name_len: None, path_width: 40 }
    }

    /// Width of the left column of the tree.
    pub fn column_width(self, width: usize) -> (r: Self)
        ensures
            r.spec_column_width() == width,
            r.spec_max_name_len() == self.spec_max_name_len(),
            r.spec_path_width() == self.spec_path_width(),
    {
        let mut s = self;
        s.column_width = width;
        s
    }

    /// Maximum name length per line.
    pub fn max_name_len(self, max_len: usize) -> (r: Self)
        ensures
            r.spec_column_width() == self.spec_column_width(),
            r.spec_max_name_len() == Some(max_len),
            r.spec_path_width() == self.spec_path_width(),
    {
        let mut s = self;
        s.max_name_len = Some(max_len);
        s
    }

    /// Characters of a path shown per line.
    pub fn path_width(self, width: usize) -> (r: Self)
        ensures
            r.spec_column_width() == self.spec_column_width(),
            r.spec_max_name_len() == self.spec_max_name_len(),
            r.spec_path_width() == width,
    {
        let mut s = self;
        s.path_width = width;
        s
    }

    /// Sets the width of the left column in place; gives the tree back for
    /// further settings.
    pub fn set_column_width(&mut self, width: usize) -> (r: &mut Self)
        ensures
            r.spec_column_width() == width,
            r.spec_max_name_len() == old(self).spec_max_name_len(),
            r.spec_path_width() == old(self).spec_path_width(),
            *final(self) == *final(r),
    {
        self.column_width = width;
        self
    }

    /// Sets the limit on name characters per line in place; gives the tree
    /// back for further settings.
    pub fn set_max_name_len(&mut self, max_len: Option<usize>) -> (r: &mut Self)
        ensures
            r.spec_column_width() == old(self).spec_column_width(),
            r.spec_max_name_len() == max_len,
            r.spec_path_width() == old(self).spec_path_width(),
            *final(self) == *final(r),
    {
        self.max_name_len = max_len;
        self
    }

    /// Pieces of a path for the path column: at most `path_width` characters
    /// each (at least one); an empty path gives one empty piece.
    pub open spec fn spec_path_chunks(self, path: Seq<char>) -> Seq<Seq<char>> {
        chunk_text(path, if self.spec_path_width() == 0 { 1 } else { self.spec_path_width() as nat })
    }

    /// The pieces of `path` (see `spec_path_chunks`).
    pub fn path_chunks(&self, path: &Vec<char>) -> (r: Vec<Vec<char>>)
        ensures
            views(r@) == self.spec_path_chunks(path@),
            r@.len() >= 1,
    {
        let limit = if self.path_width == 0 { 1 } else { self.path_width };
        let r = chunk_chars(path, limit);
        assert(views(r@).len() == r@.len());
        proof {
            if path@.len() > 0 {
                crate::text::lemma_chunks(path@, limit as nat);
            }
        }
        r
    }

    /// The pieces of `path` as strings.
    pub fn format_path_chunks(&self, path: &str) -> (r: Vec<String>)
        ensures
            r@.len() == self.spec_path_chunks(path@).len(),
            forall|i: int| 0 <= i < r@.len() ==> #[trigger] r@[i]@ == self.spec_path_chunks(path@)[i],
    {
        let chunks = self.path_chunks(&chars_of(path));
        let mut r: Vec<String> = Vec::new();
        let mut i: usize = 0;
        while i < chunks.len()
            invariant
                i <= chunks@.len(),
                views(chunks@) == self.spec_path_chunks(path@),
                r@.len() == i,
                forall|j: int| 0 <= j < i ==> #[trigger] r@[j]@ == views(chunks@)[j],
            decreases chunks.len() - i,
        {
            r.push(string_of(&chunks[i]));
            i = i + 1;
        }
        r
    }

    /// Draws the matched paths of a scan as a plain tree under a root named
    /// after the execution directory.
    pub fn format_results(&self, res: &ScanResults) -> (r: String)
        ensures
            exists|item: TreeItem| #[trigger] paths_root_of(*res, item)
                && r@ == (TreeLayout { column_width: self.spec_column_width(), max_name_len: self.spec_max_name_len() })
                    .spec_items_text(seq![item], Seq::empty(), 0),
    {
        let root = record_entries(res, false);
        let label = root_label_chars(&res.execution_dir);
        let path = root_path_chars(&res.execution_dir);
        let children = children_items(&root);
        let root_node = TreeItem::Root {
            label: string_of(&label),
            path: string_of(&path),
            matched_size: 0,
            real_size: 0,
            modified_at: None,
            children,
        };
        let ghost item = root_node;
        assert(paths_root_of(*res, item));
        let mut tree = Tree::new().column_width(self.column_width);
        if let Some(limit) = self.max_name_len {
            tree = tree.max_name_len(limit);
        }
        tree.add_item(root_node);
        assert(tree.root_items@ =~= seq![item]);
        tree.render()
    }
}

} // verus!
