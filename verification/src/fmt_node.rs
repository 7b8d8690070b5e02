//! Building the tree of entries from the flat lists of a scan.
use vstd::prelude::*;
use crate::path_text::{
    file_name, file_name_chars, lemma_text_less_irreflexive, lemma_text_less_total,
    lemma_text_less_transitive, path_components, path_parts, text_compare, text_less,
};
use crate::text::{chars_of, push_all, string_of, views};
use crate::tree::{children_of, TreeItem};

verus! {

/// A matched file as the scan reports it.
pub struct ScanFile {
    pub path: String,
    pub size: u64,
    pub is_binary: bool,
    pub modified_at: Option<u64>,
}

/// A matched directory as the scan reports it.
pub struct ScanDir {
    pub path: String,
    /// Full size of all files inside the directory.
    pub real_size: u64,
    /// Size of the files inside that matched the patterns.
    pub matched_size: u64,
    pub modified_at: Option<u64>,
}

/// The results of a scan: the directory it ran in and the matched entries.
pub struct ScanResults {
    pub execution_dir: String,
    pub files: Vec<ScanFile>,
    pub dirs: Vec<ScanDir>,
}

/// A node of the tree under construction; `children` holds each child with
/// its name, sorted by name with no name twice.
pub struct InternalNode {
    pub children: Vec<(String, InternalNode)>,
    pub is_dir: bool,
    pub is_binary: bool,
    pub original_path: String,
    pub size: u64,
    pub matched_size: u64,
    pub real_size: u64,
    pub modified_at: Option<u64>,
}

/// What a node holds besides its children.
pub struct NodeInfo {
    pub is_dir: bool,
    pub is_binary: bool,
    pub path: Seq<char>,
    pub size: u64,
    pub matched_size: u64,
    pub real_size: u64,
    pub modified_at: Option<u64>,
}

pub open spec fn info_of(n: InternalNode) -> NodeInfo {
    NodeInfo {
        is_dir: n.is_dir,
        is_binary: n.is_binary,
        path: n.original_path@,
        size: n.size,
        matched_size: n.matched_size,
        real_size: n.real_size,
        modified_at: n.modified_at,
    }
}

/// Names strictly ascending.
pub open spec fn names_sorted(cs: Seq<(String, InternalNode)>) -> bool {
    forall|i: int, j: int| 0 <= i < j < cs.len() ==> text_less(#[trigger] cs[i].0@, #[trigger] cs[j].0@)
}

/// Every child of the sequence is well formed.
pub open spec fn children_wf(cs: Seq<(String, InternalNode)>) -> bool
    decreases cs,
{
    if cs.len() == 0 {
        true
    } else {
        children_wf(cs.drop_last()) && well_formed(cs.last().1)
    }
}

/// Children sorted by name, no name twice, all the way down.
pub open spec fn well_formed(n: InternalNode) -> bool
    decreases n,
{
    names_sorted(n.children@) && children_wf(n.children@)
}

/// The child called `name`, if any.
pub open spec fn child_named(cs: Seq<(String, InternalNode)>, name: Seq<char>) -> Option<InternalNode>
    decreases cs.len(),
{
    if cs.len() == 0 {
        None
    } else if cs.last().0@ == name {
        Some(cs.last().1)
    } else {
        child_named(cs.drop_last(), name)
    }
}

/// What the node at the path of names `q` below `n` holds, if there is one.
pub open spec fn lookup(n: InternalNode, q: Seq<Seq<char>>) -> Option<NodeInfo>
    decreases q.len(),
{
    if q.len() == 0 {
        Some(info_of(n))
    } else {
        match child_named(n.children@, q[0]) {
            Some(c) => lookup(c, q.skip(1)),
            None => None,
        }
    }
}

/// The path kept for an entry: directories end in `/`.
pub open spec fn formatted_path(path: Seq<char>, is_dir: bool) -> Seq<char> {
    if is_dir && !(path.len() > 0 && path.last() == '/') { path.push('/') } else { path }
}

/// A node made on the way: no path, no sizes, no time.
pub open spec fn fresh_info(is_dir: bool, is_binary: bool) -> NodeInfo {
    NodeInfo {
        is_dir,
        is_binary,
        path: Seq::empty(),
        size: 0,
        matched_size: 0,
        real_size: 0,
        modified_at: None,
    }
}

/// The entry an insertion records.
pub struct EntryInfo {
    pub path: Seq<char>,
    pub is_dir: bool,
    pub is_binary: bool,
    pub size: u64,
    pub matched_size: u64,
    pub real_size: u64,
    pub modified_at: Option<u64>,
}

/// What the node at `q` holds after recording the entry `e` at the path of
/// names `parts`, given what it held before (`prev`). The node at `parts`
/// takes the entry's data (keeping its kind if it was there already); nodes
/// on the way that were missing appear as plain directories; all else stays.
pub open spec fn after_insert(prev: Option<NodeInfo>, parts: Seq<Seq<char>>, q: Seq<Seq<char>>, e: EntryInfo) -> Option<NodeInfo> {
    if parts.len() == 0 {
        prev
    } else if q == parts {
        let base = match prev {
            Some(x) => x,
            None => fresh_info(e.is_dir, e.is_binary),
        };
        Some(NodeInfo {
            is_dir: base.is_dir,
            is_binary: e.is_binary,
            path: formatted_path(e.path, e.is_dir),
            size: e.size,
            matched_size: e.matched_size,
            real_size: e.real_size,
            modified_at: e.modified_at,
        })
    } else if q.len() < parts.len() && q == parts.take(q.len() as int) {
        match prev {
            Some(x) => Some(x),
            None => Some(fresh_info(true, false)),
        }
    } else {
        prev
    }
}

/// The tree item for a node: same data, children in the same order, each
/// named as recorded.
pub open spec fn item_of_node(n: InternalNode, label: Seq<char>, item: TreeItem) -> bool
    decreases n,
{
    match item {
        TreeItem::Node { label: l, is_dir, is_binary, path, size, matched_size, real_size, modified_at, children } => {
            &&& l@ == label
            &&& is_dir == n.is_dir
            &&& is_binary == n.is_binary
            &&& path@ == n.original_path@
            &&& size == n.size
            &&& matched_size == n.matched_size
            &&& real_size == n.real_size
            &&& modified_at == n.modified_at
            &&& items_of_children(n.children@, children@)
        },
        _ => false,
    }
}

/// Items converted one for one from children.
pub open spec fn items_of_children(cs: Seq<(String, InternalNode)>, items: Seq<TreeItem>) -> bool
    decreases cs,
{
    &&& cs.len() == items.len()
    &&& (cs.len() == 0 || (items_of_children(cs.drop_last(), items.drop_last())
        && item_of_node(cs.last().1, cs.last().0@, items.last())))
}

proof fn lemma_children_wf_index(cs: Seq<(String, InternalNode)>)
    ensures
        children_wf(cs) <==> forall|i: int| 0 <= i < cs.len() ==> well_formed(#[trigger] cs[i].1),
    decreases cs.len(),
{
    if cs.len() > 0 {
        lemma_children_wf_index(cs.drop_last());
        if forall|i: int| 0 <= i < cs.len() ==> well_formed(#[trigger] cs[i].1) {
            assert forall|i: int| 0 <= i < cs.drop_last().len() implies well_formed(#[trigger] cs.drop_last()[i].1) by {
                assert(cs.drop_last()[i] == cs[i]);
            }
        }
        if children_wf(cs) {
            assert forall|i: int| 0 <= i < cs.len() implies well_formed(#[trigger] cs[i].1) by {
                if i < cs.len() - 1 {
                    assert(cs.drop_last()[i] == cs[i]);
                }
            }
        }
    }
}

proof fn lemma_child_named_index(cs: Seq<(String, InternalNode)>, name: Seq<char>)
    requires
        names_sorted(cs),
    ensures
        forall|i: int| 0 <= i < cs.len() && #[trigger] cs[i].0@ == name ==> child_named(cs, name) == Some(cs[i].1),
        (forall|i: int| 0 <= i < cs.len() ==> #[trigger] cs[i].0@ != name) ==> child_named(cs, name) is None,
    decreases cs.len(),
{
    if cs.len() > 0 {
        let d = cs.drop_last();
        assert(names_sorted(d)) by {
            assert forall|i: int, j: int| 0 <= i < j < d.len() implies text_less(#[trigger] d[i].0@, #[trigger] d[j].0@) by {
                assert(d[i] == cs[i] && d[j] == cs[j]);
            }
        }
        lemma_child_named_index(d, name);
        assert forall|i: int| 0 <= i < cs.len() && #[trigger] cs[i].0@ == name implies child_named(cs, name) == Some(cs[i].1) by {
            if i < cs.len() - 1 {
                assert(d[i] == cs[i]);
                if cs.last().0@ == name {
                    assert(text_less(cs[i].0@, cs[cs.len() - 1].0@));
                    lemma_text_less_irreflexive(name);
                }
            }
        }
        if forall|i: int| 0 <= i < cs.len() ==> #[trigger] cs[i].0@ != name {
            assert(cs[cs.len() - 1].0@ != name);
            assert forall|i: int| 0 <= i < d.len() implies #[trigger] d[i].0@ != name by {
                assert(d[i] == cs[i]);
            }
        }
    }
}

/// Replacing the child at `pos` by one of the same name changes only that name's child.
proof fn lemma_child_named_update(cs: Seq<(String, InternalNode)>, pos: int, entry: (String, InternalNode), x: Seq<char>)
    requires
        names_sorted(cs),
        0 <= pos < cs.len(),
        entry.0@ == cs[pos].0@,
    ensures
        names_sorted(cs.update(pos, entry)),
        child_named(cs.update(pos, entry), x) == if x == entry.0@ { Some(entry.1) } else { child_named(cs, x) },
{
    let u = cs.update(pos, entry);
    assert forall|i: int, j: int| 0 <= i < j < u.len() implies text_less(#[trigger] u[i].0@, #[trigger] u[j].0@) by {
        assert(u[i].0@ == cs[i].0@ && u[j].0@ == cs[j].0@);
    }
    lemma_child_named_index(cs, x);
    lemma_child_named_index(u, x);
    if x == entry.0@ {
        assert(u[pos].0@ == x);
    } else {
        assert forall|i: int| 0 <= i < u.len() && #[trigger] u[i].0@ == x implies cs[i].0@ == x && u[i] == cs[i] by {}
        if exists|i: int| 0 <= i < cs.len() && #[trigger] cs[i].0@ == x {
            let i = choose|i: int| 0 <= i < cs.len() && #[trigger] cs[i].0@ == x;
            assert(u[i] == cs[i]);
        }
    }
}

/// Inserting a child of a new name at its sorted place changes only that name's child.
proof fn lemma_child_named_insert(cs: Seq<(String, InternalNode)>, pos: int, entry: (String, InternalNode), x: Seq<char>)
    requires
        names_sorted(cs),
        0 <= pos <= cs.len(),
        forall|i: int| 0 <= i < pos ==> text_less(#[trigger] cs[i].0@, entry.0@),
        forall|i: int| pos <= i < cs.len() ==> text_less(entry.0@, #[trigger] cs[i].0@),
    ensures
        names_sorted(cs.insert(pos, entry)),
        child_named(cs.insert(pos, entry), x) == if x == entry.0@ { Some(entry.1) } else { child_named(cs, x) },
{
    let u = cs.insert(pos, entry);
    assert forall|i: int, j: int| 0 <= i < j < u.len() implies text_less(#[trigger] u[i].0@, #[trigger] u[j].0@) by {
        if i < pos && j < pos {
        } else if i < pos && j == pos {
        } else if i < pos {
            assert(u[j] == cs[j - 1]);
        } else if i == pos {
            assert(u[j] == cs[j - 1]);
        } else {
            assert(u[i] == cs[i - 1] && u[j] == cs[j - 1]);
        }
    }
    lemma_child_named_index(cs, x);
    lemma_child_named_index(u, x);
    if x == entry.0@ {
        assert(u[pos] == entry);
    } else {
        if exists|i: int| 0 <= i < cs.len() && #[trigger] cs[i].0@ == x {
            let i = choose|i: int| 0 <= i < cs.len() && #[trigger] cs[i].0@ == x;
            if i < pos {
                assert(u[i] == cs[i]);
            } else {
                assert(u[i + 1] == cs[i]);
            }
        } else {
            assert forall|i: int| 0 <= i < u.len() implies #[trigger] u[i].0@ != x by {
                if i < pos {
                    assert(u[i] == cs[i]);
                } else if i > pos {
                    assert(u[i] == cs[i - 1]);
                }
            }
        }
    }
}


/// Splitting off a shared first name: `q` stands at or on the way to `ps`
/// exactly when the rests do.
proof fn lemma_cons_paths(q: Seq<Seq<char>>, ps: Seq<Seq<char>>)
    requires
        q.len() >= 1,
        ps.len() >= 1,
        q[0] == ps[0],
    ensures
        (q == ps) == (q.skip(1) == ps.skip(1)),
        (q.len() < ps.len() && q == ps.take(q.len() as int)) == (q.skip(1).len() < ps.skip(1).len()
            && q.skip(1) == ps.skip(1).take(q.skip(1).len() as int)),
{
    assert(q =~= seq![q[0]] + q.skip(1));
    assert(ps =~= seq![ps[0]] + ps.skip(1));
    if q.skip(1) == ps.skip(1) {
        assert(q =~= ps);
    }
    if q == ps {
        assert(q.skip(1) =~= ps.skip(1));
    }
    if q.len() < ps.len() {
        if q == ps.take(q.len() as int) {
            assert(q.skip(1) =~= ps.skip(1).take(q.skip(1).len() as int));
        }
        if q.skip(1) == ps.skip(1).take(q.skip(1).len() as int) {
            assert(q =~= ps.take(q.len() as int)) by {
                assert forall|i: int| 0 <= i < q.len() implies q[i] == ps.take(q.len() as int)[i] by {
                    if i > 0 {
                        assert(q[i] == q.skip(1)[i - 1]);
                        assert(ps[i] == ps.skip(1)[i - 1]);
                    }
                }
            }
        }
    }
}

/// The data an insertion stores at the target node.
struct Entry {
    formatted_path: String,
    is_dir: bool,
    is_binary: bool,
    size: u64,
    matched_size: u64,
    real_size: u64,
    modified_at: Option<u64>,
}

/// `entry` carries the data of `e`, its path already formatted.
spec fn entry_carries(entry: Entry, e: EntryInfo) -> bool {
    &&& entry.formatted_path@ == formatted_path(e.path, e.is_dir)
    &&& entry.is_dir == e.is_dir
    &&& entry.is_binary == e.is_binary
    &&& entry.size == e.size
    &&& entry.matched_size == e.matched_size
    &&& entry.real_size == e.real_size
    &&& entry.modified_at == e.modified_at
}

/// Position of `name` among sorted children: the first child whose name does
/// not sort before it, and whether that child bears the name.
fn find_position(cs: &Vec<(String, InternalNode)>, name: &Vec<char>) -> (r: (usize, bool))
    requires
        names_sorted(cs@),
    ensures
        r.0 <= cs@.len(),
        forall|i: int| 0 <= i < r.0 ==> text_less(#[trigger] cs@[i].0@, name@),
        r.1 ==> r.0 < cs@.len() && cs@[r.0 as int].0@ == name@,
        !r.1 ==> forall|i: int| r.0 <= i < cs@.len() ==> text_less(name@, #[trigger] cs@[i].0@),
{
    let mut pos: usize = 0;
    let mut done = false;
    let mut found = false;
    while pos < cs.len() && !done
        invariant
            names_sorted(cs@),
            pos <= cs@.len(),
            forall|i: int| 0 <= i < pos ==> text_less(#[trigger] cs@[i].0@, name@),
            done ==> pos < cs@.len() && (found ==> cs@[pos as int].0@ == name@)
                && (!found ==> text_less(name@, cs@[pos as int].0@)),
            !done ==> !found,
        decreases cs.len() - pos, (if done { 0int } else { 1int }),
    {
        let nm = chars_of(cs[pos].0.as_str());
        let c = text_compare(&nm, name);
        if c < 0 {
            pos = pos + 1;
        } else {
            done = true;
            found = c == 0;
        }
    }
    if !found {
        assert forall|i: int| pos <= i < cs@.len() implies text_less(name@, #[trigger] cs@[i].0@) by {
            if i > pos {
                assert(text_less(cs@[pos as int].0@, cs@[i].0@));
                lemma_text_less_transitive(name@, cs@[pos as int].0@, cs@[i].0@);
            }
        }
    }
    (pos, found)
}

/// Records `entry` at the components `parts[k..]` below `node`.
#[verifier::rlimit(60)]
fn insert_at(node: &mut InternalNode, parts: &Vec<Vec<char>>, k: usize, entry: &Entry, Ghost(e): Ghost<EntryInfo>)
    requires
        k < parts@.len(),
        well_formed(*old(node)),
        entry_carries(*entry, e),
    ensures
        well_formed(*final(node)),
        forall|q: Seq<Seq<char>>| #[trigger] lookup(*final(node), q)
            == after_insert(lookup(*old(node), q), views(parts@).skip(k as int), q, e),
    decreases parts@.len() - k,
{
    let ghost old_node = *node;
    let ghost ps = views(parts@).skip(k as int);
    let name = &parts[k];
    assert(ps[0] == name@);
    let last = k == parts.len() - 1;
    proof {
        lemma_children_wf_index(node.children@);
    }
    let (pos, found) = find_position(&node.children, name);
    let ghost child_old: Option<InternalNode> = if found { Some(node.children@[pos as int].1) } else { None };
    let ghost new_entry: (String, InternalNode);
    if found {
        let (nm_s, mut child) = node.children.remove(pos);
        let ghost child0 = child;
        if last {
            child.original_path = entry.formatted_path.clone();
            child.is_binary = entry.is_binary;
            child.size = entry.size;
            child.matched_size = entry.matched_size;
            child.real_size = entry.real_size;
            child.modified_at = entry.modified_at;
            assert(child.children == child0.children);
            assert forall|q: Seq<Seq<char>>| q.len() > 0 implies #[trigger] lookup(child, q) == lookup(child0, q) by {}
        } else {
            insert_at(&mut child, parts, k + 1, entry, Ghost(e));
            assert(views(parts@).skip(k + 1) =~= ps.skip(1));
        }
        proof { new_entry = (nm_s, child); }
        node.children.insert(pos, (nm_s, child));
        proof {
            assert(node.children@ =~= old_node.children@.update(pos as int, new_entry));
            lemma_child_named_update(old_node.children@, pos as int, new_entry, name@);
        }
    } else {
        let mut child = InternalNode {
            children: Vec::new(),
            is_dir: if last { entry.is_dir } else { true },
            is_binary: if last { entry.is_binary } else { false },
            original_path: String::new(),
            size: 0,
            matched_size: 0,
            real_size: 0,
            modified_at: None,
        };
        let ghost child0 = child;
        if last {
            child.original_path = entry.formatted_path.clone();
            child.is_binary = entry.is_binary;
            child.size = entry.size;
            child.matched_size = entry.matched_size;
            child.real_size = entry.real_size;
            child.modified_at = entry.modified_at;
        } else {
            insert_at(&mut child, parts, k + 1, entry, Ghost(e));
            assert(views(parts@).skip(k + 1) =~= ps.skip(1));
        }
        let nm_s = string_of(name);
        proof { new_entry = (nm_s, child); }
        node.children.insert(pos, (nm_s, child));
        proof {
            lemma_child_named_insert(old_node.children@, pos as int, new_entry, name@);
        }
    }
    proof {
        let cs0 = old_node.children@;
        let cs1 = node.children@;
        lemma_text_less_irreflexive(name@);
        if !found {
            assert forall|i: int| 0 <= i < cs0.len() implies #[trigger] cs0[i].0@ != name@ by {
                if cs0[i].0@ == name@ {
                    if i < pos {
                        assert(text_less(cs0[i].0@, name@));
                    } else {
                        assert(text_less(name@, cs0[i].0@));
                    }
                }
            }
        }
        lemma_child_named_index(cs0, name@);
        // Every child stays well formed.
        assert forall|i: int| 0 <= i < cs1.len() implies well_formed(#[trigger] cs1[i].1) by {
            if i != pos {
                if found || i < pos {
                    assert(cs1[i] == cs0[i]);
                } else {
                    assert(cs1[i] == cs0[i - 1]);
                }
            } else {
                assert(cs1[i] == new_entry);
            }
        }
        lemma_children_wf_index(cs1);
        assert(info_of(*node) == info_of(old_node));
        assert forall|q: Seq<Seq<char>>| #[trigger] lookup(*node, q)
            == after_insert(lookup(old_node, q), ps, q, e) by {
            if q.len() == 0 {
                assert(q =~= ps.take(0));
            } else if q[0] != name@ {
                if found {
                    lemma_child_named_update(cs0, pos as int, new_entry, q[0]);
                } else {
                    lemma_child_named_insert(cs0, pos as int, new_entry, q[0]);
                }
                assert(child_named(cs1, q[0]) == child_named(cs0, q[0]));
                if q == ps || (q.len() < ps.len() && q == ps.take(q.len() as int)) {
                    assert(q[0] == ps[0]);
                }
            } else {
                let c1 = new_entry.1;
                assert(child_named(cs1, q[0]) == Some(c1));
                assert(child_named(cs0, q[0]) == child_old);
                let qs = q.skip(1);
                assert(lookup(*node, q) == lookup(c1, qs));
                assert(lookup(old_node, q) == match child_old { Some(c) => lookup(c, qs), None => None::<NodeInfo> });
                lemma_cons_paths(q, ps);
                if last {
                    assert(ps.len() == 1);
                    if qs.len() == 0 {
                        assert(q =~= ps);
                    } else {
                        assert(q != ps);
                    }
                } else {
                    assert(ps.skip(1).len() >= 1);
                    if !found && qs.len() == 0 {
                        assert(qs =~= ps.skip(1).take(0));
                    }
                }
            }
        }
    }
}

/// The root node before anything is recorded: a directory with nothing else.
pub open spec fn root_start(q: Seq<Seq<char>>) -> Option<NodeInfo> {
    if q.len() == 0 { Some(fresh_info(true, false)) } else { None }
}

/// The entry recorded for a matched directory: with its sizes and time when
/// `detailed`, else only its path and kind.
pub open spec fn dir_entry(d: ScanDir, detailed: bool) -> EntryInfo {
    EntryInfo {
        path: d.path@,
        is_dir: true,
        is_binary: false,
        size: 0,
        matched_size: if detailed { d.matched_size } else { 0 },
        real_size: if detailed { d.real_size } else { 0 },
        modified_at: if detailed { d.modified_at } else { None },
    }
}

/// The entry recorded for a matched file: with its binary mark, size and time
/// when `detailed`, else only its path and kind.
pub open spec fn file_entry(f: ScanFile, detailed: bool) -> EntryInfo {
    EntryInfo {
        path: f.path@,
        is_dir: false,
        is_binary: detailed && f.is_binary,
        size: if detailed { f.size } else { 0 },
        matched_size: 0,
        real_size: 0,
        modified_at: if detailed { f.modified_at } else { None },
    }
}

/// What the node at `q` holds once the directories `ds` are recorded in order.
pub open spec fn lookup_after_dirs(ds: Seq<ScanDir>, q: Seq<Seq<char>>, detailed: bool) -> Option<NodeInfo>
    decreases ds.len(),
{
    if ds.len() == 0 {
        root_start(q)
    } else {
        after_insert(lookup_after_dirs(ds.drop_last(), q, detailed), path_parts(ds.last().path@, true), q, dir_entry(ds.last(), detailed))
    }
}

/// What the node at `q` holds once the directories `ds`, then the files `fs`,
/// are recorded in order.
pub open spec fn lookup_after_all(ds: Seq<ScanDir>, fs: Seq<ScanFile>, q: Seq<Seq<char>>, detailed: bool) -> Option<NodeInfo>
    decreases fs.len(),
{
    if fs.len() == 0 {
        lookup_after_dirs(ds, q, detailed)
    } else {
        after_insert(lookup_after_all(ds, fs.drop_last(), q, detailed), path_parts(fs.last().path@, true), q, file_entry(fs.last(), detailed))
    }
}

/// Total size of the matched files.
pub open spec fn sum_file_sizes(fs: Seq<ScanFile>) -> nat
    decreases fs.len(),
{
    if fs.len() == 0 { 0 } else { sum_file_sizes(fs.drop_last()) + fs.last().size as nat }
}

/// Total real size of the matched directories.
pub open spec fn sum_dir_real(ds: Seq<ScanDir>) -> nat
    decreases ds.len(),
{
    if ds.len() == 0 { 0 } else { sum_dir_real(ds.drop_last()) + ds.last().real_size as nat }
}

/// The name shown for the root: the last component of the execution
/// directory, or `.` when it has none.
pub open spec fn root_label(dir: Seq<char>) -> Seq<char> {
    match file_name(dir) {
        Some(n) => n,
        None => seq!['.'],
    }
}

/// `\` turned into `/`.
pub open spec fn slashes(s: Seq<char>) -> Seq<char> {
    Seq::new(s.len(), |i: int| if s[i] == '\\' { '/' } else { s[i] })
}

/// The path shown for the root: the execution directory with `/` separators,
/// ending in `/`.
pub open spec fn root_path(dir: Seq<char>) -> Seq<char> {
    let p = slashes(dir);
    if p.len() > 0 && p.last() == '/' { p } else { p.push('/') }
}

/// `children` are the items of the tree that recording all directories,
/// then all files of `res` yields.
pub open spec fn scan_children(res: ScanResults, children: Seq<TreeItem>, detailed: bool) -> bool {
    exists|n: InternalNode| #[trigger] well_formed(n)
        && (forall|q: Seq<Seq<char>>| #[trigger] lookup(n, q) == lookup_after_all(res.dirs@, res.files@, q, detailed))
        && items_of_children(n.children@, children)
}

/// `item` is the root item of the scan `res`: named and placed after the
/// execution directory, with the total matched file size and the total real
/// directory size, and with the children of the tree that recording all
/// directories, then all files, yields.
pub open spec fn root_item_of(res: ScanResults, item: TreeItem) -> bool {
    match item {
        TreeItem::Root { label, path, matched_size, real_size, modified_at, children } => {
            &&& label@ == root_label(res.execution_dir@)
            &&& path@ == root_path(res.execution_dir@)
            &&& matched_size == sum_file_sizes(res.files@)
            &&& real_size == sum_dir_real(res.dirs@)
            &&& modified_at is None
            &&& scan_children(res, children@, true)
        },
        _ => false,
    }
}

/// Records every directory, then every file, of a scan below a fresh root.
pub fn record_entries(res: &ScanResults, detailed: bool) -> (root: InternalNode)
    ensures
        well_formed(root),
        forall|q: Seq<Seq<char>>| #[trigger] lookup(root, q) == lookup_after_all(res.dirs@, res.files@, q, detailed),
{
    let mut root = InternalNode {
        children: Vec::new(),
        is_dir: true,
        is_binary: false,
        original_path: String::new(),
        size: 0,
        matched_size: 0,
        real_size: 0,
        modified_at: None,
    };
    assert forall|q: Seq<Seq<char>>| #[trigger] lookup(root, q) == lookup_after_dirs(res.dirs@.take(0), q, detailed) by {}
    let mut i: usize = 0;
    while i < res.dirs.len()
        invariant
            i <= res.dirs@.len(),
            well_formed(root),
            forall|q: Seq<Seq<char>>| #[trigger] lookup(root, q) == lookup_after_dirs(res.dirs@.take(i as int), q, detailed),
        decreases res.dirs.len() - i,
    {
        let d = &res.dirs[i];
        if detailed {
            InternalNode::insert_path(&mut root, d.path.as_str(), true, false, 0, d.matched_size, d.real_size, d.modified_at);
        } else {
            InternalNode::insert_path(&mut root, d.path.as_str(), true, false, 0, 0, 0, None);
        }
        i = i + 1;
        assert(res.dirs@.take(i as int).drop_last() =~= res.dirs@.take(i - 1));
        assert(res.dirs@.take(i as int).last() == *d);
    }
    assert(res.dirs@.take(i as int) =~= res.dirs@);
    assert forall|q: Seq<Seq<char>>| #[trigger] lookup(root, q) == lookup_after_all(res.dirs@, res.files@.take(0), q, detailed) by {}
    let mut j: usize = 0;
    while j < res.files.len()
        invariant
            j <= res.files@.len(),
            well_formed(root),
            forall|q: Seq<Seq<char>>| #[trigger] lookup(root, q) == lookup_after_all(res.dirs@, res.files@.take(j as int), q, detailed),
        decreases res.files.len() - j,
    {
        let f = &res.files[j];
        if detailed {
            InternalNode::insert_path(&mut root, f.path.as_str(), false, f.is_binary, f.size, 0, 0, f.modified_at);
        } else {
            InternalNode::insert_path(&mut root, f.path.as_str(), false, false, 0, 0, 0, None);
        }
        j = j + 1;
        assert(res.files@.take(j as int).drop_last() =~= res.files@.take(j - 1));
        assert(res.files@.take(j as int).last() == *f);
    }
    assert(res.files@.take(j as int) =~= res.files@);
    root
}

/// The name shown for the root (see `root_label`).
pub fn root_label_chars(dir: &String) -> (r: Vec<char>)
    ensures
        r@ == root_label(dir@),
{
    let dir_chars = chars_of(dir.as_str());
    match file_name_chars(&dir_chars) {
        Some(n) => n,
        None => {
            let mut v: Vec<char> = Vec::new();
            v.push('.');
            assert(v@ =~= seq!['.']);
            v
        },
    }
}

/// The path shown for the root (see `root_path`).
pub fn root_path_chars(dir: &String) -> (r: Vec<char>)
    ensures
        r@ == root_path(dir@),
{
    let dir_chars = chars_of(dir.as_str());
    let mut path_chars: Vec<char> = Vec::new();
    let mut k: usize = 0;
    while k < dir_chars.len()
        invariant
            k <= dir_chars@.len(),
            path_chars@ == slashes(dir_chars@).take(k as int),
        decreases dir_chars.len() - k,
    {
        let c = dir_chars[k];
        path_chars.push(if c == '\\' { '/' } else { c });
        k = k + 1;
        assert(path_chars@ =~= slashes(dir_chars@).take(k as int));
    }
    assert(path_chars@ =~= slashes(dir_chars@));
    if !(path_chars.len() > 0 && path_chars[path_chars.len() - 1] == '/') {
        path_chars.push('/');
    }
    path_chars
}

/// The items of the children of `root`, in order.
pub fn children_items(root: &InternalNode) -> (r: Vec<TreeItem>)
    ensures
        items_of_children(root.children@, r@),
{
    let mut children: Vec<TreeItem> = Vec::new();
    let mut c: usize = 0;
    while c < root.children.len()
        invariant
            c <= root.children@.len(),
            items_of_children(root.children@.take(c as int), children@),
        decreases root.children.len() - c,
    {
        let name = root.children[c].0.clone();
        let item = root.children[c].1.to_tree_item(name);
        let ghost it = item;
        let ghost prev_children = children@;
        children.push(item);
        c = c + 1;
        proof {
            let cs = root.children@.take(c as int);
            assert(cs.drop_last() =~= root.children@.take(c - 1));
            assert(children@.drop_last() =~= prev_children);
            assert(cs.last() == root.children@[c - 1]);
            assert(children@.last() == it);
        }
    }
    assert(root.children@.take(c as int) =~= root.children@);
    children
}

pub proof fn lemma_sum_files_prefix(fs: Seq<ScanFile>, k: int)
    requires
        0 <= k <= fs.len(),
    ensures
        sum_file_sizes(fs.take(k)) <= sum_file_sizes(fs),
    decreases fs.len() - k,
{
    if k < fs.len() {
        lemma_sum_files_prefix(fs, k + 1);
        assert(fs.take(k + 1).drop_last() =~= fs.take(k));
    } else {
        assert(fs.take(k) =~= fs);
    }
}

pub proof fn lemma_sum_dirs_prefix(ds: Seq<ScanDir>, k: int)
    requires
        0 <= k <= ds.len(),
    ensures
        sum_dir_real(ds.take(k)) <= sum_dir_real(ds),
    decreases ds.len() - k,
{
    if k < ds.len() {
        lemma_sum_dirs_prefix(ds, k + 1);
        assert(ds.take(k + 1).drop_last() =~= ds.take(k));
    } else {
        assert(ds.take(k) =~= ds);
    }
}

impl Default for InternalNode {
    fn default() -> (r: Self)
        ensures
            r.children@.len() == 0,
            info_of(r) == fresh_info(false, false),
    {
        InternalNode {
            children: Vec::new(),
            is_dir: false,
            is_binary: false,
            original_path: String::new(),
            size: 0,
            matched_size: 0,
            real_size: 0,
            modified_at: None,
        }
    }
}

impl InternalNode {
    /// Records an entry at `path`: the path is split into components on `/`
    /// and `\`, leaving out empty ones and `.`; missing directories on the way
    /// are created; the node at the end takes the entry's data (its path
    /// ending in `/` for a directory). A path without components changes nothing.
    pub fn insert_path(
        root: &mut InternalNode,
        path: &str,
        is_dir: bool,
        is_binary: bool,
        size: u64,
        matched_size: u64,
        real_size: u64,
        modified_at: Option<u64>,
    )
        requires
            well_formed(*old(root)),
        ensures
            well_formed(*final(root)),
            forall|q: Seq<Seq<char>>| #[trigger] lookup(*final(root), q) == after_insert(
                lookup(*old(root), q),
                path_parts(path@, true),
                q,
                EntryInfo { path: path@, is_dir, is_binary, size, matched_size, real_size, modified_at },
            ),
    {
        let ghost e = EntryInfo { path: path@, is_dir, is_binary, size, matched_size, real_size, modified_at };
        let chars = chars_of(path);
        let parts = path_components(&chars, true);
        if parts.len() == 0 {
            return;
        }
        let mut formatted = chars_of(path);
        if is_dir && !(formatted.len() > 0 && formatted[formatted.len() - 1] == '/') {
            formatted.push('/');
        }
        let entry = Entry {
            formatted_path: string_of(&formatted),
            is_dir,
            is_binary,
            size,
            matched_size,
            real_size,
            modified_at,
        };
        insert_at(root, &parts, 0, &entry, Ghost(e));
        assert(views(parts@).skip(0) =~= views(parts@));
    }

    /// The root item for a scan: directories are recorded first, then files;
    /// the root is named after the last component of the execution directory
    /// (`.` without one) and shows that directory, with `/` separators and a
    /// closing `/`, the total size of the matched files and the total real
    /// size of the matched directories.
    pub fn build_root(res: &ScanResults) -> (r: TreeItem)
        requires
            sum_file_sizes(res.files@) <= u64::MAX,
            sum_dir_real(res.dirs@) <= u64::MAX,
        ensures
            root_item_of(*res, r),
    {
        let root = record_entries(res, true);
        let label_chars = root_label_chars(&res.execution_dir);
        let path_chars = root_path_chars(&res.execution_dir);
        let children = children_items(&root);

        let mut matched: u64 = 0;
        let mut m: usize = 0;
        while m < res.files.len()
            invariant
                m <= res.files@.len(),
                sum_file_sizes(res.files@) <= u64::MAX,
                matched == sum_file_sizes(res.files@.take(m as int)),
            decreases res.files.len() - m,
        {
            proof { lemma_sum_files_prefix(res.files@, m + 1); }
            assert(res.files@.take(m + 1).drop_last() =~= res.files@.take(m as int));
            matched = matched + res.files[m].size;
            m = m + 1;
        }
        assert(res.files@.take(m as int) =~= res.files@);
        let mut real_total: u64 = 0;
        let mut t: usize = 0;
        while t < res.dirs.len()
            invariant
                t <= res.dirs@.len(),
                sum_dir_real(res.dirs@) <= u64::MAX,
                real_total == sum_dir_real(res.dirs@.take(t as int)),
            decreases res.dirs.len() - t,
        {
            proof { lemma_sum_dirs_prefix(res.dirs@, t + 1); }
            assert(res.dirs@.take(t + 1).drop_last() =~= res.dirs@.take(t as int));
            real_total = real_total + res.dirs[t].real_size;
            t = t + 1;
        }
        assert(res.dirs@.take(t as int) =~= res.dirs@);
        let r = TreeItem::Root {
            label: string_of(&label_chars),
            path: string_of(&path_chars),
            matched_size: matched,
            real_size: real_total,
            modified_at: None,
            children,
        };
        assert(well_formed(root));
        r
    }

    /// The tree item for this node and its descendants, named `label`.
    #[verifier::loop_isolation(false)]
    pub fn to_tree_item(&self, label: String) -> (r: TreeItem)
        ensures
            item_of_node(*self, label@, r),
        decreases self,
    {
        let mut children: Vec<TreeItem> = Vec::new();
        let mut i: usize = 0;
        while i < self.children.len()
            invariant
                i <= self.children.len(),
                items_of_children(self.children@.take(i as int), children@),
            decreases self.children.len() - i,
        {
            proof {
                assert(decreases_to!(*self => self.children@[i as int].1));
            }
            let name = self.children[i].0.clone();
            let item = self.children[i].1.to_tree_item(name);
            let ghost it = item;
            let ghost prev_children = children@;
            children.push(item);
            i = i + 1;
            proof {
                let cs = self.children@.take(i as int);
                assert(cs.drop_last() =~= self.children@.take(i - 1));
                assert(children@.drop_last() =~= prev_children);
                assert(cs.last() == self.children@[i - 1]);
                assert(children@.last() == it);
            }
        }
        assert(self.children@.take(i as int) =~= self.children@);
        TreeItem::Node {
            label,
            is_dir: self.is_dir,
            is_binary: self.is_binary,
            path: self.original_path.clone(),
            size: self.size,
            matched_size: self.matched_size,
            real_size: self.real_size,
            modified_at: self.modified_at,
            children,
        }
    }
}

/// Whether the total size of the matched files and the total real size of
/// the matched directories each fit in a `u64`.
pub fn sums_fit(res: &ScanResults) -> (r: bool)
    ensures
        r == (sum_file_sizes(res.files@) <= u64::MAX && sum_dir_real(res.dirs@) <= u64::MAX),
{
    let mut matched: u64 = 0;
    let mut m: usize = 0;
    while m < res.files.len()
        invariant
            m <= res.files@.len(),
            matched == sum_file_sizes(res.files@.take(m as int)),
        decreases res.files.len() - m,
    {
        assert(res.files@.take(m + 1).drop_last() =~= res.files@.take(m as int));
        if matched > u64::MAX - res.files[m].size {
            proof {
                lemma_sum_files_prefix(res.files@, m + 1);
            }
            return false;
        }
        matched = matched + res.files[m].size;
        m = m + 1;
    }
    assert(res.files@.take(m as int) =~= res.files@);
    let mut real_total: u64 = 0;
    let mut t: usize = 0;
    while t < res.dirs.len()
        invariant
            t <= res.dirs@.len(),
            real_total == sum_dir_real(res.dirs@.take(t as int)),
        decreases res.dirs.len() - t,
    {
        assert(res.dirs@.take(t + 1).drop_last() =~= res.dirs@.take(t as int));
        if real_total > u64::MAX - res.dirs[t].real_size {
            proof {
                lemma_sum_dirs_prefix(res.dirs@, t + 1);
            }
            return false;
        }
        real_total = real_total + res.dirs[t].real_size;
        t = t + 1;
    }
    assert(res.dirs@.take(t as int) =~= res.dirs@);
    true
}

/// What a recording gives back. After `insert_path` records an entry at a
/// path with at least one component: the node at that path holds the
/// entry's data and its path (a directory's ending in `/`); every node on
/// the way to it exists; every node off that way is as before.
pub proof fn law_insert_path(before: InternalNode, after: InternalNode, path: Seq<char>, e: EntryInfo)
    requires
        e.path == path,
        path_parts(path, true).len() > 0,
        forall|q: Seq<Seq<char>>| #[trigger] lookup(after, q) == after_insert(lookup(before, q), path_parts(path, true), q, e),
    ensures
        lookup(after, path_parts(path, true)) matches Some(info) && {
            &&& info.path == formatted_path(path, e.is_dir)
            &&& info.is_binary == e.is_binary
            &&& info.size == e.size
            &&& info.matched_size == e.matched_size
            &&& info.real_size == e.real_size
            &&& info.modified_at == e.modified_at
        },
        forall|k: int| 0 <= k < path_parts(path, true).len() ==> #[trigger] lookup(after, path_parts(path, true).take(k)) is Some,
        forall|q: Seq<Seq<char>>| !(q.len() <= path_parts(path, true).len() && q == path_parts(path, true).take(q.len() as int))
            ==> #[trigger] lookup(after, q) == lookup(before, q),
{
    let parts = path_parts(path, true);
    assert(lookup(after, parts) == after_insert(lookup(before, parts), parts, parts, e));
    assert forall|k: int| 0 <= k < parts.len() implies #[trigger] lookup(after, parts.take(k)) is Some by {
        let q = parts.take(k);
        assert(lookup(after, q) == after_insert(lookup(before, q), parts, q, e));
        assert(q.len() == k);
        assert(q == parts.take(q.len() as int));
        assert(q != parts);
    }
    assert forall|q: Seq<Seq<char>>| !(q.len() <= parts.len() && q == parts.take(q.len() as int))
        implies #[trigger] lookup(after, q) == lookup(before, q) by {
        assert(lookup(after, q) == after_insert(lookup(before, q), parts, q, e));
        if q == parts {
            assert(parts.take(parts.len() as int) =~= parts);
        }
    }
}

} // verus!
