//! Path text: splitting into components, the order of names, and the last
//! component of a directory path.
use vstd::prelude::*;
use crate::text::views;

verus! {

/// Whether `c` separates path components (`\` only when `backslash` holds).
pub open spec fn is_sep(c: char, backslash: bool) -> bool {
    c == '/' || (backslash && c == '\\')
}

/// The pieces between separators, empty ones included.
pub open spec fn split_raw(s: Seq<char>, backslash: bool) -> Seq<Seq<char>>
    decreases s.len(),
{
    if s.len() == 0 {
        seq![Seq::empty()]
    } else {
        let rest = split_raw(s.drop_last(), backslash);
        let c = s.last();
        if is_sep(c, backslash) {
            rest.push(Seq::empty())
        } else {
            rest.update(rest.len() - 1, rest.last().push(c))
        }
    }
}

/// A piece names a component unless it is empty or `.`.
pub open spec fn is_component(p: Seq<char>) -> bool {
    p.len() > 0 && p != seq!['.']
}

/// The pieces that name components, in order.
pub open spec fn keep_components(pieces: Seq<Seq<char>>) -> Seq<Seq<char>>
    decreases pieces.len(),
{
    if pieces.len() == 0 {
        Seq::empty()
    } else {
        let rest = keep_components(pieces.drop_last());
        if is_component(pieces.last()) { rest.push(pieces.last()) } else { rest }
    }
}

/// The components of a path: its pieces between separators, without empty
/// pieces and `.`.
pub open spec fn path_parts(s: Seq<char>, backslash: bool) -> Seq<Seq<char>> {
    keep_components(split_raw(s, backslash))
}

/// The last component of a directory path as `Path::file_name` gives it on a
/// Unix system: none when the path has no component or ends in `..`.
pub open spec fn file_name(s: Seq<char>) -> Option<Seq<char>> {
    let parts = path_parts(s, false);
    if parts.len() == 0 || parts.last() == seq!['.', '.'] {
        None
    } else {
        Some(parts.last())
    }
}

/// The order of `String`s: lexicographic by characters (the order of their
/// UTF-8 bytes).
pub open spec fn text_less(a: Seq<char>, b: Seq<char>) -> bool
    decreases a.len(),
{
    if a.len() == 0 {
        b.len() > 0
    } else if b.len() == 0 {
        false
    } else if a[0] != b[0] {
        a[0] < b[0]
    } else {
        text_less(a.skip(1), b.skip(1))
    }
}

pub proof fn lemma_text_less_irreflexive(a: Seq<char>)
    ensures
        !text_less(a, a),
    decreases a.len(),
{
    if a.len() > 0 {
        lemma_text_less_irreflexive(a.skip(1));
    }
}

pub proof fn lemma_text_less_total(a: Seq<char>, b: Seq<char>)
    ensures
        a != b ==> text_less(a, b) || text_less(b, a),
        !(text_less(a, b) && text_less(b, a)),
    decreases a.len(),
{
    if a.len() > 0 && b.len() > 0 {
        lemma_text_less_total(a.skip(1), b.skip(1));
        if a[0] == b[0] && a != b {
            assert(a =~= seq![a[0]] + a.skip(1));
            assert(b =~= seq![b[0]] + b.skip(1));
        }
    } else if a.len() == 0 && b.len() == 0 {
        assert(a =~= b);
    }
}

pub proof fn lemma_text_less_transitive(a: Seq<char>, b: Seq<char>, c: Seq<char>)
    requires
        text_less(a, b),
        text_less(b, c),
    ensures
        text_less(a, c),
    decreases a.len(),
{
    if a.len() > 0 && b.len() > 0 && c.len() > 0 {
        if a[0] == b[0] && b[0] == c[0] {
            lemma_text_less_transitive(a.skip(1), b.skip(1), c.skip(1));
        }
    }
}

/// Compares two texts: negative, zero or positive as `a` sorts before, equals
/// or sorts after `b`.
pub fn text_compare(a: &Vec<char>, b: &Vec<char>) -> (r: i8)
    ensures
        r < 0 <==> text_less(a@, b@),
        r == 0 <==> a@ == b@,
        r > 0 <==> text_less(b@, a@),
{
    let mut i: usize = 0;
    assert(a@.skip(0) =~= a@);
    assert(b@.skip(0) =~= b@);
    while i < a.len() && i < b.len()
        invariant
            i <= a.len(),
            i <= b.len(),
            a@.take(i as int) == b@.take(i as int),
            text_less(a@, b@) == text_less(a@.skip(i as int), b@.skip(i as int)),
            text_less(b@, a@) == text_less(b@.skip(i as int), a@.skip(i as int)),
        decreases a.len() - i,
    {
        if a[i] != b[i] {
            proof {
                lemma_text_less_total(a@, b@);
                assert(a@.skip(i as int)[0] == a@[i as int]);
                assert(b@.skip(i as int)[0] == b@[i as int]);
                assert(a@[i as int] != b@[i as int]);
            }
            if a[i] < b[i] {
                return -1;
            } else {
                return 1;
            }
        }
        proof {
            assert(a@.skip(i as int).skip(1) =~= a@.skip(i + 1));
            assert(b@.skip(i as int).skip(1) =~= b@.skip(i + 1));
            assert(a@.take(i + 1) =~= a@.take(i as int).push(a@[i as int]));
            assert(b@.take(i + 1) =~= b@.take(i as int).push(b@[i as int]));
        }
        i = i + 1;
    }
    proof {
        lemma_text_less_total(a@, b@);
    }
    if a.len() < b.len() {
        -1
    } else if a.len() > b.len() {
        1
    } else {
        assert(a@ =~= a@.take(i as int));
        assert(b@ =~= b@.take(i as int));
        0
    }
}


/// Whether `p` names a component.
pub fn is_component_exec(p: &Vec<char>) -> (r: bool)
    ensures
        r == is_component(p@),
{
    if p.len() == 0 {
        return false;
    }
    if p.len() == 1 && p[0] == '.' {
        assert(p@ =~= seq!['.']);
        return false;
    }
    assert(p@ != seq!['.']) by {
        if p.len() == 1 {
            assert(p@[0] != seq!['.'][0]);
        }
    }
    true
}

/// The components of `s` (see `path_parts`).
pub fn path_components(s: &Vec<char>, backslash: bool) -> (r: Vec<Vec<char>>)
    ensures
        views(r@) == path_parts(s@, backslash),
{
    let mut done: Vec<Vec<char>> = Vec::new();
    let mut cur: Vec<char> = Vec::new();
    let mut i: usize = 0;
    assert(s@.take(0) =~= Seq::<char>::empty());
    while i < s.len()
        invariant
            i <= s.len(),
            views(done@) == keep_components(split_raw(s@.take(i as int), backslash).drop_last()),
            cur@ == split_raw(s@.take(i as int), backslash).last(),
            split_raw(s@.take(i as int), backslash).len() >= 1,
        decreases s.len() - i,
    {
        let c = s[i];
        let ghost prev = split_raw(s@.take(i as int), backslash);
        assert(s@.take(i + 1).drop_last() =~= s@.take(i as int));
        assert(s@.take(i + 1).last() == c);
        if c == '/' || (backslash && c == '\\') {
            let ghost before = views(done@);
            if is_component_exec(&cur) {
                let piece = cur;
                done.push(piece);
                assert(views(done@) =~= before.push(prev.last()));
            } else {
                assert(views(done@) =~= before);
            }
            assert(prev.push(Seq::<char>::empty()).drop_last() =~= prev);
            assert(prev =~= prev.drop_last().push(prev.last()));
            cur = Vec::new();
        } else {
            cur.push(c);
            assert(prev.update(prev.len() - 1, prev.last().push(c)).drop_last() =~= prev.drop_last());
        }
        i = i + 1;
    }
    assert(s@.take(i as int) =~= s@);
    let ghost all = split_raw(s@, backslash);
    assert(all =~= all.drop_last().push(all.last()));
    if is_component_exec(&cur) {
        done.push(cur);
    }
    assert(views(done@) =~= path_parts(s@, backslash));
    done
}

/// The last component of a directory path, as `Path::file_name` finds it on
/// Unix (see `file_name`).
pub fn file_name_chars(s: &Vec<char>) -> (r: Option<Vec<char>>)
    ensures
        match file_name(s@) {
            Some(n) => r is Some && r->0@ == n,
            None => r is None,
        },
{
    let mut parts = path_components(s, false);
    if parts.len() == 0 {
        return None;
    }
    let last = parts.pop().unwrap();
    assert(last@ == path_parts(s@, false).last());
    if last.len() == 2 && last[0] == '.' && last[1] == '.' {
        assert(last@ =~= seq!['.', '.']);
        return None;
    }
    assert(last@ != seq!['.', '.']) by {
        if last@.len() == 2 {
            assert(last@[0] != '.' || last@[1] != '.');
        }
    }
    Some(last)
}

} // verus!
