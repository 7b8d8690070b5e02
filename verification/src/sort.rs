//! The sorting engine: groups, extensions, character classes and letter case.
use vstd::prelude::*;
use crate::text::chars_of;
use crate::tree::{is_binary_of, is_dir_of, label_of, TreeItem};

verus! {

#[derive(Debug, Clone, Copy, PartialEq, Eq, Structural)]
pub enum NodeGroup {
    Directory,
    TextFile,
    BinaryFile,
}

#[derive(Debug, Clone, PartialEq, Eq)]
pub enum GroupStrategy {
    /// All kinds together.
    Mixed,
    /// Kinds in the given order; a kind not listed comes after all listed ones.
    Custom(Vec<NodeGroup>),
}

#[derive(Debug, Clone, Copy, PartialEq, Eq, Structural)]
pub enum SameNamePriority {
    DirectoryFirst,
    FileFirst,
}

#[derive(Debug, Clone, Copy, PartialEq, Eq, Structural)]
pub enum NoExtPriority {
    Above,
    Below,
}

#[derive(Debug, Clone, Copy, PartialEq, Eq, Structural)]
pub enum CharClass {
    Special,
    Digit,
    Letter,
}

#[derive(Debug, Clone, Copy, PartialEq, Eq, Structural)]
pub enum CasePrecedence {
    Insensitive,
    UpperFirst,
    LowerFirst,
}

/// The outcome of comparing two entries.
#[derive(Debug, Clone, Copy, PartialEq, Eq, Structural)]
pub enum Order {
    Less,
    Equal,
    Greater,
}

/// Sorting settings.
#[derive(Debug, Clone, PartialEq, Eq)]
pub struct Sorting {
    pub enabled: bool,
    pub group_strategy: GroupStrategy,
    pub same_name_priority: SameNamePriority,
    pub ignore_leading_dot: bool,
    pub split_extension: bool,
    pub no_ext_priority: NoExtPriority,
    pub char_class_order: [CharClass; 3],
    pub case_precedence: CasePrecedence,
    pub reverse: bool,
}

/// Whether `c` has the Unicode property Alphabetic (`char::is_alphabetic`).
pub uninterp spec fn char_alphabetic(c: char) -> bool;

/// The first character of the lowercase mapping of `c`
/// (`c.to_lowercase().next()`, or `c` itself when the mapping is empty).
pub uninterp spec fn char_lower(c: char) -> char;

/// Whether `c` has the Unicode property Uppercase (`char::is_uppercase`).
pub uninterp spec fn char_upper_case(c: char) -> bool;

/// Whether `c` has the Unicode property Lowercase (`char::is_lowercase`).
pub uninterp spec fn char_lower_case(c: char) -> bool;

/// Calls `char::is_alphabetic`; the result is named by `char_alphabetic`.
#[verifier::external_body]
fn is_alphabetic(c: char) -> (r: bool)
    ensures
        r == char_alphabetic(c),
{
    c.is_alphabetic()
}

/// Calls `char::to_lowercase` and takes the first character of the mapping
/// (or `c` when there is none); the result is named by `char_lower`.
#[verifier::external_body]
fn lower_first(c: char) -> (r: char)
    ensures
        r == char_lower(c),
{
    c.to_lowercase().next().unwrap_or(c)
}

/// Calls `char::is_uppercase`; the result is named by `char_upper_case`.
#[verifier::external_body]
fn is_upper_case(c: char) -> (r: bool)
    ensures
        r == char_upper_case(c),
{
    c.is_uppercase()
}

/// Calls `char::is_lowercase`; the result is named by `char_lower_case`.
#[verifier::external_body]
fn is_lower_case(c: char) -> (r: bool)
    ensures
        r == char_lower_case(c),
{
    c.is_lowercase()
}

/// An order with its sides swapped.
pub open spec fn flip(o: Order) -> Order {
    match o {
        Order::Less => Order::Greater,
        Order::Equal => Order::Equal,
        Order::Greater => Order::Less,
    }
}

pub open spec fn order_nat(a: nat, b: nat) -> Order {
    if a < b { Order::Less } else if a == b { Order::Equal } else { Order::Greater }
}

pub open spec fn order_char(a: char, b: char) -> Order {
    if a < b { Order::Less } else if a == b { Order::Equal } else { Order::Greater }
}

/// The class of a character: ASCII digit, alphabetic letter, or special.
pub open spec fn classify(c: char) -> CharClass {
    if '0' <= c && c <= '9' {
        CharClass::Digit
    } else if char_alphabetic(c) {
        CharClass::Letter
    } else {
        CharClass::Special
    }
}

/// Rank of a class in the configured order; 3 when it is not listed.
pub open spec fn class_rank(order: Seq<CharClass>, c: CharClass) -> nat {
    if order[0] == c { 0 } else if order[1] == c { 1 } else if order[2] == c { 2 } else { 3 }
}

/// Rank of a group in a custom order; `usize::MAX` when it is not listed.
pub open spec fn group_rank(order: Seq<NodeGroup>, g: NodeGroup) -> nat
    decreases order.len(),
{
    if order.len() == 0 {
        usize::MAX as nat
    } else if order[0] == g {
        0
    } else {
        let r = group_rank(order.skip(1), g);
        if r == usize::MAX as nat { r } else { r + 1 }
    }
}

/// The group of an entry: directories (the root too), binary files, text
/// files (a spacer counts as one).
pub open spec fn node_group_of(item: TreeItem) -> NodeGroup {
    match item {
        TreeItem::Root { .. } => NodeGroup::Directory,
        TreeItem::Node { is_dir, is_binary, .. } => {
            if is_dir { NodeGroup::Directory } else if is_binary { NodeGroup::BinaryFile } else { NodeGroup::TextFile }
        },
        TreeItem::Spacer => NodeGroup::TextFile,
    }
}

/// Index of the last `.` in `s`, or -1.
pub open spec fn last_dot(s: Seq<char>) -> int
    decreases s.len(),
{
    if s.len() == 0 {
        -1
    } else if s.last() == '.' {
        s.len() - 1
    } else {
        last_dot(s.drop_last())
    }
}

impl Sorting {
    /// The first difference of two characters, or none when they count as equal.
    pub open spec fn char_step(self, c1: char, c2: char) -> Option<Order> {
        if c1 == c2 {
            None
        } else {
            let k1 = classify(c1);
            let k2 = classify(c2);
            if k1 != k2 {
                Some(order_nat(class_rank(self.char_class_order@, k1), class_rank(self.char_class_order@, k2)))
            } else if k1 == CharClass::Letter {
                let l1 = char_lower(c1);
                let l2 = char_lower(c2);
                if l1 != l2 {
                    Some(order_char(l1, l2))
                } else {
                    match self.case_precedence {
                        CasePrecedence::Insensitive => None,
                        CasePrecedence::UpperFirst => {
                            if char_upper_case(c1) && char_lower_case(c2) {
                                Some(Order::Less)
                            } else if char_lower_case(c1) && char_upper_case(c2) {
                                Some(Order::Greater)
                            } else {
                                None
                            }
                        },
                        CasePrecedence::LowerFirst => {
                            if char_lower_case(c1) && char_upper_case(c2) {
                                Some(Order::Less)
                            } else if char_upper_case(c1) && char_lower_case(c2) {
                                Some(Order::Greater)
                            } else {
                                None
                            }
                        },
                    }
                }
            } else {
                Some(order_char(c1, c2))
            }
        }
    }

    /// Comparison of two texts from position `i` on: the first character pair
    /// that decides, else the shorter text first.
    pub open spec fn compare_from(self, a: Seq<char>, b: Seq<char>, i: nat) -> Order
        decreases a.len() - i,
    {
        if i >= a.len() || i >= b.len() {
            order_nat(a.len(), b.len())
        } else {
            match self.char_step(a[i as int], b[i as int]) {
                Some(o) => o,
                None => self.compare_from(a, b, i + 1),
            }
        }
    }

    pub open spec fn spec_compare_strings(self, a: Seq<char>, b: Seq<char>) -> Order {
        self.compare_from(a, b, 0)
    }

    /// The name used for comparison: without its leading dot when set so.
    pub open spec fn clean_label(self, s: Seq<char>) -> Seq<char> {
        if self.ignore_leading_dot && s.len() > 0 && s[0] == '.' { s.skip(1) } else { s }
    }

    /// Base and extension of a name: directories have none; a file's
    /// extension follows its last dot unless that dot opens the name.
    pub open spec fn spec_split_name_ext(self, name: Seq<char>, is_dir: bool) -> (Seq<char>, Option<Seq<char>>) {
        let p = last_dot(name);
        if is_dir || p <= 0 {
            (name, None)
        } else {
            (name.take(p), Some(name.skip(p + 1)))
        }
    }

    /// The comparison of two entries, before any reversal.
    pub open spec fn spec_compare_items(self, a: TreeItem, b: TreeItem) -> Order {
        let ga = node_group_of(a);
        let gb = node_group_of(b);
        if self.group_strategy is Custom && ga != gb {
            order_nat(group_rank(self.group_strategy->0@, ga), group_rank(self.group_strategy->0@, gb))
        } else {
            let ca = self.clean_label(label_of(a));
            let cb = self.clean_label(label_of(b));
            if self.split_extension {
                let (base_a, ext_a) = self.spec_split_name_ext(ca, is_dir_of(a));
                let (base_b, ext_b) = self.spec_split_name_ext(cb, is_dir_of(b));
                let base = self.spec_compare_strings(base_a, base_b);
                if base != Order::Equal {
                    base
                } else if is_dir_of(a) != is_dir_of(b) {
                    match self.same_name_priority {
                        SameNamePriority::DirectoryFirst => if is_dir_of(a) { Order::Less } else { Order::Greater },
                        SameNamePriority::FileFirst => if is_dir_of(a) { Order::Greater } else { Order::Less },
                    }
                } else {
                    match (ext_a, ext_b) {
                        (None, None) => Order::Equal,
                        (None, Some(_)) => match self.no_ext_priority {
                            NoExtPriority::Above => Order::Less,
                            NoExtPriority::Below => Order::Greater,
                        },
                        (Some(_), None) => match self.no_ext_priority {
                            NoExtPriority::Above => Order::Greater,
                            NoExtPriority::Below => Order::Less,
                        },
                        (Some(ea), Some(eb)) => self.spec_compare_strings(ea, eb),
                    }
                }
            } else {
                self.spec_compare_strings(ca, cb)
            }
        }
    }

    /// The comparison the sort uses: reversed when set so.
    #[verifier::opaque]
    pub open spec fn sort_order(self, a: TreeItem, b: TreeItem) -> Order {
        if self.reverse { flip(self.spec_compare_items(a, b)) } else { self.spec_compare_items(a, b) }
    }

    /// `x` placed into `sorted` after every entry that does not come after it.
    pub open spec fn insert_sorted(self, sorted: Seq<TreeItem>, x: TreeItem) -> Seq<TreeItem>
        decreases sorted.len(),
    {
        if sorted.len() == 0 {
            seq![x]
        } else if self.sort_order(sorted.last(), x) == Order::Greater {
            self.insert_sorted(sorted.drop_last(), x).push(sorted.last())
        } else {
            sorted.push(x)
        }
    }

    /// One level sorted stably by insertion.
    pub open spec fn sort_level(self, s: Seq<TreeItem>) -> Seq<TreeItem>
        decreases s.len(),
    {
        if s.len() == 0 {
            Seq::empty()
        } else {
            self.insert_sorted(self.sort_level(s.drop_last()), s.last())
        }
    }

    /// `new` is `old` with the children of every entry below sorted.
    pub open spec fn sorted_tree(self, old: TreeItem, new: TreeItem) -> bool
        decreases old, 2nat,
    {
        match (old, new) {
            (
                TreeItem::Root { label: l1, path: p1, matched_size: m1, real_size: r1, modified_at: t1, children: c1 },
                TreeItem::Root { label: l2, path: p2, matched_size: m2, real_size: r2, modified_at: t2, children: c2 },
            ) => {
                &&& l1 == l2 && p1 == p2 && m1 == m2 && r1 == r2 && t1 == t2
                &&& self.sorted_items(c1@, c2@)
            },
            (
                TreeItem::Node { label: l1, is_dir: d1, is_binary: b1, path: p1, size: s1, matched_size: m1, real_size: r1, modified_at: t1, children: c1 },
                TreeItem::Node { label: l2, is_dir: d2, is_binary: b2, path: p2, size: s2, matched_size: m2, real_size: r2, modified_at: t2, children: c2 },
            ) => {
                &&& l1 == l2 && d1 == d2 && b1 == b2 && p1 == p2 && s1 == s2 && m1 == m2 && r1 == r2 && t1 == t2
                &&& self.sorted_items(c1@, c2@)
            },
            (TreeItem::Spacer, TreeItem::Spacer) => true,
            _ => false,
        }
    }

    /// `new` is `old` entry by entry with the children sorted.
    pub open spec fn children_sorted(self, old: Seq<TreeItem>, new: Seq<TreeItem>) -> bool
        decreases old, 0nat,
    {
        &&& old.len() == new.len()
        &&& (old.len() == 0 || (self.children_sorted(old.drop_last(), new.drop_last())
            && self.sorted_tree(old.last(), new.last())))
    }

    /// `new` is `old` sorted: unchanged when sorting is off or there is nothing
    /// to sort; otherwise every entry's children sorted and the level itself
    /// sorted stably by `sort_order`.
    pub open spec fn sorted_items(self, old: Seq<TreeItem>, new: Seq<TreeItem>) -> bool
        decreases old, 1nat,
    {
        if !self.enabled || old.len() == 0 {
            new == old
        } else {
            exists|mid: Seq<TreeItem>| self.children_sorted(old, mid) && new == #[trigger] self.sort_level(mid)
        }
    }
}

fn order_of_nat(a: usize, b: usize) -> (r: Order)
    ensures
        r == order_nat(a as nat, b as nat),
{
    if a < b { Order::Less } else if a == b { Order::Equal } else { Order::Greater }
}

fn order_of_char(a: char, b: char) -> (r: Order)
    ensures
        r == order_char(a, b),
{
    if a < b { Order::Less } else if a == b { Order::Equal } else { Order::Greater }
}

fn flip_exec(o: Order) -> (r: Order)
    ensures
        r == flip(o),
{
    match o {
        Order::Less => Order::Greater,
        Order::Equal => Order::Equal,
        Order::Greater => Order::Less,
    }
}

impl Sorting {
    pub open spec fn spec_default() -> Sorting {
        Sorting {
            enabled: true,
            group_strategy: GroupStrategy::Mixed,
            same_name_priority: SameNamePriority::DirectoryFirst,
            ignore_leading_dot: false,
            split_extension: true,
            no_ext_priority: NoExtPriority::Above,
            char_class_order: [CharClass::Special, CharClass::Digit, CharClass::Letter],
            case_precedence: CasePrecedence::Insensitive,
            reverse: false,
        }
    }

    pub fn new() -> (r: Self)
        ensures
            r == Sorting::spec_default(),
    {
        Self::default()
    }

    pub fn enabled(self, enabled: bool) -> (r: Self)
        ensures
            r == (Sorting { enabled, ..self }),
    {
        let mut s = self;
        s.enabled = enabled;
        s
    }

    pub fn group_strategy(self, strategy: GroupStrategy) -> (r: Self)
        ensures
            r == (Sorting { group_strategy: strategy, ..self }),
    {
        let mut s = self;
        s.group_strategy = strategy;
        s
    }

    pub fn same_name_priority(self, priority: SameNamePriority) -> (r: Self)
        ensures
            r == (Sorting { same_name_priority: priority, ..self }),
    {
        let mut s = self;
        s.same_name_priority = priority;
        s
    }

    pub fn ignore_leading_dot(self, ignore: bool) -> (r: Self)
        ensures
            r == (Sorting { ignore_leading_dot: ignore, ..self }),
    {
        let mut s = self;
        s.ignore_leading_dot = ignore;
        s
    }

    pub fn split_extension(self, split: bool) -> (r: Self)
        ensures
            r == (Sorting { split_extension: split, ..self }),
    {
        let mut s = self;
        s.split_extension = split;
        s
    }

    pub fn no_ext_priority(self, priority: NoExtPriority) -> (r: Self)
        ensures
            r == (Sorting { no_ext_priority: priority, ..self }),
    {
        let mut s = self;
        s.no_ext_priority = priority;
        s
    }

    pub fn char_class_order(self, order: [CharClass; 3]) -> (r: Self)
        ensures
            r == (Sorting { char_class_order: order, ..self }),
    {
        let mut s = self;
        s.char_class_order = order;
        s
    }

    pub fn case_precedence(self, precedence: CasePrecedence) -> (r: Self)
        ensures
            r == (Sorting { case_precedence: precedence, ..self }),
    {
        let mut s = self;
        s.case_precedence = precedence;
        s
    }

    pub fn reverse(self, reverse: bool) -> (r: Self)
        ensures
            r == (Sorting { reverse, ..self }),
    {
        let mut s = self;
        s.reverse = reverse;
        s
    }

    fn classify_char(&self, c: char) -> (r: CharClass)
        ensures
            r == classify(c),
    {
        if '0' <= c && c <= '9' {
            CharClass::Digit
        } else if is_alphabetic(c) {
            CharClass::Letter
        } else {
            CharClass::Special
        }
    }

    fn class_position(&self, c: CharClass) -> (r: usize)
        ensures
            r as nat == class_rank(self.char_class_order@, c),
    {
        if self.char_class_order[0] == c {
            0
        } else if self.char_class_order[1] == c {
            1
        } else if self.char_class_order[2] == c {
            2
        } else {
            3
        }
    }

    fn char_step_exec(&self, c1: char, c2: char) -> (r: Option<Order>)
        ensures
            r == self.char_step(c1, c2),
    {
        if c1 == c2 {
            return None;
        }
        let k1 = self.classify_char(c1);
        let k2 = self.classify_char(c2);
        if k1 != k2 {
            return Some(order_of_nat(self.class_position(k1), self.class_position(k2)));
        }
        if k1 == CharClass::Letter {
            let l1 = lower_first(c1);
            let l2 = lower_first(c2);
            if l1 != l2 {
                return Some(order_of_char(l1, l2));
            }
            match self.case_precedence {
                CasePrecedence::Insensitive => None,
                CasePrecedence::UpperFirst => {
                    if is_upper_case(c1) && is_lower_case(c2) {
                        Some(Order::Less)
                    } else if is_lower_case(c1) && is_upper_case(c2) {
                        Some(Order::Greater)
                    } else {
                        None
                    }
                },
                CasePrecedence::LowerFirst => {
                    if is_lower_case(c1) && is_upper_case(c2) {
                        Some(Order::Less)
                    } else if is_upper_case(c1) && is_lower_case(c2) {
                        Some(Order::Greater)
                    } else {
                        None
                    }
                },
            }
        } else {
            Some(order_of_char(c1, c2))
        }
    }

    /// Compares two texts character by character (see `compare_from`).
    fn compare_strings(&self, s1: &Vec<char>, s2: &Vec<char>) -> (r: Order)
        ensures
            r == self.spec_compare_strings(s1@, s2@),
    {
        let min_len = if s1.len() < s2.len() { s1.len() } else { s2.len() };
        let mut i: usize = 0;
        while i < min_len
            invariant
                min_len == (if s1@.len() < s2@.len() { s1@.len() } else { s2@.len() }),
                i <= min_len,
                self.compare_from(s1@, s2@, 0) == self.compare_from(s1@, s2@, i as nat),
            decreases min_len - i,
        {
            match self.char_step_exec(s1[i], s2[i]) {
                Some(o) => {
                    return o;
                },
                None => {},
            }
            i = i + 1;
        }
        order_of_nat(s1.len(), s2.len())
    }

    /// Base and extension of a name (see `spec_split_name_ext`).
    fn split_name_ext(&self, name: &Vec<char>, is_dir: bool) -> (r: (Vec<char>, Option<Vec<char>>))
        ensures
            r.0@ == self.spec_split_name_ext(name@, is_dir).0,
            match self.spec_split_name_ext(name@, is_dir).1 {
                Some(e) => r.1 is Some && r.1->0@ == e,
                None => r.1 is None,
            },
    {
        let mut copy: Vec<char> = Vec::new();
        crate::text::push_all(&mut copy, name);
        if is_dir {
            return (copy, None);
        }
        let mut i: usize = name.len();
        assert(name@.take(i as int) =~= name@);
        while i > 0 && name[i - 1] != '.'
            invariant
                i <= name@.len(),
                last_dot(name@) == last_dot(name@.take(i as int)),
            decreases i,
        {
            assert(name@.take(i as int).drop_last() =~= name@.take(i - 1));
            i = i - 1;
        }
        proof {
            if i > 0 {
                assert(name@.take(i as int).last() == '.');
            }
        }
        if i <= 1 {
            return (copy, None);
        }
        let p = i - 1;
        let base = crate::text::take_chars(name, p);
        let ext = crate::text::skip_chars(name, p + 1);
        (base, Some(ext))
    }

    /// The group of an entry.
    fn node_group(&self, item: &TreeItem) -> (r: NodeGroup)
        ensures
            r == node_group_of(*item),
    {
        match item {
            TreeItem::Root { .. } => NodeGroup::Directory,
            TreeItem::Node { is_dir, is_binary, .. } => {
                if *is_dir {
                    NodeGroup::Directory
                } else if *is_binary {
                    NodeGroup::BinaryFile
                } else {
                    NodeGroup::TextFile
                }
            },
            TreeItem::Spacer => NodeGroup::TextFile,
        }
    }

    /// The name used for comparison.
    fn clean(&self, s: Vec<char>) -> (r: Vec<char>)
        ensures
            r@ == self.clean_label(s@),
    {
        if self.ignore_leading_dot && s.len() > 0 && s[0] == '.' {
            crate::text::skip_chars(&s, 1)
        } else {
            s
        }
    }

    /// Compares two entries (see `spec_compare_items`).
    fn compare_items(&self, a: &TreeItem, b: &TreeItem) -> (r: Order)
        ensures
            r == self.spec_compare_items(*a, *b),
    {
        match &self.group_strategy {
            GroupStrategy::Custom(group_order) => {
                let group_a = self.node_group(a);
                let group_b = self.node_group(b);
                if group_a != group_b {
                    let pos_a = group_position(group_order, group_a);
                    let pos_b = group_position(group_order, group_b);
                    return order_of_nat(pos_a, pos_b);
                }
            },
            GroupStrategy::Mixed => {},
        }
        let clean_a = self.clean(chars_of(a.label()));
        let clean_b = self.clean(chars_of(b.label()));
        if self.split_extension {
            let (base_a, ext_a) = self.split_name_ext(&clean_a, a.is_dir());
            let (base_b, ext_b) = self.split_name_ext(&clean_b, b.is_dir());
            let base_order = self.compare_strings(&base_a, &base_b);
            if base_order != Order::Equal {
                return base_order;
            }
            let is_dir_a = a.is_dir();
            let is_dir_b = b.is_dir();
            if is_dir_a != is_dir_b {
                return match self.same_name_priority {
                    SameNamePriority::DirectoryFirst => if is_dir_a { Order::Less } else { Order::Greater },
                    SameNamePriority::FileFirst => if is_dir_a { Order::Greater } else { Order::Less },
                };
            }
            match (ext_a, ext_b) {
                (None, None) => Order::Equal,
                (None, Some(_)) => match self.no_ext_priority {
                    NoExtPriority::Above => Order::Less,
                    NoExtPriority::Below => Order::Greater,
                },
                (Some(_), None) => match self.no_ext_priority {
                    NoExtPriority::Above => Order::Greater,
                    NoExtPriority::Below => Order::Less,
                },
                (Some(e_a), Some(e_b)) => self.compare_strings(&e_a, &e_b),
            }
        } else {
            self.compare_strings(&clean_a, &clean_b)
        }
    }

    /// The comparison the sort uses.
    fn sort_compare(&self, a: &TreeItem, b: &TreeItem) -> (r: Order)
        ensures
            r == self.sort_order(*a, *b),
    {
        proof {
            reveal(Sorting::sort_order);
        }
        let res = self.compare_items(a, b);
        if self.reverse { flip_exec(res) } else { res }
    }
}

impl Sorting {
    /// Sorts `items` in place: nothing happens when sorting is off; otherwise
    /// every entry's children are sorted, all the way down, and the entries
    /// are put in `sort_order` (reversed when `reverse` is set), entries that
    /// compare equal keeping their order.
    #[verifier::loop_isolation(false)]
    pub fn sort_items(&self, items: &mut Vec<TreeItem>)
        ensures
            self.sorted_items(old(items)@, final(items)@),
        decreases old(items)@,
    {
        if self.enabled == false || items.len() == 0 {
            return;
        }
        let ghost orig = items@;
        let n = items.len();
        let mut i: usize = 0;
        while i < n
            invariant
                n == orig.len(),
                items@.len() == n,
                i <= n,
                forall|j: int| 0 <= j < i ==> self.sorted_tree(#[trigger] orig[j], items@[j]),
                forall|j: int| i <= j < n ==> #[trigger] items@[j] == orig[j],
            decreases n - i,
        {
            let it = items.remove(i);
            proof {
                assert(it == orig[i as int]);
                assert(decreases_to!(orig => it));
            }
            let sorted = self.sort_tree(it);
            items.insert(i, sorted);
            i = i + 1;
        }
        proof {
            lemma_children_sorted_index(*self, orig, items@);
        }
        let ghost mid = items@;
        self.sort_level_in_place(items);
        assert(self.children_sorted(orig, mid) && items@ == self.sort_level(mid));
    }

    /// Sorts one level stably by insertion (see `sort_level`).
    fn sort_level_in_place(&self, items: &mut Vec<TreeItem>)
        requires
            old(items)@.len() >= 1,
        ensures
            final(items)@ == self.sort_level(old(items)@),
    {
        let n = items.len();
        let ghost mid = items@;
        let mut k: usize = 1;
        assert(mid.take(1).drop_last() =~= Seq::<TreeItem>::empty());
        assert(mid.take(1).last() == mid[0]);
        assert(self.sort_level(mid.take(1).drop_last()) == Seq::<TreeItem>::empty());
        assert(self.insert_sorted(Seq::<TreeItem>::empty(), mid[0]) == seq![mid[0]]);
        assert(self.sort_level(mid.take(1)) == seq![mid[0]]);
        assert(items@.take(1) =~= seq![mid[0]]);
        while k < n
            invariant
                n == mid.len(),
                items@.len() == n,
                1 <= k <= n,
                items@.take(k as int) == self.sort_level(mid.take(k as int)),
                items@.skip(k as int) == mid.skip(k as int),
            decreases n - k,
        {
            let ghost before = items@;
            let x = items.remove(k);
            let ghost sorted = items@.take(k as int);
            assert(sorted == before.take(k as int));
            assert(x == mid[k as int]) by {
                assert(before.skip(k as int)[0] == mid.skip(k as int)[0]);
            }
            let mut j: usize = k;
            assert(sorted.take(k as int) =~= sorted);
            assert(sorted.skip(k as int) =~= Seq::<TreeItem>::empty());
            assert(self.insert_sorted(sorted, x) =~= self.insert_sorted(sorted.take(k as int), x) + sorted.skip(k as int));
            while j > 0 && self.sort_compare(&items[j - 1], &x) == Order::Greater
                invariant
                    j <= k,
                    k < n,
                    items@.len() == n - 1,
                    items@.take(k as int) == sorted,
                    sorted.len() == k,
                    self.insert_sorted(sorted, x) == self.insert_sorted(sorted.take(j as int), x) + sorted.skip(j as int),
                decreases j,
            {
                proof {
                    assert(items@[j - 1] == sorted[j - 1]);
                    assert(sorted.take(j as int).drop_last() =~= sorted.take(j - 1));
                    assert(sorted.take(j as int).last() == sorted[j - 1]);
                    assert(sorted.skip(j - 1) =~= seq![sorted[j - 1]] + sorted.skip(j as int));
                    assert(self.insert_sorted(sorted.take(j - 1), x).push(sorted[j - 1]) + sorted.skip(j as int)
                        =~= self.insert_sorted(sorted.take(j - 1), x) + sorted.skip(j - 1));
                }
                j = j - 1;
            }
            proof {
                if j > 0 {
                    assert(items@[j - 1] == sorted[j - 1]);
                    assert(sorted.take(j as int).last() == sorted[j - 1]);
                }
                assert(self.insert_sorted(sorted.take(j as int), x) =~= sorted.take(j as int).push(x));
            }
            let ghost removed = items@;
            items.insert(j, x);
            proof {
                assert(removed =~= before.remove(k as int));
                assert(items@ =~= removed.insert(j as int, x));
                assert forall|t: int| 0 <= t < n - (k + 1) implies #[trigger] items@.skip(k + 1)[t] == mid.skip(k + 1)[t] by {
                    assert(items@.skip(k + 1)[t] == before[k + 1 + t]);
                    assert(before[k + 1 + t] == before.skip(k as int)[t + 1]);
                }
                assert(mid.take(k + 1).drop_last() =~= mid.take(k as int));
                assert(mid.take(k + 1).last() == x);
                assert(items@.take(k + 1) =~= sorted.insert(j as int, x));
                assert(sorted.insert(j as int, x) =~= sorted.take(j as int).push(x) + sorted.skip(j as int));
                assert(items@.skip(k + 1) =~= mid.skip(k + 1));
            }
            k = k + 1;
        }
        assert(items@ =~= items@.take(n as int));
        assert(mid.take(n as int) =~= mid);
    }

    /// `item` with the children below it sorted.
    fn sort_tree(&self, item: TreeItem) -> (r: TreeItem)
        ensures
            self.sorted_tree(item, r),
        decreases item,
    {
        match item {
            TreeItem::Root { label, path, matched_size, real_size, modified_at, children } => {
                let mut c = children;
                proof { assert(decreases_to!(item => c@)); }
                self.sort_items(&mut c);
                TreeItem::Root { label, path, matched_size, real_size, modified_at, children: c }
            },
            TreeItem::Node { label, is_dir, is_binary, path, size, matched_size, real_size, modified_at, children } => {
                let mut c = children;
                proof { assert(decreases_to!(item => c@)); }
                self.sort_items(&mut c);
                TreeItem::Node { label, is_dir, is_binary, path, size, matched_size, real_size, modified_at, children: c }
            },
            TreeItem::Spacer => TreeItem::Spacer,
        }
    }
}

proof fn lemma_children_sorted_index(s: Sorting, old: Seq<TreeItem>, new: Seq<TreeItem>)
    requires
        old.len() == new.len(),
        forall|j: int| 0 <= j < old.len() ==> s.sorted_tree(#[trigger] old[j], new[j]),
    ensures
        s.children_sorted(old, new),
    decreases old.len(),
{
    if old.len() > 0 {
        assert forall|j: int| 0 <= j < old.drop_last().len() implies s.sorted_tree(#[trigger] old.drop_last()[j], new.drop_last()[j]) by {
            assert(old.drop_last()[j] == old[j]);
            assert(new.drop_last()[j] == new[j]);
        }
        lemma_children_sorted_index(s, old.drop_last(), new.drop_last());
        assert(s.sorted_tree(old[old.len() - 1], new[new.len() - 1]));
    }
}

/// Position of `g` in `order`, or `usize::MAX`.
fn group_position(order: &Vec<NodeGroup>, g: NodeGroup) -> (r: usize)
    ensures
        r as nat == group_rank(order@, g),
{
    let mut i: usize = 0;
    while i < order.len()
        invariant
            i <= order@.len(),
            forall|j: int| 0 <= j < i ==> order@[j] != g,
        decreases order.len() - i,
    {
        if order[i] == g {
            proof { lemma_group_rank_at(order@, g, i as int); }
            return i;
        }
        i = i + 1;
    }
    proof { lemma_group_rank_absent(order@, g); }
    usize::MAX
}

proof fn lemma_group_rank_at(order: Seq<NodeGroup>, g: NodeGroup, i: int)
    requires
        0 <= i < order.len(),
        order.len() <= usize::MAX,
        order[i] == g,
        forall|j: int| 0 <= j < i ==> order[j] != g,
    ensures
        group_rank(order, g) == i,
    decreases i,
{
    if i > 0 {
        lemma_group_rank_at(order.skip(1), g, i - 1);
    }
}

proof fn lemma_group_rank_absent(order: Seq<NodeGroup>, g: NodeGroup)
    requires
        forall|j: int| 0 <= j < order.len() ==> order[j] != g,
    ensures
        group_rank(order, g) == usize::MAX,
    decreases order.len(),
{
    if order.len() > 0 {
        lemma_group_rank_absent(order.skip(1), g);
    }
}

impl Default for Sorting {
    fn default() -> (r: Self)
        ensures
            r == Sorting::spec_default(),
    {
        Sorting {
            enabled: true,
            group_strategy: GroupStrategy::Mixed,
            same_name_priority: SameNamePriority::DirectoryFirst,
            ignore_leading_dot: false,
            split_extension: true,
            no_ext_priority: NoExtPriority::Above,
            char_class_order: [CharClass::Special, CharClass::Digit, CharClass::Letter],
            case_precedence: CasePrecedence::Insensitive,
            reverse: false,
        }
    }
}

/// No character is both uppercase and lowercase.
pub open spec fn cases_disjoint() -> bool {
    forall|c: char| !(#[trigger] char_upper_case(c) && char_lower_case(c))
}

impl Sorting {
    /// The settings under which swapping the sides of a comparison is known
    /// to swap its result: case-insensitive, or no character both upper- and
    /// lowercase.
    pub open spec fn swaps_cleanly(self) -> bool {
        self.case_precedence is Insensitive || cases_disjoint()
    }

    /// The class order lists each of the three classes once.
    pub open spec fn classes_distinct(self) -> bool {
        let o = self.char_class_order@;
        o[0] != o[1] && o[1] != o[2] && o[0] != o[2]
    }

    /// Where the letter case decides, `c` is no letter or has exactly one
    /// of the two cases.
    pub open spec fn case_known(self, c: char) -> bool {
        self.case_precedence is Insensitive || classify(c) != CharClass::Letter
            || char_upper_case(c) != char_lower_case(c)
    }

    /// Every character of `t` is `case_known`.
    pub open spec fn cases_known(self, t: Seq<char>) -> bool {
        forall|j: int| 0 <= j < t.len() ==> self.case_known(#[trigger] t[j])
    }

    /// Where the letter case decides, `c` is no letter or is uppercase or
    /// lowercase (or both).
    pub open spec fn case_given(self, c: char) -> bool {
        self.case_precedence is Insensitive || classify(c) != CharClass::Letter
            || char_upper_case(c) || char_lower_case(c)
    }

    /// Every character of `t` is `case_given`.
    pub open spec fn cases_given(self, t: Seq<char>) -> bool {
        forall|j: int| 0 <= j < t.len() ==> self.case_given(#[trigger] t[j])
    }

    /// Where the letter case decides, `c1` and `c2` are not two different
    /// letters with the same lowercase form that are both upper- and
    /// lowercase each.
    pub open spec fn cases_apart(self, c1: char, c2: char) -> bool {
        self.case_precedence is Insensitive || !(c1 != c2 && classify(c1) == CharClass::Letter
            && classify(c2) == CharClass::Letter && char_upper_case(c1) && char_lower_case(c1)
            && char_upper_case(c2) && char_lower_case(c2) && char_lower(c1) == char_lower(c2))
    }

    /// Every character of `a` is `cases_apart` from every character of `b`.
    pub open spec fn texts_apart(self, a: Seq<char>, b: Seq<char>) -> bool {
        forall|i: int, j: int| 0 <= i < a.len() && 0 <= j < b.len() ==> self.cases_apart(#[trigger] a[i], #[trigger] b[j])
    }

    /// Where the groups decide, each of the three groups has a place in the
    /// custom order.
    pub open spec fn groups_listed(self) -> bool {
        self.group_strategy is Custom ==> forall|g: NodeGroup| #[trigger] group_rank(self.group_strategy->0@, g) < usize::MAX
    }

    /// The name of `a` that the comparison reads is `cases_known`.
    pub open spec fn item_known(self, a: TreeItem) -> bool {
        self.cases_known(self.clean_label(label_of(a)))
    }
}

proof fn lemma_char_step_swap(s: Sorting, c1: char, c2: char)
    requires
        s.swaps_cleanly() || s.cases_apart(c1, c2),
    ensures
        s.char_step(c2, c1) == (match s.char_step(c1, c2) {
            Some(o) => Some(flip(o)),
            None => None,
        }),
{
    if !(s.case_precedence is Insensitive) && s.swaps_cleanly() {
        assert(!(char_upper_case(c1) && char_lower_case(c1)));
        assert(!(char_upper_case(c2) && char_lower_case(c2)));
    }
}

proof fn lemma_compare_from_swap(s: Sorting, a: Seq<char>, b: Seq<char>, i: nat)
    requires
        s.swaps_cleanly() || s.texts_apart(a, b),
    ensures
        s.compare_from(b, a, i) == flip(s.compare_from(a, b, i)),
    decreases a.len() - i,
{
    if i < a.len() && i < b.len() {
        lemma_char_step_swap(s, a[i as int], b[i as int]);
        if s.char_step(a[i as int], b[i as int]) is None {
            lemma_compare_from_swap(s, a, b, i + 1);
        }
    }
}

proof fn lemma_compare_from_same(s: Sorting, a: Seq<char>, i: nat)
    ensures
        s.compare_from(a, a, i) == Order::Equal,
    decreases a.len() - i,
{
    if i < a.len() {
        lemma_compare_from_same(s, a, i + 1);
    }
}

/// Comparing two texts the other way round gives the opposite order (where
/// the letter case decides, for texts with no two different letters of one
/// lowercase form that are both upper- and lowercase each).
pub proof fn law_compare_strings_antisymmetric(s: Sorting, a: Seq<char>, b: Seq<char>)
    requires
        s.swaps_cleanly() || s.texts_apart(a, b),
    ensures
        s.spec_compare_strings(b, a) == flip(s.spec_compare_strings(a, b)),
{
    lemma_compare_from_swap(s, a, b, 0);
}

/// How one character step follows from two others: equivalence is
/// transitive, an equivalent character decides as the other one does, and
/// two steps down make one step down; no step ends in a tie.
proof fn lemma_char_step_trans(s: Sorting, x: char, y: char, z: char)
    requires
        s.classes_distinct(),
        s.case_given(x),
        s.case_given(y),
        s.case_given(z),
        s.cases_apart(x, y),
        s.cases_apart(y, z),
        s.cases_apart(x, z),
    ensures
        s.char_step(x, y) != Some(Order::Equal),
        s.char_step(x, y) is None && s.char_step(y, z) is None ==> s.char_step(x, z) is None,
        s.char_step(x, y) is None && s.char_step(y, z) is Some ==> s.char_step(x, z) == s.char_step(y, z),
        s.char_step(x, y) is Some && s.char_step(y, z) is None ==> s.char_step(x, z) == s.char_step(x, y),
        s.char_step(x, y) == Some(Order::Less) && s.char_step(y, z) == Some(Order::Less)
            ==> s.char_step(x, z) == Some(Order::Less),
{
}

proof fn lemma_compare_from_trans(s: Sorting, a: Seq<char>, b: Seq<char>, c: Seq<char>, i: nat)
    requires
        s.classes_distinct(),
        s.cases_given(a),
        s.cases_given(b),
        s.cases_given(c),
        s.texts_apart(a, b),
        s.texts_apart(b, c),
        s.texts_apart(a, c),
        s.compare_from(a, b, i) != Order::Greater,
        s.compare_from(b, c, i) != Order::Greater,
    ensures
        s.compare_from(a, c, i) != Order::Greater,
    decreases a.len() - i,
{
    if i < a.len() && i < b.len() && i < c.len() {
        let x = a[i as int];
        let y = b[i as int];
        let z = c[i as int];
        lemma_char_step_trans(s, x, y, z);
        lemma_char_step_trans(s, y, z, x);
        if s.char_step(x, y) is None && s.char_step(y, z) is None {
            lemma_compare_from_trans(s, a, b, c, i + 1);
        }
    }
}

/// Where the class order lists each class once and, if the letter case
/// decides, every letter of the three texts is uppercase or lowercase and no
/// two different letters of one lowercase form are both, the comparison of
/// texts is transitive: a text not after a second one that is not after a
/// third is not after the third.
pub proof fn law_compare_strings_transitive(s: Sorting, a: Seq<char>, b: Seq<char>, c: Seq<char>)
    requires
        s.classes_distinct(),
        s.cases_given(a),
        s.cases_given(b),
        s.cases_given(c),
        s.texts_apart(a, b),
        s.texts_apart(b, c),
        s.texts_apart(a, c),
        s.spec_compare_strings(a, b) != Order::Greater,
        s.spec_compare_strings(b, c) != Order::Greater,
    ensures
        s.spec_compare_strings(a, c) != Order::Greater,
{
    lemma_compare_from_trans(s, a, b, c, 0);
}

/// Under the premises of `law_compare_strings_transitive`, the comparison of
/// texts is a total preorder, as a stable sort needs: swapping the sides
/// flips the result, a text equals itself, and the order is transitive.
pub proof fn law_compare_strings_total_preorder(s: Sorting, a: Seq<char>, b: Seq<char>, c: Seq<char>)
    requires
        s.classes_distinct(),
        s.cases_given(a),
        s.cases_given(b),
        s.cases_given(c),
        s.texts_apart(a, b),
        s.texts_apart(b, c),
        s.texts_apart(a, c),
    ensures
        s.spec_compare_strings(a, b) == flip(s.spec_compare_strings(b, a)),
        s.spec_compare_strings(a, a) == Order::Equal,
        s.spec_compare_strings(a, b) != Order::Greater && s.spec_compare_strings(b, c) != Order::Greater
            ==> s.spec_compare_strings(a, c) != Order::Greater,
{
    law_compare_strings_antisymmetric(s, a, b);
    law_compare_strings_reflexive(s, a);
    if s.spec_compare_strings(a, b) != Order::Greater && s.spec_compare_strings(b, c) != Order::Greater {
        law_compare_strings_transitive(s, a, b, c);
    }
}

/// Texts whose letters have exactly one case each meet the weaker premises.
proof fn lemma_known_texts(s: Sorting, a: Seq<char>, b: Seq<char>)
    requires
        s.cases_known(a),
        s.cases_known(b),
    ensures
        s.cases_given(a),
        s.texts_apart(a, b),
{
    assert forall|j: int| 0 <= j < a.len() implies s.case_given(#[trigger] a[j]) by {
        assert(s.case_known(a[j]));
    }
    assert forall|i: int, j: int| 0 <= i < a.len() && 0 <= j < b.len() implies s.cases_apart(#[trigger] a[i], #[trigger] b[j]) by {
        assert(s.case_known(a[i]));
        assert(s.case_known(b[j]));
    }
}

/// How two comparisons of texts decide the third one, for texts of a total
/// preorder.
proof fn lemma_strings_compose(s: Sorting, x: Seq<char>, y: Seq<char>, z: Seq<char>)
    requires
        s.classes_distinct(),
        s.cases_known(x),
        s.cases_known(y),
        s.cases_known(z),
    ensures
        ({
            let o1 = s.spec_compare_strings(x, y);
            let o2 = s.spec_compare_strings(y, z);
            let o3 = s.spec_compare_strings(x, z);
            &&& o1 != Order::Greater && o2 != Order::Greater ==> o3 != Order::Greater
            &&& o1 == Order::Equal && o2 == Order::Equal ==> o3 == Order::Equal
            &&& o1 == Order::Less && o2 != Order::Greater ==> o3 == Order::Less
            &&& o1 != Order::Greater && o2 == Order::Less ==> o3 == Order::Less
        }),
{
    lemma_known_texts(s, x, y);
    lemma_known_texts(s, y, z);
    lemma_known_texts(s, z, x);
    lemma_known_texts(s, y, x);
    lemma_known_texts(s, z, y);
    lemma_known_texts(s, x, z);
    law_compare_strings_antisymmetric(s, x, y);
    law_compare_strings_antisymmetric(s, y, z);
    law_compare_strings_antisymmetric(s, x, z);
    let o1 = s.spec_compare_strings(x, y);
    let o2 = s.spec_compare_strings(y, z);
    let o3 = s.spec_compare_strings(x, z);
    if o1 != Order::Greater && o2 != Order::Greater {
        law_compare_strings_transitive(s, x, y, z);
        if o3 == Order::Equal {
            law_compare_strings_transitive(s, z, x, y);
            law_compare_strings_transitive(s, y, z, x);
        }
        if o1 == Order::Equal && o2 == Order::Equal {
            law_compare_strings_transitive(s, z, y, x);
        }
    }
}

/// A rank below `usize::MAX` is the place of the group's first occurrence.
proof fn lemma_group_rank_found(order: Seq<NodeGroup>, g: NodeGroup)
    requires
        group_rank(order, g) < usize::MAX,
    ensures
        group_rank(order, g) < order.len(),
        order[group_rank(order, g) as int] == g,
    decreases order.len(),
{
    if order.len() > 0 && order[0] != g {
        lemma_group_rank_found(order.skip(1), g);
    }
}

/// A text compares equal to itself.
pub proof fn law_compare_strings_reflexive(s: Sorting, a: Seq<char>)
    ensures
        s.spec_compare_strings(a, a) == Order::Equal,
{
    lemma_compare_from_same(s, a, 0);
}

/// An entry compares equal to itself.
pub proof fn law_sort_order_reflexive(s: Sorting, a: TreeItem)
    ensures
        s.sort_order(a, a) == Order::Equal,
{
    reveal(Sorting::sort_order);
    let ca = s.clean_label(label_of(a));
    let (base, ext) = s.spec_split_name_ext(ca, is_dir_of(a));
    lemma_compare_from_same(s, ca, 0);
    lemma_compare_from_same(s, base, 0);
    if ext is Some {
        lemma_compare_from_same(s, ext->0, 0);
    }
}

proof fn lemma_last_dot_range(t: Seq<char>)
    ensures
        -1 <= last_dot(t) < t.len(),
        last_dot(t) >= 0 ==> t[last_dot(t)] == '.',
        forall|j: int| last_dot(t) < j < t.len() ==> t[j] != '.',
    decreases t.len(),
{
    if t.len() > 0 {
        let d = t.drop_last();
        lemma_last_dot_range(d);
        if t.last() != '.' {
            assert forall|j: int| last_dot(t) < j < t.len() implies t[j] != '.' by {
                if j < d.len() {
                    assert(t[j] == d[j]);
                }
            }
            if last_dot(t) >= 0 {
                assert(t[last_dot(t)] == d[last_dot(t)]);
            }
        }
    }
}

/// A file name splits at its last dot, where that dot does not open the
/// name: the base is what stands before that dot, the extension what follows
/// it, and the extension holds no dot. A file name with no dot after its
/// first character, and any directory name, stays whole with no extension.
pub proof fn law_split_name_ext(s: Sorting, name: Seq<char>, is_dir: bool)
    ensures
        ({
            let (base, ext) = s.spec_split_name_ext(name, is_dir);
            match ext {
                Some(e) => {
                    &&& !is_dir
                    &&& base.len() > 0
                    &&& base + seq!['.'] + e == name
                    &&& !e.contains('.')
                },
                None => base == name && (is_dir || forall|j: int| 0 < j < name.len() ==> name[j] != '.'),
            }
        }),
{
    lemma_last_dot_range(name);
    let p = last_dot(name);
    if !is_dir && p > 0 {
        let base = name.take(p);
        let e = name.skip(p + 1);
        assert(base + seq!['.'] + e =~= name);
        assert forall|k: int| 0 <= k < e.len() implies e[k] != '.' by {
            assert(e[k] == name[k + p + 1]);
        }
    }
}

/// The base and the extension of a `cases_known` name are `cases_known`.
proof fn lemma_split_known(s: Sorting, name: Seq<char>, is_dir: bool)
    requires
        s.cases_known(name),
    ensures
        s.cases_known(s.spec_split_name_ext(name, is_dir).0),
        s.spec_split_name_ext(name, is_dir).1 is Some ==> s.cases_known(s.spec_split_name_ext(name, is_dir).1->0),
{
    lemma_last_dot_range(name);
    let p = last_dot(name);
    if !is_dir && p > 0 {
        let base = name.take(p);
        let ext = name.skip(p + 1);
        assert forall|j: int| 0 <= j < base.len() implies s.case_known(#[trigger] base[j]) by {
            assert(base[j] == name[j]);
        }
        assert forall|j: int| 0 <= j < ext.len() implies s.case_known(#[trigger] ext[j]) by {
            assert(ext[j] == name[j + p + 1]);
        }
    }
}

/// Comparing two entries the other way round gives the opposite order,
/// before any reversal.
proof fn lemma_compare_items_swap(s: Sorting, a: TreeItem, b: TreeItem)
    requires
        s.swaps_cleanly() || (s.item_known(a) && s.item_known(b)),
    ensures
        s.spec_compare_items(b, a) == flip(s.spec_compare_items(a, b)),
{
    let ca = s.clean_label(label_of(a));
    let cb = s.clean_label(label_of(b));
    let (base_a, ext_a) = s.spec_split_name_ext(ca, is_dir_of(a));
    let (base_b, ext_b) = s.spec_split_name_ext(cb, is_dir_of(b));
    if !s.swaps_cleanly() {
        lemma_split_known(s, ca, is_dir_of(a));
        lemma_split_known(s, cb, is_dir_of(b));
        lemma_known_texts(s, ca, cb);
        lemma_known_texts(s, base_a, base_b);
        if ext_a is Some && ext_b is Some {
            lemma_known_texts(s, ext_a->0, ext_b->0);
        }
    }
    lemma_compare_from_swap(s, ca, cb, 0);
    lemma_compare_from_swap(s, base_a, base_b, 0);
    if ext_a is Some && ext_b is Some {
        lemma_compare_from_swap(s, ext_a->0, ext_b->0, 0);
    }
}

/// Comparing two entries the other way round gives the opposite order (where
/// the letter case decides, for entries whose letters have one case each).
pub proof fn law_sort_order_antisymmetric(s: Sorting, a: TreeItem, b: TreeItem)
    requires
        s.swaps_cleanly() || (s.item_known(a) && s.item_known(b)),
    ensures
        s.sort_order(b, a) == flip(s.sort_order(a, b)),
{
    reveal(Sorting::sort_order);
    lemma_compare_items_swap(s, a, b);
}

proof fn lemma_compare_items_trans(s: Sorting, a: TreeItem, b: TreeItem, c: TreeItem)
    requires
        s.classes_distinct(),
        s.groups_listed(),
        s.item_known(a),
        s.item_known(b),
        s.item_known(c),
        s.spec_compare_items(a, b) != Order::Greater,
        s.spec_compare_items(b, c) != Order::Greater,
    ensures
        s.spec_compare_items(a, c) != Order::Greater,
{
    let ca = s.clean_label(label_of(a));
    let cb = s.clean_label(label_of(b));
    let cc = s.clean_label(label_of(c));
    lemma_strings_compose(s, ca, cb, cc);
    let (base_a, ext_a) = s.spec_split_name_ext(ca, is_dir_of(a));
    let (base_b, ext_b) = s.spec_split_name_ext(cb, is_dir_of(b));
    let (base_c, ext_c) = s.spec_split_name_ext(cc, is_dir_of(c));
    lemma_split_known(s, ca, is_dir_of(a));
    lemma_split_known(s, cb, is_dir_of(b));
    lemma_split_known(s, cc, is_dir_of(c));
    lemma_strings_compose(s, base_a, base_b, base_c);
    if ext_a is Some && ext_b is Some && ext_c is Some {
        lemma_strings_compose(s, ext_a->0, ext_b->0, ext_c->0);
    }
    if s.group_strategy is Custom {
        let order = s.group_strategy->0@;
        lemma_group_rank_found(order, node_group_of(a));
        lemma_group_rank_found(order, node_group_of(b));
        lemma_group_rank_found(order, node_group_of(c));
    }
}

/// Where the class order lists each class once, a custom group order gives
/// each group a place, and, if the letter case decides, the letters of the
/// names have one case each, the order of entries is a total preorder: an
/// entry not after a second one that is not after a third is not after the
/// third; together with `law_sort_order_antisymmetric` and
/// `law_sort_order_reflexive`, the order that a stable sort needs.
pub proof fn law_sort_order_transitive(s: Sorting, a: TreeItem, b: TreeItem, c: TreeItem)
    requires
        s.classes_distinct(),
        s.groups_listed(),
        s.item_known(a),
        s.item_known(b),
        s.item_known(c),
        s.sort_order(a, b) != Order::Greater,
        s.sort_order(b, c) != Order::Greater,
    ensures
        s.sort_order(a, c) != Order::Greater,
{
    reveal(Sorting::sort_order);
    if s.reverse {
        lemma_compare_items_swap(s, a, b);
        lemma_compare_items_swap(s, b, c);
        lemma_compare_items_swap(s, a, c);
        lemma_compare_items_trans(s, c, b, a);
    } else {
        lemma_compare_items_trans(s, a, b, c);
    }
}

proof fn lemma_insert_sorted_multiset(s: Sorting, sorted: Seq<TreeItem>, x: TreeItem)
    ensures
        s.insert_sorted(sorted, x).to_multiset() == sorted.to_multiset().insert(x),
    decreases sorted.len(),
{
    broadcast use vstd::seq_lib::group_to_multiset_ensures;
    if sorted.len() > 0 && s.sort_order(sorted.last(), x) == Order::Greater {
        lemma_insert_sorted_multiset(s, sorted.drop_last(), x);
        assert(sorted.drop_last().push(sorted.last()) =~= sorted);
    }
}

/// Sorting one level reorders its entries, adding or dropping none.
pub proof fn law_sort_level_permutation(s: Sorting, items: Seq<TreeItem>)
    ensures
        s.sort_level(items).to_multiset() == items.to_multiset(),
    decreases items.len(),
{
    broadcast use vstd::seq_lib::group_to_multiset_ensures;
    if items.len() > 0 {
        law_sort_level_permutation(s, items.drop_last());
        lemma_insert_sorted_multiset(s, s.sort_level(items.drop_last()), items.last());
        assert(items.drop_last().push(items.last()) =~= items);
    }
}

/// Whether no entry of `r` comes after the next one.
pub open spec fn in_order(s: Sorting, r: Seq<TreeItem>) -> bool {
    forall|i: int| 0 <= i < r.len() - 1 ==> #[trigger] s.sort_order(r[i], r[i + 1]) != Order::Greater
}

proof fn lemma_insert_sorted_in_order(s: Sorting, sorted: Seq<TreeItem>, x: TreeItem)
    requires
        s.swaps_cleanly(),
        in_order(s, sorted),
    ensures
        in_order(s, s.insert_sorted(sorted, x)),
        s.insert_sorted(sorted, x).len() == sorted.len() + 1,
        s.insert_sorted(sorted, x).last() == x || (sorted.len() > 0 && s.insert_sorted(sorted, x).last() == sorted.last()),
    decreases sorted.len(),
{
    let r = s.insert_sorted(sorted, x);
    if sorted.len() == 0 {
    } else if s.sort_order(sorted.last(), x) == Order::Greater {
        let d = sorted.drop_last();
        assert forall|i: int| 0 <= i < d.len() - 1 implies #[trigger] s.sort_order(d[i], d[i + 1]) != Order::Greater by {
            assert(d[i] == sorted[i] && d[i + 1] == sorted[i + 1]);
        }
        lemma_insert_sorted_in_order(s, d, x);
        let m = s.insert_sorted(d, x);
        law_sort_order_antisymmetric(s, sorted.last(), x);
        assert(r == m.push(sorted.last()));
        assert forall|i: int| 0 <= i < r.len() - 1 implies #[trigger] s.sort_order(r[i], r[i + 1]) != Order::Greater by {
            if i < m.len() - 1 {
                assert(r[i] == m[i] && r[i + 1] == m[i + 1]);
            } else {
                assert(r[i] == m.last() && r[i + 1] == sorted.last());
                if m.last() != x {
                    let k = sorted.len() - 2;
                    assert(d.last() == sorted[k]);
                    assert(sorted.last() == sorted[k + 1]);
                    assert(s.sort_order(sorted[k], sorted[k + 1]) != Order::Greater);
                }
            }
        }
    } else {
        assert forall|i: int| 0 <= i < r.len() - 1 implies #[trigger] s.sort_order(r[i], r[i + 1]) != Order::Greater by {
            if i < sorted.len() - 1 {
                assert(r[i] == sorted[i] && r[i + 1] == sorted[i + 1]);
            }
        }
    }
}

/// After sorting one level, no entry comes after the next one.
pub proof fn law_sort_level_in_order(s: Sorting, items: Seq<TreeItem>)
    requires
        s.swaps_cleanly(),
    ensures
        in_order(s, s.sort_level(items)),
        s.sort_level(items).len() == items.len(),
    decreases items.len(),
{
    if items.len() > 0 {
        law_sort_level_in_order(s, items.drop_last());
        lemma_insert_sorted_in_order(s, s.sort_level(items.drop_last()), items.last());
    }
}

proof fn lemma_children_sorted_len(s: Sorting, old: Seq<TreeItem>, new: Seq<TreeItem>)
    requires
        s.children_sorted(old, new),
    ensures
        old.len() == new.len(),
{
}

/// What `sort_items` leaves: as many entries as before, and with sorting on,
/// no entry after the next one.
pub proof fn law_sort_items_in_order(s: Sorting, old: Seq<TreeItem>, new: Seq<TreeItem>)
    requires
        s.swaps_cleanly(),
        s.sorted_items(old, new),
    ensures
        new.len() == old.len(),
        s.enabled ==> in_order(s, new),
{
    if s.enabled && old.len() > 0 {
        let mid = choose|mid: Seq<TreeItem>| s.children_sorted(old, mid) && new == #[trigger] s.sort_level(mid);
        lemma_children_sorted_len(s, old, mid);
        law_sort_level_in_order(s, mid);
    }
}

proof fn lemma_sort_level_of_ordered(s: Sorting, items: Seq<TreeItem>)
    requires
        in_order(s, items),
    ensures
        s.sort_level(items) == items,
    decreases items.len(),
{
    if items.len() > 0 {
        let d = items.drop_last();
        assert forall|i: int| 0 <= i < d.len() - 1 implies #[trigger] s.sort_order(d[i], d[i + 1]) != Order::Greater by {
            assert(d[i] == items[i] && d[i + 1] == items[i + 1]);
        }
        lemma_sort_level_of_ordered(s, d);
        if d.len() > 0 {
            let k = items.len() - 2;
            assert(d.last() == items[k] && items.last() == items[k + 1]);
            assert(s.sort_order(items[k], items[k + 1]) != Order::Greater);
        }
        assert(d.push(items.last()) =~= items);
    }
}

/// Sorting a level twice gives what sorting it once gives.
pub proof fn law_sort_level_idempotent(s: Sorting, items: Seq<TreeItem>)
    requires
        s.swaps_cleanly(),
    ensures
        s.sort_level(s.sort_level(items)) == s.sort_level(items),
{
    law_sort_level_in_order(s, items);
    lemma_sort_level_of_ordered(s, s.sort_level(items));
}

impl Sorting {
    /// Whether an entry compares equal to `x`.
    pub open spec fn ties_with(self, x: TreeItem) -> spec_fn(TreeItem) -> bool {
        |e: TreeItem| self.sort_order(e, x) == Order::Equal
    }

    /// The place where `insert_sorted` puts `x` into `sorted`.
    pub open spec fn insert_place(self, sorted: Seq<TreeItem>, x: TreeItem) -> nat
        decreases sorted.len(),
    {
        if sorted.len() == 0 {
            0
        } else if self.sort_order(sorted.last(), x) == Order::Greater {
            self.insert_place(sorted.drop_last(), x)
        } else {
            sorted.len()
        }
    }
}

/// The insertion keeps the entries of `sorted` in their order and puts `x`
/// after the last one that does not come after it.
proof fn lemma_insert_sorted_shape(s: Sorting, sorted: Seq<TreeItem>, x: TreeItem)
    ensures
        s.insert_place(sorted, x) <= sorted.len(),
        s.insert_sorted(sorted, x) == sorted.take(s.insert_place(sorted, x) as int) + seq![x]
            + sorted.skip(s.insert_place(sorted, x) as int),
        forall|j: int| s.insert_place(sorted, x) <= j < sorted.len()
            ==> s.sort_order(#[trigger] sorted[j], x) == Order::Greater,
    decreases sorted.len(),
{
    let k = s.insert_place(sorted, x) as int;
    if sorted.len() == 0 {
        assert(sorted.take(0) + seq![x] + sorted.skip(0) =~= seq![x]);
    } else if s.sort_order(sorted.last(), x) == Order::Greater {
        let d = sorted.drop_last();
        lemma_insert_sorted_shape(s, d, x);
        assert(d.take(k) =~= sorted.take(k));
        assert(d.skip(k).push(sorted.last()) =~= sorted.skip(k));
        assert((d.take(k) + seq![x] + d.skip(k)).push(sorted.last()) =~= sorted.take(k) + seq![x] + sorted.skip(k));
        assert forall|j: int| k <= j < sorted.len() implies s.sort_order(#[trigger] sorted[j], x) == Order::Greater by {
            if j < d.len() {
                assert(sorted[j] == d[j]);
            }
        }
    } else {
        assert(sorted.take(k) =~= sorted);
        assert(sorted.take(k) + seq![x] + sorted.skip(k) =~= sorted.push(x));
    }
}

/// Sorting one level is stable: where the order of entries is a total
/// preorder (see `law_sort_order_transitive`), the entries that compare
/// equal to any entry `x` come out in the order in which they went in.
pub proof fn law_sort_level_stable(s: Sorting, items: Seq<TreeItem>, x: TreeItem)
    requires
        s.classes_distinct(),
        s.groups_listed(),
        s.item_known(x),
        forall|i: int| 0 <= i < items.len() ==> s.item_known(#[trigger] items[i]),
    ensures
        s.sort_level(items).filter(s.ties_with(x)) == items.filter(s.ties_with(x)),
    decreases items.len(),
{
    broadcast use vstd::seq_lib::group_to_multiset_ensures;
    if items.len() > 0 {
        let d = items.drop_last();
        let y = items.last();
        let p = s.ties_with(x);
        assert forall|i: int| 0 <= i < d.len() implies s.item_known(#[trigger] d[i]) by {
            assert(d[i] == items[i]);
        }
        law_sort_level_stable(s, d, x);
        let r = s.sort_level(d);
        law_sort_level_permutation(s, d);
        lemma_insert_sorted_shape(s, r, y);
        let k = s.insert_place(r, y) as int;
        let front = r.take(k);
        let back = r.skip(k);
        assert(front + back =~= r);
        Seq::filter_distributes_over_add(front + seq![y], back, p);
        Seq::filter_distributes_over_add(front, seq![y], p);
        Seq::filter_distributes_over_add(front, back, p);
        reveal_with_fuel(Seq::filter, 2);
        assert(items.filter(p) == (if p(y) { d.filter(p).push(y) } else { d.filter(p) }));
        if p(y) {
            assert forall|j: int| 0 <= j < back.len() implies !p(#[trigger] back[j]) by {
                let e = back[j];
                assert(e == r[k + j]);
                assert(s.sort_order(e, y) == Order::Greater);
                assert(r.contains(e));
                assert(r.to_multiset().count(e) > 0);
                assert(d.contains(e));
                let i = choose|i: int| 0 <= i < d.len() && d[i] == e;
                assert(s.item_known(d[i]));
                if p(e) {
                    law_sort_order_antisymmetric(s, y, x);
                    law_sort_order_transitive(s, e, x, y);
                }
            }
            if back.filter(p).len() > 0 {
                back.lemma_filter_pred(p, 0);
                back.lemma_filter_contains_rev(p, back.filter(p)[0]);
            }
            assert(back.filter(p) =~= Seq::<TreeItem>::empty());
            assert(seq![y].filter(p) =~= seq![y]);
            assert(r.filter(p) == front.filter(p));
        } else {
            assert(seq![y].filter(p) =~= Seq::<TreeItem>::empty());
        }
    }
}

/// With a custom group order and no reversal, an ordered level holds its
/// entries group by group: no entry of a later group before one of an
/// earlier group.
pub proof fn law_groups_in_order(s: Sorting, r: Seq<TreeItem>)
    requires
        s.group_strategy is Custom,
        !s.reverse,
        in_order(s, r),
    ensures
        forall|i: int, j: int| 0 <= i <= j < r.len() ==>
            group_rank(s.group_strategy->0@, node_group_of(#[trigger] r[i]))
                <= group_rank(s.group_strategy->0@, node_group_of(#[trigger] r[j])),
    decreases r.len(),
{
    if r.len() > 0 {
        let d = r.drop_last();
        assert forall|i: int| 0 <= i < d.len() - 1 implies #[trigger] s.sort_order(d[i], d[i + 1]) != Order::Greater by {
            assert(d[i] == r[i] && d[i + 1] == r[i + 1]);
        }
        law_groups_in_order(s, d);
        let order = s.group_strategy->0@;
        assert forall|i: int, j: int| 0 <= i <= j < r.len() implies
            group_rank(order, node_group_of(#[trigger] r[i])) <= group_rank(order, node_group_of(#[trigger] r[j])) by {
            if j < r.len() - 1 {
                assert(r[i] == d[i] && r[j] == d[j]);
            } else if i < j {
                let k = r.len() - 2;
                assert(s.sort_order(r[k], r[k + 1]) != Order::Greater);
                reveal(Sorting::sort_order);
                assert(group_rank(order, node_group_of(r[k])) <= group_rank(order, node_group_of(r[k + 1])));
                if i < k {
                    assert(r[i] == d[i] && r[k] == d[k]);
                }
            }
        }
    }
}

} // verus!
