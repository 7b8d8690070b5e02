//! Optional numbering of the rendered entries.
use vstd::prelude::*;
use crate::text::{decimal, decimal_chars, digit_count, digit_len, lemma_decimal_nonempty, pad_left, push_pad_left, push_repeat, spaces, string_of};

verus! {

/// Settings of the numbering column.
#[derive(Debug, Clone, Copy, PartialEq, Eq, Structural)]
pub struct Numeration {
    pub enabled: bool,
    pub numerate_dirs: bool,
    pub numerate_binaries: bool,
    pub start_from: usize,
}

impl Default for Numeration {
    fn default() -> (r: Self)
        ensures
            r == (Numeration { enabled: true, numerate_dirs: true, numerate_binaries: true, start_from: 1 }),
    {
        Numeration { enabled: true, numerate_dirs: true, numerate_binaries: true, start_from: 1 }
    }
}

impl Numeration {
    /// Whether an entry of the given kind gets a number.
    pub open spec fn spec_should_numerate(self, is_dir: bool, is_binary: bool) -> bool {
        &&& self.enabled
        &&& !(is_dir && !self.numerate_dirs)
        &&& !(!is_dir && is_binary && !self.numerate_binaries)
    }

    /// Whether the column is shown at all for the largest number `max_num`.
    pub open spec fn shows_column(self, max_num: nat) -> bool {
        self.enabled && max_num != 0
    }

    /// Width of the numbering column.
    pub open spec fn spec_column_width(self, max_num: nat) -> nat {
        if self.shows_column(max_num) { digit_count(max_num) } else { 0 }
    }

    /// Text of the numbering cell holding `current_num`.
    pub open spec fn spec_format_cell(self, current_num: nat, max_num: nat) -> Seq<char> {
        if self.shows_column(max_num) {
            pad_left(decimal(current_num), digit_count(max_num), ' ')
        } else {
            Seq::empty()
        }
    }

    /// Text of an empty numbering cell.
    pub open spec fn spec_empty_cell(self, max_num: nat) -> Seq<char> {
        if self.shows_column(max_num) { spaces(digit_count(max_num)) } else { Seq::empty() }
    }

    pub fn new() -> (r: Self)
        ensures
            r == (Numeration { enabled: true, numerate_dirs: true, numerate_binaries: true, start_from: 1 }),
    {
        Self::default()
    }

    pub fn enabled(self, enabled: bool) -> (r: Self)
        ensures
            r == (Numeration { enabled, ..self }),
    {
        let mut s = self;
        s.enabled = enabled;
        s
    }

    pub fn numerate_dirs(self, numerate: bool) -> (r: Self)
        ensures
            r == (Numeration { numerate_dirs: numerate, ..self }),
    {
        let mut s = self;
        s.numerate_dirs = numerate;
        s
    }

    pub fn numerate_binaries(self, numerate: bool) -> (r: Self)
        ensures
            r == (Numeration { numerate_binaries: numerate, ..self }),
    {
        let mut s = self;
        s.numerate_binaries = numerate;
        s
    }

    pub fn start_from(self, start: usize) -> (r: Self)
        ensures
            r == (Numeration { start_from: start, ..self }),
    {
        let mut s = self;
        s.start_from = start;
        s
    }

    /// Whether an entry gets a number: never when numbering is off, not for
    /// directories unless they are numbered, not for binary files unless they
    /// are numbered.
    pub fn should_numerate(&self, is_dir: bool, is_binary: bool) -> (r: bool)
        ensures
            r == self.spec_should_numerate(is_dir, is_binary),
    {
        if self.enabled == false {
            return false;
        }
        if is_dir && self.numerate_dirs == false {
            return false;
        }
        if is_dir == false && is_binary && self.numerate_binaries == false {
            return false;
        }
        true
    }

    /// Width of the numbering column: the number of digits of `max_num`, or 0
    /// when numbering is off or nothing is numbered.
    pub fn column_width(&self, max_num: usize) -> (r: usize)
        ensures
            r as nat == self.spec_column_width(max_num as nat),
    {
        if self.enabled == false || max_num == 0 {
            0
        } else {
            digit_len(max_num as u64)
        }
    }

    /// `current_num` right-aligned to the width of `max_num`.
    pub fn format_cell(&self, current_num: usize, max_num: usize) -> (r: String)
        ensures
            r@ == self.spec_format_cell(current_num as nat, max_num as nat),
    {
        let mut out: Vec<char> = Vec::new();
        self.push_cell(&mut out, current_num, max_num);
        string_of(&out)
    }

    /// Spaces as wide as the numbering column.
    pub fn empty_cell(&self, max_num: usize) -> (r: String)
        ensures
            r@ == self.spec_empty_cell(max_num as nat),
    {
        let mut out: Vec<char> = Vec::new();
        self.push_empty_cell(&mut out, max_num);
        string_of(&out)
    }

    /// Appends the cell of `current_num` to `out`.
    pub fn push_cell(&self, out: &mut Vec<char>, current_num: usize, max_num: usize)
        ensures
            final(out)@ == old(out)@ + self.spec_format_cell(current_num as nat, max_num as nat),
    {
        if self.enabled == false || max_num == 0 {
            assert(out@ =~= old(out)@ + Seq::<char>::empty());
            return;
        }
        let width = digit_len(max_num as u64);
        let digits = decimal_chars(current_num as u64);
        push_pad_left(out, &digits, width, ' ');
    }

    /// Appends an empty cell to `out`.
    pub fn push_empty_cell(&self, out: &mut Vec<char>, max_num: usize)
        ensures
            final(out)@ == old(out)@ + self.spec_empty_cell(max_num as nat),
    {
        if self.enabled == false || max_num == 0 {
            assert(out@ =~= old(out)@ + Seq::<char>::empty());
            return;
        }
        let width = digit_len(max_num as u64);
        push_repeat(out, ' ', width);
    }
}

/// A number no larger than `max` has no more digits than `max`.
pub proof fn lemma_digit_count_monotone(a: nat, b: nat)
    requires
        a <= b,
    ensures
        digit_count(a) <= digit_count(b),
    decreases b,
{
    if a >= 10 {
        lemma_digit_count_monotone(a / 10, b / 10);
    } else {
        lemma_decimal_nonempty(b);
    }
}

/// Every numbered cell, every empty cell and the column itself have one
/// width, so the numbers line up under one another.
pub proof fn law_cells_align(n: Numeration, current_num: nat, max_num: nat)
    requires
        current_num <= max_num,
    ensures
        n.spec_format_cell(current_num, max_num).len() == n.spec_column_width(max_num),
        n.spec_empty_cell(max_num).len() == n.spec_column_width(max_num),
{
    lemma_digit_count_monotone(current_num, max_num);
}

} // verus!
