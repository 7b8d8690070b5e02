//! Character-sequence helpers shared by the renderers: padding, repetition,
//! decimal digits and fixed-width chunking, each with its mathematical model.
use vstd::prelude::*;

verus! {

/// `n` copies of `c`.
pub open spec fn repeat_char(c: char, n: nat) -> Seq<char> {
    Seq::new(n, |_i: int| c)
}

/// `n` spaces.
pub open spec fn spaces(n: nat) -> Seq<char> {
    repeat_char(' ', n)
}

/// `s` left-aligned in a field of `width` characters (`{:width$}`).
pub open spec fn pad_right(s: Seq<char>, width: nat) -> Seq<char> {
    if s.len() >= width {
        s
    } else {
        s + spaces((width - s.len()) as nat)
    }
}

/// `s` right-aligned in a field of `width` characters, filled with `fill`.
pub open spec fn pad_left(s: Seq<char>, width: nat, fill: char) -> Seq<char> {
    if s.len() >= width {
        s
    } else {
        repeat_char(fill, (width - s.len()) as nat) + s
    }
}

/// The ASCII digit for `d` (0 to 9).
pub open spec fn digit_char(d: nat) -> char {
    if d == 0 { '0' }
    else if d == 1 { '1' }
    else if d == 2 { '2' }
    else if d == 3 { '3' }
    else if d == 4 { '4' }
    else if d == 5 { '5' }
    else if d == 6 { '6' }
    else if d == 7 { '7' }
    else if d == 8 { '8' }
    else { '9' }
}

/// The decimal representation of `n`, without leading zeros.
pub open spec fn decimal(n: nat) -> Seq<char>
    decreases n,
{
    if n < 10 {
        seq![digit_char(n)]
    } else {
        decimal(n / 10).push(digit_char(n % 10))
    }
}

/// Number of decimal digits of `n`.
pub open spec fn digit_count(n: nat) -> nat {
    decimal(n).len()
}

/// Consecutive pieces of `s` of `limit` characters each (the last may be shorter).
pub open spec fn chunks(s: Seq<char>, limit: nat) -> Seq<Seq<char>>
    decreases s.len(),
{
    if s.len() == 0 || limit == 0 {
        Seq::empty()
    } else if s.len() <= limit {
        seq![s]
    } else {
        seq![s.take(limit as int)] + chunks(s.skip(limit as int), limit)
    }
}

/// Chunking as the renderers use it: an empty text gives one empty chunk.
pub open spec fn chunk_text(s: Seq<char>, limit: nat) -> Seq<Seq<char>> {
    if s.len() == 0 {
        seq![Seq::empty()]
    } else {
        chunks(s, limit)
    }
}

/// The concatenation of a sequence of texts.
pub open spec fn flatten(parts: Seq<Seq<char>>) -> Seq<char>
    decreases parts.len(),
{
    if parts.len() == 0 {
        Seq::empty()
    } else {
        parts[0] + flatten(parts.skip(1))
    }
}

/// The texts held by a vector of character vectors.
pub open spec fn views(v: Seq<Vec<char>>) -> Seq<Seq<char>> {
    Seq::new(v.len(), |i: int| v[i]@)
}

/// Element `i` of `parts`, or the empty text past its end.
pub open spec fn part_or_empty(parts: Seq<Seq<char>>, i: int) -> Seq<char> {
    if 0 <= i < parts.len() {
        parts[i]
    } else {
        Seq::empty()
    }
}

pub proof fn lemma_decimal_nonempty(n: nat)
    ensures
        decimal(n).len() >= 1,
    decreases n,
{
    if n >= 10 {
        lemma_decimal_nonempty(n / 10);
    }
}

/// Chunks put back together give the text; each chunk is non-empty and no
/// longer than the limit.
pub proof fn lemma_chunks(s: Seq<char>, limit: nat)
    requires
        limit > 0,
    ensures
        flatten(chunks(s, limit)) == s,
        forall|i: int| 0 <= i < chunks(s, limit).len() ==> 1 <= #[trigger] chunks(s, limit)[i].len() <= limit,
        s.len() > 0 ==> chunks(s, limit).len() >= 1,
    decreases s.len(),
{
    if s.len() == 0 {
    } else if s.len() <= limit {
        assert(seq![s].skip(1) =~= Seq::<Seq<char>>::empty());
        assert(flatten(Seq::<Seq<char>>::empty()) == Seq::<char>::empty());
        assert(s + Seq::<char>::empty() =~= s);
    } else {
        let rest = chunks(s.skip(limit as int), limit);
        lemma_chunks(s.skip(limit as int), limit);
        let all = seq![s.take(limit as int)] + rest;
        assert(all.skip(1) =~= rest);
        assert(s.take(limit as int) + s.skip(limit as int) =~= s);
        assert forall|i: int| 0 <= i < all.len() implies 1 <= #[trigger] all[i].len() <= limit by {
            if i > 0 {
                assert(all[i] == rest[i - 1]);
            }
        }
    }
}

/// The characters of a string slice, in order.
pub fn chars_of(s: &str) -> (r: Vec<char>)
    ensures
        r@ == s@,
{
    broadcast use vstd::string::axiom_spec_iter;
    let mut r: Vec<char> = Vec::new();
    for c in it: s.chars()
        invariant
            it.seq() == s@,
            r@ == it.seq().take(it.index() as int),
    {
        r.push(c);
    }
    r
}

/// Calls `String::push`, which appends `c` to the end of the string.
#[verifier::external_body]
fn push_char(s: &mut String, c: char)
    ensures
        final(s)@ == old(s)@.push(c),
{
    s.push(c);
}

/// A `String` holding the characters of `v` in order.
pub fn string_of(v: &Vec<char>) -> (r: String)
    ensures
        r@ == v@,
{
    let mut r = String::new();
    let mut i: usize = 0;
    while i < v.len()
        invariant
            i <= v@.len(),
            r@ == v@.take(i as int),
        decreases v.len() - i,
    {
        push_char(&mut r, v[i]);
        i = i + 1;
        assert(r@ =~= v@.take(i as int));
    }
    assert(v@.take(i as int) =~= v@);
    r
}

/// The digit character for `d`.
pub fn digit(d: u64) -> (c: char)
    requires
        d < 10,
    ensures
        c == digit_char(d as nat),
{
    if d == 0 { '0' }
    else if d == 1 { '1' }
    else if d == 2 { '2' }
    else if d == 3 { '3' }
    else if d == 4 { '4' }
    else if d == 5 { '5' }
    else if d == 6 { '6' }
    else if d == 7 { '7' }
    else if d == 8 { '8' }
    else { '9' }
}

/// Decimal digits of `n`.
pub fn decimal_chars(n: u64) -> (r: Vec<char>)
    ensures
        r@ == decimal(n as nat),
    decreases n,
{
    if n < 10 {
        let mut v: Vec<char> = Vec::new();
        v.push(digit(n));
        v
    } else {
        let mut v = decimal_chars(n / 10);
        v.push(digit(n % 10));
        v
    }
}

/// Number of decimal digits of `n` (what `n.to_string().len()` gives).
pub fn digit_len(n: u64) -> (r: usize)
    ensures
        r as nat == digit_count(n as nat),
        r >= 1,
    decreases n,
{
    proof { lemma_decimal_nonempty(n as nat); }
    if n < 10 {
        1
    } else {
        let k = digit_len(n / 10);
        proof { lemma_digit_count_u64(n as nat); }
        k + 1
    }
}

/// `10^k`.
pub open spec fn pow10(k: nat) -> nat
    decreases k,
{
    if k == 0 { 1 } else { 10 * pow10((k - 1) as nat) }
}

proof fn lemma_digit_count_le(n: nat, k: nat)
    requires
        n < pow10(k),
        k >= 1,
    ensures
        decimal(n).len() <= k,
    decreases n,
{
    if n >= 10 {
        if k == 1 {
            assert(pow10(1) == 10 * pow10(0));
        }
        assert(pow10(k) == 10 * pow10((k - 1) as nat));
        assert(n / 10 < pow10((k - 1) as nat));
        lemma_digit_count_le(n / 10, (k - 1) as nat);
    }
}

/// A `u64` has at most 20 decimal digits.
pub proof fn lemma_digit_count_u64(n: nat)
    requires
        n <= u64::MAX,
    ensures
        digit_count(n) <= 20,
{
    assert(pow10(20) == 100000000000000000000nat) by {
        reveal_with_fuel(pow10, 21);
    }
    lemma_digit_count_le(n, 20);
}

/// Appends all of `s` to `out`.
pub fn push_all(out: &mut Vec<char>, s: &Vec<char>)
    ensures
        final(out)@ == old(out)@ + s@,
{
    let mut i: usize = 0;
    while i < s.len()
        invariant
            i <= s.len(),
            out@ == old(out)@ + s@.take(i as int),
        decreases s.len() - i,
    {
        out.push(s[i]);
        i = i + 1;
        assert(s@.take(i as int) =~= s@.take(i - 1).push(s@[i - 1]));
    }
    assert(s@.take(i as int) =~= s@);
}

/// Appends `n` copies of `c` to `out`.
pub fn push_repeat(out: &mut Vec<char>, c: char, n: usize)
    ensures
        final(out)@ == old(out)@ + repeat_char(c, n as nat),
{
    let mut i: usize = 0;
    while i < n
        invariant
            i <= n,
            out@ == old(out)@ + repeat_char(c, i as nat),
        decreases n - i,
    {
        out.push(c);
        i = i + 1;
        assert(repeat_char(c, i as nat) =~= repeat_char(c, (i - 1) as nat).push(c));
    }
}

/// Appends `s` left-aligned in a field of `width` characters.
pub fn push_pad_right(out: &mut Vec<char>, s: &Vec<char>, width: usize)
    ensures
        final(out)@ == old(out)@ + pad_right(s@, width as nat),
{
    push_all(out, s);
    if s.len() < width {
        push_repeat(out, ' ', width - s.len());
    }
    assert(out@ =~= old(out)@ + pad_right(s@, width as nat));
}

/// Appends `s` right-aligned in a field of `width` characters, filled with `fill`.
pub fn push_pad_left(out: &mut Vec<char>, s: &Vec<char>, width: usize, fill: char)
    ensures
        final(out)@ == old(out)@ + pad_left(s@, width as nat, fill),
{
    if s.len() < width {
        push_repeat(out, fill, width - s.len());
    }
    push_all(out, s);
    assert(out@ =~= old(out)@ + pad_left(s@, width as nat, fill));
}

/// Splits `s` into chunks of at most `limit` characters; an empty text gives
/// one empty chunk.
pub fn chunk_chars(s: &Vec<char>, limit: usize) -> (r: Vec<Vec<char>>)
    requires
        limit > 0,
    ensures
        views(r@) == chunk_text(s@, limit as nat),
{
    let mut r: Vec<Vec<char>> = Vec::new();
    if s.len() == 0 {
        r.push(Vec::new());
        assert(views(r@) =~= chunk_text(s@, limit as nat));
        return r;
    }
    let mut start: usize = 0;
    assert(s@.skip(0) =~= s@);
    assert(views(r@) + chunks(s@, limit as nat) =~= chunks(s@, limit as nat));
    while start < s.len()
        invariant
            limit > 0,
            start <= s.len(),
            s.len() > 0,
            start < s.len() ==> views(r@) + chunks(s@.skip(start as int), limit as nat)
                == chunks(s@, limit as nat),
            start == s.len() ==> views(r@) == chunks(s@, limit as nat),
        decreases s.len() - start,
    {
        let rest_len = s.len() - start;
        let take = if rest_len <= limit { rest_len } else { limit };
        let mut piece: Vec<char> = Vec::new();
        let mut j: usize = 0;
        while j < take
            invariant
                start + take <= s.len(),
                j <= take,
                piece@ == s@.subrange(start as int, start + j),
            decreases take - j,
        {
            piece.push(s[start + j]);
            j = j + 1;
            assert(piece@ =~= s@.subrange(start as int, start + j));
        }
        let ghost before = views(r@);
        let ghost rest = s@.skip(start as int);
        r.push(piece);
        assert(views(r@) =~= before.push(s@.subrange(start as int, start + take)));
        if rest_len <= limit {
            assert(rest =~= s@.subrange(start as int, start + take));
            assert(chunks(rest, limit as nat) == seq![rest]);
            assert(before + seq![rest] =~= before.push(rest));
        } else {
            assert(rest.take(limit as int) =~= s@.subrange(start as int, start + take));
            assert(rest.skip(limit as int) =~= s@.skip(start + take));
            assert(before + (seq![rest.take(limit as int)] + chunks(rest.skip(limit as int), limit as nat))
                =~= before.push(rest.take(limit as int)) + chunks(rest.skip(limit as int), limit as nat));
        }
        start = start + take;
    }
    assert(views(r@) =~= chunk_text(s@, limit as nat));
    r
}

/// Whether `s` ends with `suffix`.
pub open spec fn ends_with(s: Seq<char>, suffix: Seq<char>) -> bool {
    suffix.len() <= s.len() && s.skip(s.len() - suffix.len()) == suffix
}

/// Whether the text `s` ends with `suffix`.
pub fn ends_with_chars(s: &Vec<char>, suffix: &Vec<char>) -> (r: bool)
    ensures
        r == ends_with(s@, suffix@),
{
    if suffix.len() > s.len() {
        return false;
    }
    let off = s.len() - suffix.len();
    let mut i: usize = 0;
    while i < suffix.len()
        invariant
            off + suffix.len() == s.len(),
            i <= suffix.len(),
            forall|j: int| 0 <= j < i ==> s@[off + j] == suffix@[j],
        decreases suffix.len() - i,
    {
        if s[off + i] != suffix[i] {
            assert(s@.skip(off as int)[i as int] != suffix@[i as int]);
            return false;
        }
        i = i + 1;
    }
    assert(s@.skip(off as int) =~= suffix@);
    true
}

/// The first `n` characters of `s`.
pub fn take_chars(s: &Vec<char>, n: usize) -> (r: Vec<char>)
    requires
        n <= s.len(),
    ensures
        r@ == s@.take(n as int),
{
    let mut r: Vec<char> = Vec::new();
    let mut i: usize = 0;
    while i < n
        invariant
            n <= s.len(),
            i <= n,
            r@ == s@.take(i as int),
        decreases n - i,
    {
        r.push(s[i]);
        i = i + 1;
        assert(r@ =~= s@.take(i as int));
    }
    r
}

/// The characters of `s` from index `n` on.
pub fn skip_chars(s: &Vec<char>, n: usize) -> (r: Vec<char>)
    requires
        n <= s.len(),
    ensures
        r@ == s@.skip(n as int),
{
    let mut r: Vec<char> = Vec::new();
    let mut i: usize = n;
    while i < s.len()
        invariant
            n <= i <= s.len(),
            r@ == s@.subrange(n as int, i as int),
        decreases s.len() - i,
    {
        r.push(s[i]);
        i = i + 1;
        assert(r@ =~= s@.subrange(n as int, i as int));
    }
    assert(r@ =~= s@.skip(n as int));
    r
}

} // verus!
