//! Human-readable sizes in binary (KiB, MiB, ...) or decimal (KB, MB, ...) units.
use vstd::prelude::*;
use crate::text::{decimal, decimal_chars, pad_left, push_all, push_pad_left, string_of};
use vstd::arithmetic::power2::{lemma2_to64, lemma2_to64_rest, pow2};

verus! {

#[derive(Debug, Clone, Copy, PartialEq, Eq, Structural)]
pub enum UnitSystem {
    /// IEC units: B, KiB, MiB, GiB, TiB (steps of 1024).
    Binary,
    /// SI units: B, KB, MB, GB, TB (steps of 1000).
    Decimal,
}

#[derive(Debug, Clone, Copy, PartialEq, Eq, Structural)]
pub enum WeightPrecision {
    /// One digit after the decimal point (12.5 MiB).
    Tenths,
    /// Two digits after the decimal point (12.54 MiB).
    Hundredths,
}

#[derive(Debug, Clone, Copy, PartialEq, Eq, Structural)]
pub enum DirWeightDisplay {
    Hidden,
    MatchedOnly,
    RealOnly,
    /// Both sizes, as in "12.5 MiB / 140.2 MiB".
    Both,
}

#[derive(Debug, Clone, Copy, PartialEq, Eq, Structural)]
pub struct StatsWeight {
    pub enabled: bool,
    pub unit_system: UnitSystem,
    pub precision: WeightPrecision,
    pub dir_display: DirWeightDisplay,
    pub include_files: bool,
    pub include_binaries_in_matched: bool,
}

/// `b^k`.
pub open spec fn power(b: nat, k: nat) -> nat
    decreases k,
{
    if k == 0 { 1 } else { b * power(b, (k - 1) as nat) }
}

/// The step between two units.
pub open spec fn unit_base(u: UnitSystem) -> nat {
    match u {
        UnitSystem::Binary => 1024,
        UnitSystem::Decimal => 1000,
    }
}

/// Name of unit `i` (0 = bytes, 4 = tera).
pub open spec fn unit_name(u: UnitSystem, i: nat) -> Seq<char> {
    if i == 0 {
        seq!['B']
    } else {
        let letter = if i == 1 { 'K' } else if i == 2 { 'M' } else if i == 3 { 'G' } else { 'T' };
        match u {
            UnitSystem::Binary => seq![letter, 'i', 'B'],
            UnitSystem::Decimal => seq![letter, 'B'],
        }
    }
}

/// The largest unit index `k`, from `i` up to 4, whose unit fits into `bytes`.
pub open spec fn unit_index_from(bytes: nat, base: nat, i: nat) -> nat
    decreases 4 - i,
{
    if i < 4 && power(base, i + 1) <= bytes {
        unit_index_from(bytes, base, i + 1)
    } else {
        i
    }
}

/// The unit in which `bytes` is shown: the largest of the five whose size is
/// at most `bytes`.
pub open spec fn unit_index(bytes: nat, base: nat) -> nat {
    unit_index_from(bytes, base, 0)
}

/// `num / den` rounded to the nearest integer, ties to the even one.
pub open spec fn round_half_even(num: nat, den: nat) -> nat {
    let q = num / den;
    let r = num % den;
    if 2 * r > den || (2 * r == den && q % 2 == 1) { q + 1 } else { q }
}

/// Digits after the decimal point for a precision.
pub open spec fn precision_digits(p: WeightPrecision) -> nat {
    match p {
        WeightPrecision::Tenths => 1,
        WeightPrecision::Hundredths => 2,
    }
}

/// `n / 10^d` written with `d` decimals: the fixed-point text of `n` hundredths
/// or tenths.
pub open spec fn fixed_point(n: nat, d: nat) -> Seq<char> {
    decimal(n / power(10, d)) + seq!['.'] + pad_left(decimal(n % power(10, d)), d, '0')
}

/// Number of binary digits of `n` (none for 0).
pub open spec fn bit_len(n: nat) -> nat
    decreases n,
{
    if n == 0 { 0 } else { 1 + bit_len(n / 2) }
}

/// `b` as the nearest double (`f64`): itself when it has at most 53 binary
/// digits, else rounded to 53 significant binary digits, ties to even.
pub open spec fn double_of(b: nat) -> nat {
    if bit_len(b) <= 53 {
        b
    } else {
        let s = (bit_len(b) - 53) as nat;
        round_half_even(b, pow2(s)) * pow2(s)
    }
}

/// How far the quotient `n / d` (from 1 up to below 2^53) is scaled up to
/// fill the 53 binary digits of a double.
pub open spec fn quotient_shift(n: nat, d: nat) -> nat {
    (53 - bit_len(n / d)) as nat
}

/// The double nearest to `n / d`: this significand over 2^`quotient_shift`.
pub open spec fn quotient_significand(n: nat, d: nat) -> nat {
    round_half_even(n * pow2(quotient_shift(n, d)), d)
}

/// The double nearest to `n / d`, rounded to `digits` decimals (ties to
/// even), as a count of 10^-`digits`.
pub open spec fn quotient_decimal(n: nat, d: nat, digits: nat) -> nat {
    round_half_even(quotient_significand(n, d) * power(10, digits), pow2(quotient_shift(n, d)))
}

impl StatsWeight {
    /// The text of a size in bytes: "0 B" for zero, whole bytes below one
    /// kilo-unit, otherwise the size in the largest unit that fits, a space
    /// and the unit's name. The size in that unit is what double arithmetic
    /// gives: the size as the nearest double, divided by the unit's size and
    /// rounded to the nearest double, then written with one or two decimals
    /// (ties to even).
    pub open spec fn spec_format_bytes(self, bytes: nat) -> Seq<char> {
        let base = unit_base(self.unit_system);
        let i = unit_index(bytes, base);
        let d = precision_digits(self.precision);
        if i == 0 {
            decimal(bytes) + seq![' '] + unit_name(self.unit_system, 0)
        } else {
            fixed_point(quotient_decimal(double_of(bytes), power(base, i), d), d) + seq![' ']
                + unit_name(self.unit_system, i)
        }
    }

    /// The size text of a file, or nothing when sizes, file sizes or (for a
    /// binary file) binary sizes are not shown.
    pub open spec fn spec_format_file_size_raw(self, size: nat, is_binary: bool) -> Seq<char> {
        if !self.enabled || !self.include_files || (is_binary && !self.include_binaries_in_matched) {
            Seq::empty()
        } else {
            self.spec_format_bytes(size)
        }
    }

    /// The size text of a directory, as `dir_display` selects.
    pub open spec fn spec_format_dir_size_raw(self, matched_size: nat, real_size: nat) -> Seq<char> {
        if !self.enabled {
            Seq::empty()
        } else {
            match self.dir_display {
                DirWeightDisplay::Hidden => Seq::empty(),
                DirWeightDisplay::MatchedOnly => self.spec_format_bytes(matched_size),
                DirWeightDisplay::RealOnly => self.spec_format_bytes(real_size),
                DirWeightDisplay::Both => self.spec_format_bytes(matched_size) + seq![' ', '/', ' ']
                    + self.spec_format_bytes(real_size),
            }
        }
    }

    pub open spec fn spec_default() -> StatsWeight {
        StatsWeight {
            enabled: true,
            unit_system: UnitSystem::Binary,
            precision: WeightPrecision::Tenths,
            dir_display: DirWeightDisplay::MatchedOnly,
            include_files: true,
            include_binaries_in_matched: true,
        }
    }
}

impl Default for StatsWeight {
    fn default() -> (r: Self)
        ensures
            r == StatsWeight::spec_default(),
    {
        StatsWeight {
            enabled: true,
            unit_system: UnitSystem::Binary,
            precision: WeightPrecision::Tenths,
            dir_display: DirWeightDisplay::MatchedOnly,
            include_files: true,
            include_binaries_in_matched: true,
        }
    }
}

proof fn lemma_power_small(base: nat, i: nat)
    requires
        base <= 1024,
        i <= 4,
    ensures
        power(base, i) <= 1099511627776,
        base >= 1 ==> power(base, i) >= 1,
{
    let p0 = power(base, 0);
    let p1 = power(base, 1);
    let p2 = power(base, 2);
    let p3 = power(base, 3);
    let p4 = power(base, 4);
    assert(p0 == 1);
    assert(p1 == base * p0);
    assert(p2 == base * p1);
    assert(p3 == base * p2);
    assert(p4 == base * p3);
    assert(p1 <= 1024 && (base >= 1 ==> p1 >= 1));
    assert(p2 <= 1048576 && (base >= 1 ==> p2 >= 1)) by (nonlinear_arith)
        requires p2 == base * p1, p1 <= 1024, base <= 1024, base >= 1 ==> p1 >= 1;
    assert(p3 <= 1073741824 && (base >= 1 ==> p3 >= 1)) by (nonlinear_arith)
        requires p3 == base * p2, p2 <= 1048576, base <= 1024, base >= 1 ==> p2 >= 1;
    assert(p4 <= 1099511627776 && (base >= 1 ==> p4 >= 1)) by (nonlinear_arith)
        requires p4 == base * p3, p3 <= 1073741824, base <= 1024, base >= 1 ==> p3 >= 1;
}

proof fn lemma_bit_len_bounds(n: nat)
    ensures
        n == 0 ==> bit_len(n) == 0,
        n > 0 ==> bit_len(n) >= 1 && pow2((bit_len(n) - 1) as nat) <= n && n < pow2(bit_len(n)),
    decreases n,
{
    lemma2_to64();
    if n > 0 {
        lemma_bit_len_bounds(n / 2);
        vstd::arithmetic::power2::lemma_pow2_unfold(bit_len(n));
        if n / 2 > 0 {
            vstd::arithmetic::power2::lemma_pow2_unfold((bit_len(n) - 1) as nat);
        }
    }
}

proof fn lemma_bit_len_le(n: nat, k: nat)
    requires
        n < pow2(k),
    ensures
        bit_len(n) <= k,
{
    lemma_bit_len_bounds(n);
    if n > 0 && bit_len(n) > k {
        if (bit_len(n) - 1) as nat > k {
            vstd::arithmetic::power2::lemma_pow2_strictly_increases(k, (bit_len(n) - 1) as nat);
        }
    }
}

proof fn lemma_pow2_le(a: nat, b: nat)
    requires
        a <= b,
    ensures
        pow2(a) <= pow2(b),
{
    if a < b {
        vstd::arithmetic::power2::lemma_pow2_strictly_increases(a, b);
    }
}

/// Binary digits of `n` (see `bit_len`).
fn bit_len_u64(n: u64) -> (r: u32)
    ensures
        r as nat == bit_len(n as nat),
        r <= 64,
{
    proof {
        lemma2_to64();
    }
    let mut m = n;
    let mut c: u32 = 0;
    while m > 0
        invariant
            bit_len(n as nat) == c + bit_len(m as nat),
            c <= 64,
            m < pow2((64 - c) as nat),
        decreases m,
    {
        proof {
            lemma2_to64();
            if c == 64 {
                assert(pow2(0) == 1);
            }
            vstd::arithmetic::power2::lemma_pow2_unfold((64 - c) as nat);
        }
        m = m / 2;
        c = c + 1;
    }
    c
}

/// 2^`s`.
fn pow2_exec(s: u32) -> (r: u128)
    requires
        s <= 64,
    ensures
        r as nat == pow2(s as nat),
{
    proof {
        lemma2_to64();
    }
    let mut r: u128 = 1;
    let mut i: u32 = 0;
    while i < s
        invariant
            i <= s <= 64,
            r as nat == pow2(i as nat),
        decreases s - i,
    {
        proof {
            lemma2_to64();
            lemma_pow2_le(i as nat, 64);
            vstd::arithmetic::power2::lemma_pow2_unfold((i + 1) as nat);
        }
        r = r * 2;
        i = i + 1;
    }
    r
}

/// `num / den` rounded to the nearest integer, ties to even.
fn round_half_even_exec(num: u128, den: u128) -> (r: u128)
    requires
        0 < den,
        num <= 0x10000000000000000000000000,
    ensures
        r as nat == round_half_even(num as nat, den as nat),
{
    let q = num / den;
    let rem = num % den;
    if rem > den - rem || (rem == den - rem && q % 2 == 1) { q + 1 } else { q }
}

/// `b` as the nearest double (see `double_of`).
fn double_of_exec(b: u64) -> (x: u128)
    ensures
        x as nat == double_of(b as nat),
        x <= 0x1_0000_0000_0000_0000,
        b >= 0x20_0000_0000_0000 ==> x >= 0x20_0000_0000_0000,
        b < 0x20_0000_0000_0000 ==> x == b,
{
    proof {
        lemma2_to64();
        lemma2_to64_rest();
        lemma_bit_len_bounds(b as nat);
    }
    let bl = bit_len_u64(b);
    if bl <= 53 {
        proof {
            if b >= 0x20_0000_0000_0000 {
                lemma_pow2_le(bl as nat, 53);
            }
        }
        return b as u128;
    }
    let s = bl - 53;
    let p = pow2_exec(s);
    let ghost p53 = pow2(53);
    proof {
        vstd::arithmetic::power2::lemma_pow2_adds(53, s as nat);
        vstd::arithmetic::power2::lemma_pow2_adds(52, s as nat);
        lemma_pow2_le(s as nat, 11);
        if bl < 54 {
            assert(false);
        }
        lemma_pow2_le(1, s as nat);
        assert(bl - 1 == 52 + s);
        assert(b < p53 * p);
        assert(b >= pow2(52) * p);
        assert(pow2(52) == p53 / 2);
        assert((b as nat) / (p as nat) < p53) by (nonlinear_arith)
            requires b < p53 * p, p > 0;
        assert((b as nat) / (p as nat) >= p53 / 2) by (nonlinear_arith)
            requires b >= (p53 / 2) * p, p > 0;
    }
    let m = round_half_even_exec(b as u128, p);
    proof {
        assert(m <= (b as nat) / (p as nat) + 1);
        assert(m >= (b as nat) / (p as nat));
        assert(m <= p53);
        assert(m * p <= 0x1_0000_0000_0000_0000) by (nonlinear_arith)
            requires m <= p53, p <= 2048, p53 == 0x20_0000_0000_0000;
        assert(m * p >= 0x20_0000_0000_0000) by (nonlinear_arith)
            requires m >= p53 / 2, p >= 2, p53 == 0x20_0000_0000_0000;
    }
    m * p
}

/// The double nearest to `n / d`, rounded to `digits` decimals (see
/// `quotient_decimal`).
fn quotient_decimal_exec(n: u128, d: u128, digits: usize) -> (r: u128)
    requires
        1 <= digits <= 2,
        1 <= d <= 0x100_0000_0000,
        d <= n <= 0x1_0000_0000_0000_0000,
        n / d < 0x20_0000_0000_0000,
    ensures
        r as nat == quotient_decimal(n as nat, d as nat, digits as nat),
{
    proof {
        lemma2_to64();
        lemma2_to64_rest();
    }
    let q = n / d;
    let bl = bit_len_u64(q as u64);
    proof {
        lemma_bit_len_le(q as nat, 53);
        lemma_bit_len_bounds(q as nat);
    }
    let s = 53 - bl;
    let p = pow2_exec(s);
    let ghost pb = pow2(bl as nat);
    proof {
        vstd::arithmetic::power2::lemma_pow2_adds(bl as nat, s as nat);
        assert(q + 1 <= pb);
        assert(n < (q + 1) * d) by (nonlinear_arith)
            requires q == n / d, d > 0;
        assert(n * p < pb * p * d) by (nonlinear_arith)
            requires n < (q + 1) * d, q + 1 <= pb, p > 0;
        assert(n * p < 0x20_0000_0000_0000 * 0x100_0000_0000) by (nonlinear_arith)
            requires n * p < pb * p * d, pb * p == 0x20_0000_0000_0000, d <= 0x100_0000_0000;
        assert(((n * p) as nat) / (d as nat) < 0x20_0000_0000_0000) by (nonlinear_arith)
            requires n * p < 0x20_0000_0000_0000 * d, d > 0;
    }
    let big = n * p;
    let m = round_half_even_exec(big, d);
    let ten: u128 = if digits == 1 { 10 } else { 100 };
    proof {
        reveal_with_fuel(power, 3);
        assert(m <= 0x20_0000_0000_0000);
    }
    round_half_even_exec(m * ten, p)
}

/// The unit in which `bytes` is shown and its size in bytes.
fn find_unit(bytes: u64, base: u64) -> (r: (usize, u64))
    requires
        base == 1000 || base == 1024,
    ensures
        r.0 as nat == unit_index(bytes as nat, base as nat),
        r.0 <= 4,
        r.1 == power(base as nat, r.0 as nat),
        1 <= r.1 <= 1099511627776,
        r.0 > 0 ==> r.1 <= bytes,
        r.0 < 4 ==> bytes < r.1 * base,
        r.0 < 4 ==> r.1 * base <= 1099511627776,
{
    let mut i: usize = 0;
    let mut q: u64 = 1;
    proof { lemma_power_small(base as nat, 0); }
    while i < 4 && q * base <= bytes
        invariant
            base == 1000 || base == 1024,
            i <= 4,
            q == power(base as nat, i as nat),
            1 <= q <= 1099511627776,
            i > 0 ==> q <= bytes,
            unit_index(bytes as nat, base as nat) == unit_index_from(bytes as nat, base as nat, i as nat),
        decreases 4 - i,
    {
        proof {
            lemma_power_small(base as nat, (i + 1) as nat);
            assert(power(base as nat, (i + 1) as nat) == base * power(base as nat, i as nat));
        }
        q = q * base;
        i = i + 1;
    }
    proof {
        if i < 4 {
            lemma_power_small(base as nat, (i + 1) as nat);
            assert(power(base as nat, (i + 1) as nat) == base * power(base as nat, i as nat));
        }
    }
    (i, q)
}

/// Appends the name of unit `i`.
fn push_unit(out: &mut Vec<char>, u: UnitSystem, i: usize)
    requires
        i <= 4,
    ensures
        final(out)@ == old(out)@ + unit_name(u, i as nat),
{
    if i == 0 {
        out.push('B');
    } else {
        let letter = if i == 1 { 'K' } else if i == 2 { 'M' } else if i == 3 { 'G' } else { 'T' };
        out.push(letter);
        match u {
            UnitSystem::Binary => {
                out.push('i');
                out.push('B');
            },
            UnitSystem::Decimal => {
                out.push('B');
            },
        }
    }
    assert(out@ =~= old(out)@ + unit_name(u, i as nat));
}

/// Decimal digits of a wide number.
fn decimal_chars_wide(n: u128) -> (r: Vec<char>)
    ensures
        r@ == decimal(n as nat),
    decreases n,
{
    if n <= u64::MAX as u128 {
        decimal_chars(n as u64)
    } else {
        let mut v = decimal_chars_wide(n / 10);
        v.push(crate::text::digit((n % 10) as u64));
        v
    }
}

impl StatsWeight {
    pub fn new() -> (r: Self)
        ensures
            r == StatsWeight::spec_default(),
    {
        Self::default()
    }

    pub fn enabled(self, enabled: bool) -> (r: Self)
        ensures
            r == (StatsWeight { enabled, ..self }),
    {
        let mut s = self;
        s.enabled = enabled;
        s
    }

    pub fn unit_system(self, system: UnitSystem) -> (r: Self)
        ensures
            r == (StatsWeight { unit_system: system, ..self }),
    {
        let mut s = self;
        s.unit_system = system;
        s
    }

    pub fn precision(self, precision: WeightPrecision) -> (r: Self)
        ensures
            r == (StatsWeight { precision, ..self }),
    {
        let mut s = self;
        s.precision = precision;
        s
    }

    pub fn dir_display(self, display: DirWeightDisplay) -> (r: Self)
        ensures
            r == (StatsWeight { dir_display: display, ..self }),
    {
        let mut s = self;
        s.dir_display = display;
        s
    }

    pub fn include_files(self, value: bool) -> (r: Self)
        ensures
            r == (StatsWeight { include_files: value, ..self }),
    {
        let mut s = self;
        s.include_files = value;
        s
    }

    pub fn include_binaries_in_matched(self, value: bool) -> (r: Self)
        ensures
            r == (StatsWeight { include_binaries_in_matched: value, ..self }),
    {
        let mut s = self;
        s.include_binaries_in_matched = value;
        s
    }

    /// Appends the text of `bytes` to `out`.
    #[verifier::rlimit(20)]
    pub fn push_bytes(&self, out: &mut Vec<char>, bytes: u64)
        ensures
            final(out)@ == old(out)@ + self.spec_format_bytes(bytes as nat),
    {
        let base: u64 = match self.unit_system {
            UnitSystem::Binary => 1024,
            UnitSystem::Decimal => 1000,
        };
        let (i, q) = find_unit(bytes, base);
        let ghost idx = unit_index(bytes as nat, base as nat);
        assert(idx == i);
        if i == 0 {
            let digits = decimal_chars(bytes);
            push_all(out, &digits);
            out.push(' ');
            push_unit(out, self.unit_system, 0);
            assert(out@ =~= old(out)@ + self.spec_format_bytes(bytes as nat));
            return;
        }
        let (p, d): (u128, usize) = match self.precision {
            WeightPrecision::Tenths => (10, 1),
            WeightPrecision::Hundredths => (100, 2),
        };
        proof {
            reveal_with_fuel(power, 3);
        }
        assert(p == power(10, d as nat));
        let x = double_of_exec(bytes);
        proof {
            if i < 4 {
                assert(bytes < 0x20_0000_0000_0000);
                assert((x as nat) / (q as nat) < 0x20_0000_0000_0000) by (nonlinear_arith)
                    requires x < q * base, q >= 1, base <= 1024;
            } else {
                reveal_with_fuel(power, 5);
                assert(q >= 1000000000000);
                assert((x as nat) / (q as nat) < 0x20_0000_0000_0000) by (nonlinear_arith)
                    requires x <= 0x1_0000_0000_0000_0000, q >= 1000000000000;
            }
        }
        let n = quotient_decimal_exec(x, q as u128, d);
        let int_digits = decimal_chars_wide(n / p);
        let frac_digits = decimal_chars_wide(n % p);
        push_all(out, &int_digits);
        out.push('.');
        push_pad_left(out, &frac_digits, d, '0');
        out.push(' ');
        push_unit(out, self.unit_system, i);
        assert(out@ =~= old(out)@ + self.spec_format_bytes(bytes as nat));
    }

    /// Formats a size in bytes as readable text.
    pub fn format_bytes(&self, bytes: u64) -> (r: String)
        ensures
            r@ == self.spec_format_bytes(bytes as nat),
    {
        let mut out: Vec<char> = Vec::new();
        self.push_bytes(&mut out, bytes);
        assert(out@ =~= self.spec_format_bytes(bytes as nat));
        string_of(&out)
    }

    /// Appends the size text of a file.
    pub fn push_file_size_raw(&self, out: &mut Vec<char>, size: u64, is_binary: bool)
        ensures
            final(out)@ == old(out)@ + self.spec_format_file_size_raw(size as nat, is_binary),
    {
        if !self.enabled || !self.include_files {
            assert(out@ =~= old(out)@ + Seq::<char>::empty());
            return;
        }
        if is_binary && !self.include_binaries_in_matched {
            assert(out@ =~= old(out)@ + Seq::<char>::empty());
            return;
        }
        self.push_bytes(out, size);
    }

    /// Appends the size text of a directory.
    pub fn push_dir_size_raw(&self, out: &mut Vec<char>, matched_size: u64, real_size: u64)
        ensures
            final(out)@ == old(out)@ + self.spec_format_dir_size_raw(matched_size as nat, real_size as nat),
    {
        if !self.enabled {
            assert(out@ =~= old(out)@ + Seq::<char>::empty());
            return;
        }
        match self.dir_display {
            DirWeightDisplay::Hidden => {
                assert(out@ =~= old(out)@ + Seq::<char>::empty());
            },
            DirWeightDisplay::MatchedOnly => self.push_bytes(out, matched_size),
            DirWeightDisplay::RealOnly => self.push_bytes(out, real_size),
            DirWeightDisplay::Both => {
                self.push_bytes(out, matched_size);
                out.push(' ');
                out.push('/');
                out.push(' ');
                self.push_bytes(out, real_size);
                assert(out@ =~= old(out)@ + self.spec_format_dir_size_raw(matched_size as nat, real_size as nat));
            },
        }
    }

    /// Size text of a file: empty when sizes or file sizes are off, or when
    /// the file is binary and binary sizes are off.
    pub fn format_file_size_raw(&self, size: u64, is_binary: bool) -> (r: String)
        ensures
            r@ == self.spec_format_file_size_raw(size as nat, is_binary),
    {
        let mut out: Vec<char> = Vec::new();
        self.push_file_size_raw(&mut out, size, is_binary);
        assert(out@ =~= self.spec_format_file_size_raw(size as nat, is_binary));
        string_of(&out)
    }

    /// Size text of a directory: matched size, real size, both, or nothing.
    pub fn format_dir_size_raw(&self, matched_size: u64, real_size: u64) -> (r: String)
        ensures
            r@ == self.spec_format_dir_size_raw(matched_size as nat, real_size as nat),
    {
        let mut out: Vec<char> = Vec::new();
        self.push_dir_size_raw(&mut out, matched_size, real_size);
        assert(out@ =~= self.spec_format_dir_size_raw(matched_size as nat, real_size as nat));
        string_of(&out)
    }
}

} // verus!
