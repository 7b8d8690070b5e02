//! Formatting of UNIX timestamps (seconds, UTC) by token patterns, with civil,
//! ISO-week, quarter and season fields.
use vstd::prelude::*;
use crate::text::{chars_of, decimal, decimal_chars, pad_left, push_all, push_pad_left, string_of};

verus! {

/// The largest timestamp whose calendar fields can be computed: its year,
/// and the ISO year beside it, fit in an `i32` in every step. It falls on
/// 29 December of the year 2147483647; one day later the ISO year overflows.
pub const MAX_TIMESTAMP: u64 = 67767976233359999;

/// Formatter of UNIX timestamps.
pub struct Temporal;

/// The calendar fields of one instant.
pub struct DateTimeUtc {
    pub year: i32,
    pub month: u32,
    pub day: u32,
    pub hour: u32,
    pub minute: u32,
    pub second: u32,
    pub millisecond: u32,
    pub tierce: u32,
    pub quadra: u32,
    pub day_of_year: u32,
    pub weekday: u32,
    pub iso_week: u32,
    pub iso_year: i32,
}

/// Days since 1970-01-01 shifted to 0000-03-01, split into 400-year eras.
pub open spec fn era_of(days: int) -> int {
    (days + 719468) / 146097
}

/// Day of the era.
pub open spec fn doe_of(days: int) -> int {
    days + 719468 - era_of(days) * 146097
}

/// Year of the era (years starting on 1 March).
pub open spec fn yoe_of(doe: int) -> int {
    (doe - doe / 1460 + doe / 36524 - doe / 146096) / 365
}

/// Day of that March-based year.
pub open spec fn doy_of(doe: int) -> int {
    let yoe = yoe_of(doe);
    doe - (365 * yoe + yoe / 4 - yoe / 100)
}

/// Month counted from March (0) to February (11).
pub open spec fn mp_of(doy: int) -> int {
    (5 * doy + 2) / 153
}

/// Month of the civil date (1 to 12).
pub open spec fn civil_month(days: int) -> int {
    let mp = mp_of(doy_of(doe_of(days)));
    if mp < 10 { mp + 3 } else { mp - 9 }
}

/// Day of the month of the civil date.
pub open spec fn civil_day(days: int) -> int {
    let doy = doy_of(doe_of(days));
    doy - (153 * mp_of(doy) + 2) / 5 + 1
}

/// Year of the civil date.
pub open spec fn civil_year(days: int) -> int {
    let y = yoe_of(doe_of(days)) + era_of(days) * 400;
    if civil_month(days) <= 2 { y + 1 } else { y }
}

pub open spec fn is_leap(year: int) -> bool {
    (year % 4 == 0 && year % 100 != 0) || year % 400 == 0
}

/// Days of the year before the first of month `m` in a common year.
pub open spec fn days_before_month(m: int) -> int {
    if m == 1 { 0 }
    else if m == 2 { 31 }
    else if m == 3 { 59 }
    else if m == 4 { 90 }
    else if m == 5 { 120 }
    else if m == 6 { 151 }
    else if m == 7 { 181 }
    else if m == 8 { 212 }
    else if m == 9 { 243 }
    else if m == 10 { 273 }
    else if m == 11 { 304 }
    else { 334 }
}

/// Day of the calendar year (1 for 1 January).
pub open spec fn calendar_day_of_year(year: int, m: int, d: int) -> int {
    if m > 2 {
        days_before_month(m) + d + if is_leap(year) { 1int } else { 0int }
    } else {
        days_before_month(m) + d
    }
}

/// The calendar fields of a timestamp in seconds: the civil date of its day,
/// the time of day, the weekday (1 = Monday), the day of the year, and the
/// week number with its year as the formula `(day_of_year - weekday + 10) / 7`
/// gives it (week 52 of the year before below 1, week 1 of the next year above 52).
#[verifier::opaque]
pub open spec fn spec_date(secs: u64) -> DateTimeUtc {
    let days = (secs / 86400) as int;
    let rem = (secs % 86400) as int;
    let year = civil_year(days);
    let m = civil_month(days);
    let d = civil_day(days);
    let weekday = (days + 3) % 7 + 1;
    let doy = calendar_day_of_year(year, m, d);
    let iso_w = (doy - weekday + 10) / 7;
    DateTimeUtc {
        year: year as i32,
        month: m as u32,
        day: d as u32,
        hour: (rem / 3600) as u32,
        minute: ((rem % 3600) / 60) as u32,
        second: (rem % 60) as u32,
        millisecond: 0,
        tierce: 0,
        quadra: 0,
        day_of_year: doy as u32,
        weekday: weekday as u32,
        iso_week: if iso_w < 1 { 52 } else if iso_w > 52 { 1 } else { iso_w as u32 },
        iso_year: (if iso_w < 1 { year - 1 } else if iso_w > 52 { year + 1 } else { year }) as i32,
    }
}

/// The tokens of a pattern, longest first where they overlap.
#[derive(Debug, Clone, Copy, PartialEq, Eq, Structural)]
pub enum Token {
    IsoYear4,
    Year4,
    Hour12,
    AstroAbbr,
    MeteoAbbr,
    MonthAbbr,
    DayOfYear,
    WeekdayAbbr,
    Millis,
    IsoYear2,
    Year2,
    Month2,
    Day2,
    IsoWeek,
    Hour,
    Minute,
    Second,
    Tierce,
    Quadra,
    AstroNum,
    MeteoNum,
    Quarter,
    WeekdayNum,
    Literal,
}

pub open spec fn starts_with(p: Seq<char>, t: Seq<char>) -> bool {
    t.len() <= p.len() && p.take(t.len() as int) == t
}

/// The token at the start of `p`.
pub open spec fn spec_token(p: Seq<char>) -> Token {
    if starts_with(p, seq!['W', 'Y', 'Y', 'Y']) { Token::IsoYear4 }
    else if starts_with(p, seq!['Y', 'Y', 'Y', 'Y']) { Token::Year4 }
    else if starts_with(p, seq!['h', 'h', 'h', 'h']) { Token::Hour12 }
    else if starts_with(p, seq!['A', 'A', 'A']) { Token::AstroAbbr }
    else if starts_with(p, seq!['S', 'S', 'S']) { Token::MeteoAbbr }
    else if starts_with(p, seq!['M', 'M', 'M']) { Token::MonthAbbr }
    else if starts_with(p, seq!['Y', 'D', 'D']) { Token::DayOfYear }
    else if starts_with(p, seq!['D', 'D', 'D']) { Token::WeekdayAbbr }
    else if starts_with(p, seq!['z', 'z', 'z']) { Token::Millis }
    else if starts_with(p, seq!['W', 'Y']) { Token::IsoYear2 }
    else if starts_with(p, seq!['Y', 'Y']) { Token::Year2 }
    else if starts_with(p, seq!['M', 'M']) { Token::Month2 }
    else if starts_with(p, seq!['M', 'D']) { Token::Day2 }
    else if starts_with(p, seq!['W', 'W']) { Token::IsoWeek }
    else if starts_with(p, seq!['h', 'h']) { Token::Hour }
    else if starts_with(p, seq!['m', 'm']) { Token::Minute }
    else if starts_with(p, seq!['s', 's']) { Token::Second }
    else if starts_with(p, seq!['t', 't']) { Token::Tierce }
    else if starts_with(p, seq!['q', 'q']) { Token::Quadra }
    else if starts_with(p, seq!['A']) { Token::AstroNum }
    else if starts_with(p, seq!['S']) { Token::MeteoNum }
    else if starts_with(p, seq!['Q']) { Token::Quarter }
    else if starts_with(p, seq!['D']) { Token::WeekdayNum }
    else { Token::Literal }
}

/// Number of pattern characters a token takes.
pub open spec fn token_len(t: Token) -> nat {
    match t {
        Token::IsoYear4 | Token::Year4 | Token::Hour12 => 4,
        Token::AstroAbbr | Token::MeteoAbbr | Token::MonthAbbr | Token::DayOfYear
        | Token::WeekdayAbbr | Token::Millis => 3,
        Token::IsoYear2 | Token::Year2 | Token::Month2 | Token::Day2 | Token::IsoWeek
        | Token::Hour | Token::Minute | Token::Second | Token::Tierce | Token::Quadra => 2,
        _ => 1,
    }
}

/// `n` zero-padded to `w` digits.
pub open spec fn zero_pad(n: int, w: nat) -> Seq<char> {
    pad_left(decimal(n as nat), w, '0')
}

pub open spec fn month_abbr(m: u32) -> Seq<char> {
    if m == 2 { seq!['F', 'E', 'B'] }
    else if m == 3 { seq!['M', 'A', 'R'] }
    else if m == 4 { seq!['A', 'P', 'R'] }
    else if m == 5 { seq!['M', 'A', 'Y'] }
    else if m == 6 { seq!['J', 'U', 'N'] }
    else if m == 7 { seq!['J', 'U', 'L'] }
    else if m == 8 { seq!['A', 'U', 'G'] }
    else if m == 9 { seq!['S', 'E', 'P'] }
    else if m == 10 { seq!['O', 'C', 'T'] }
    else if m == 11 { seq!['N', 'O', 'V'] }
    else if m == 12 { seq!['D', 'E', 'C'] }
    else { seq!['J', 'A', 'N'] }
}

pub open spec fn weekday_abbr(w: u32) -> Seq<char> {
    if w == 2 { seq!['T', 'U', 'E'] }
    else if w == 3 { seq!['W', 'E', 'D'] }
    else if w == 4 { seq!['T', 'H', 'U'] }
    else if w == 5 { seq!['F', 'R', 'I'] }
    else if w == 6 { seq!['S', 'A', 'T'] }
    else if w == 7 { seq!['S', 'U', 'N'] }
    else { seq!['M', 'O', 'N'] }
}

/// Whether `t` is three capital ASCII letters.
pub open spec fn three_capitals(t: Seq<char>) -> bool {
    t.len() == 3 && forall|k: int| 0 <= k < 3 ==> 'A' <= #[trigger] t[k] && t[k] <= 'Z'
}

/// The month abbreviations are three capital letters each, a different one
/// for each month of the year; `FEB` names the month of under 30 days, and
/// `APR`, `JUN`, `SEP` and `NOV` the months of 30 days.
pub proof fn law_month_abbr(m1: u32, m2: u32, year: int)
    requires
        1 <= m1 <= 12,
        1 <= m2 <= 12,
    ensures
        three_capitals(month_abbr(m1)),
        m1 != m2 ==> month_abbr(m1) != month_abbr(m2),
        (days_in_month(year, m1 as int) < 30) <==> month_abbr(m1) == seq!['F', 'E', 'B'],
        (days_in_month(year, m1 as int) == 30) <==> (month_abbr(m1) == seq!['A', 'P', 'R']
            || month_abbr(m1) == seq!['J', 'U', 'N'] || month_abbr(m1) == seq!['S', 'E', 'P']
            || month_abbr(m1) == seq!['N', 'O', 'V']),
{
    let a = month_abbr(m1);
    let b = month_abbr(m2);
    assert(three_capitals(a));
    if m1 != m2 {
        assert(a[0] != b[0] || a[1] != b[1] || a[2] != b[2]);
    }
    let feb = seq!['F', 'E', 'B'];
    assert(a == feb ==> a[0] == 'F' && a[1] == 'E');
    let apr = seq!['A', 'P', 'R'];
    let jun = seq!['J', 'U', 'N'];
    let sep = seq!['S', 'E', 'P'];
    let nov = seq!['N', 'O', 'V'];
    assert(a == apr ==> a[0] == 'A' && a[1] == 'P');
    assert(a == jun ==> a[0] == 'J' && a[2] == 'N');
    assert(a == sep ==> a[0] == 'S');
    assert(a == nov ==> a[0] == 'N');
}

/// The weekday abbreviations are three capital letters each, a different
/// one for each day of the week, and the two days of the weekend (6 and 7)
/// begin with `S`.
pub proof fn law_weekday_abbr(w1: u32, w2: u32)
    requires
        1 <= w1 <= 7,
        1 <= w2 <= 7,
    ensures
        three_capitals(weekday_abbr(w1)),
        w1 != w2 ==> weekday_abbr(w1) != weekday_abbr(w2),
        (weekday_abbr(w1)[0] == 'S') <==> w1 >= 6,
{
    let a = weekday_abbr(w1);
    let b = weekday_abbr(w2);
    assert(three_capitals(a));
    if w1 != w2 {
        assert(a[0] != b[0] || a[1] != b[1] || a[2] != b[2]);
    }
}

/// The season abbreviations are three capital letters each, a different one
/// for each of the four seasons.
pub proof fn law_season_abbr(s1: u32, s2: u32)
    requires
        1 <= s1 <= 4,
        1 <= s2 <= 4,
    ensures
        three_capitals(season_abbr(s1)),
        s1 != s2 ==> season_abbr(s1) != season_abbr(s2),
{
    let a = season_abbr(s1);
    let b = season_abbr(s2);
    assert(three_capitals(a));
    if s1 != s2 {
        assert(a[0] != b[0] || a[1] != b[1] || a[2] != b[2]);
    }
}

/// Meteorological season: 1 autumn (Sep-Nov), 2 winter (Dec-Feb), 3 spring
/// (Mar-May), 4 summer (Jun-Aug).
pub open spec fn meteo_season(m: u32) -> u32 {
    if 9 <= m <= 11 { 1 }
    else if m == 12 || m == 1 || m == 2 { 2 }
    else if 3 <= m <= 5 { 3 }
    else if 6 <= m <= 8 { 4 }
    else { 1 }
}

/// Astronomical season: spring from 21 March, summer from 22 June, autumn
/// from 23 September, winter from 22 December (numbered as above).
pub open spec fn astro_season(m: u32, d: u32) -> u32 {
    if (m == 3 && 21 <= d <= 31) || m == 4 || m == 5 || (m == 6 && 1 <= d <= 21) { 3 }
    else if (m == 6 && 22 <= d <= 31) || m == 7 || m == 8 || (m == 9 && 1 <= d <= 22) { 4 }
    else if (m == 9 && 23 <= d <= 31) || m == 10 || m == 11 || (m == 12 && 1 <= d <= 21) { 1 }
    else { 2 }
}

pub open spec fn season_abbr(s: u32) -> Seq<char> {
    if s == 2 { seq!['W', 'I', 'N'] }
    else if s == 3 { seq!['S', 'P', 'R'] }
    else if s == 4 { seq!['S', 'U', 'M'] }
    else { seq!['A', 'U', 'T'] }
}

/// 12-hour clock: "am" or "pm" and the hour 01 to 12.
pub open spec fn hour12(h: u32) -> Seq<char> {
    let pm = h >= 12;
    let h12 = if h % 12 == 0 { 12 } else { h % 12 };
    (if pm { seq!['p', 'm'] } else { seq!['a', 'm'] }) + zero_pad(h12 as int, 2)
}

/// The text a token stands for.
pub open spec fn token_text(t: Token, dt: DateTimeUtc) -> Seq<char> {
    match t {
        Token::IsoYear4 => zero_pad(dt.iso_year as int, 4),
        Token::Year4 => zero_pad(dt.year as int, 4),
        Token::Hour12 => hour12(dt.hour),
        Token::AstroAbbr => season_abbr(astro_season(dt.month, dt.day)),
        Token::MeteoAbbr => season_abbr(meteo_season(dt.month)),
        Token::MonthAbbr => month_abbr(dt.month),
        Token::DayOfYear => zero_pad(dt.day_of_year as int, 3),
        Token::WeekdayAbbr => weekday_abbr(dt.weekday),
        Token::Millis => zero_pad(dt.millisecond as int, 3),
        Token::IsoYear2 => zero_pad((dt.iso_year % 100) as int, 2),
        Token::Year2 => zero_pad((dt.year % 100) as int, 2),
        Token::Month2 => zero_pad(dt.month as int, 2),
        Token::Day2 => zero_pad(dt.day as int, 2),
        Token::IsoWeek => zero_pad(dt.iso_week as int, 2),
        Token::Hour => zero_pad(dt.hour as int, 2),
        Token::Minute => zero_pad(dt.minute as int, 2),
        Token::Second => zero_pad(dt.second as int, 2),
        Token::Tierce => zero_pad(dt.tierce as int, 2),
        Token::Quadra => zero_pad(dt.quadra as int, 2),
        Token::AstroNum => decimal(astro_season(dt.month, dt.day) as nat),
        Token::MeteoNum => decimal(meteo_season(dt.month) as nat),
        Token::Quarter => decimal(((dt.month - 1) / 3 + 1) as nat),
        Token::WeekdayNum => decimal(dt.weekday as nat),
        Token::Literal => Seq::empty(),
    }
}

/// A pattern with each token replaced by its text, from left to right;
/// characters that start no token are copied.
pub open spec fn render_pattern(p: Seq<char>, dt: DateTimeUtc) -> Seq<char>
    decreases p.len(),
{
    if p.len() == 0 {
        Seq::empty()
    } else {
        let t = spec_token(p);
        if t == Token::Literal {
            seq![p[0]] + render_pattern(p.skip(1), dt)
        } else {
            token_text(t, dt) + render_pattern(p.skip(token_len(t) as int), dt)
        }
    }
}

/// Fields that the formatting relies on: non-negative years, a month from 1 to 12.
pub open spec fn date_ok(dt: DateTimeUtc) -> bool {
    dt.year >= 0 && dt.iso_year >= 0 && 1 <= dt.month <= 12
}

/// Ranges of the steps inside a 400-year era.
proof fn lemma_era_steps(doe: u32)
    requires
        doe < 146097,
    ensures
        ({
            let yoe = (doe - doe / 1460 + doe / 36524 - doe / 146096) / 365;
            let doy = doe - (365 * yoe + yoe / 4 - yoe / 100);
            &&& doe / 1460 <= doe
            &&& doe / 146096 <= doe - doe / 1460 + doe / 36524
            &&& yoe < 400
            &&& 365 * yoe + yoe / 4 - yoe / 100 <= doe
            &&& 0 <= doy <= 365
        }),
{
    assert({
        let yoe = (doe - doe / 1460 + doe / 36524 - doe / 146096) / 365;
        let doy = doe - (365 * yoe + yoe / 4 - yoe / 100);
        &&& doe / 1460 <= doe
        &&& doe / 146096 <= doe - doe / 1460 + doe / 36524
        &&& yoe < 400
        &&& 365 * yoe + yoe / 4 - yoe / 100 <= doe
        &&& 0 <= doy <= 365
    }) by (bit_vector)
        requires
            doe < 146097,
    ;
}

/// Ranges of the month and day steps.
proof fn lemma_month_steps(doy: u32)
    requires
        doy <= 365,
    ensures
        ({
            let mp = (5 * doy + 2) / 153;
            &&& mp <= 11
            &&& (153 * mp + 2) / 5 <= doy
            &&& 1 <= doy - (153 * mp + 2) / 5 + 1 <= 31
        }),
{
    assert({
        let mp = (5 * doy + 2) / 153;
        &&& mp <= 11
        &&& (153 * mp + 2) / 5 <= doy
        &&& 1 <= doy - (153 * mp + 2) / 5 + 1 <= 31
    }) by (bit_vector)
        requires
            doy <= 365,
    ;
}

/// Era and day of the era of the shifted day count `z`, from 1600 to the
/// last day whose year fits in an `i32`; the last era ends early.
proof fn lemma_era_bound(z: int)
    requires
        584388 <= z <= 784352296242,
    ensures
        4 <= z / 146097 <= 5368709,
        0 <= z - (z / 146097) * 146097 < 146097,
        z / 146097 == 5368709 ==> z - (z / 146097) * 146097 <= 17469,
{
    assert(4 <= z / 146097 <= 5368709) by (nonlinear_arith)
        requires 584388 <= z <= 784352296242;
    assert(0 <= z - (z / 146097) * 146097 < 146097) by (nonlinear_arith)
        requires 584388 <= z;
    assert(5368709 * 146097 == 784352278773);
}

/// Years and days of the last era that can be reached: its first 47 years
/// and 304 days.
proof fn lemma_last_era_steps(doe: u32)
    requires
        doe <= 17469,
    ensures
        ({
            let yoe = (doe - doe / 1460 + doe / 36524 - doe / 146096) / 365;
            let doy = doe - (365 * yoe + yoe / 4 - yoe / 100);
            &&& yoe <= 47
            &&& yoe == 47 ==> doy <= 303
        }),
{
    assert({
        let yoe = (doe - doe / 1460 + doe / 36524 - doe / 146096) / 365;
        let doy = doe - (365 * yoe + yoe / 4 - yoe / 100);
        &&& yoe <= 47
        &&& yoe == 47 ==> doy <= 303
    }) by (bit_vector)
        requires
            doe <= 17469,
    ;
}

fn days_before_month_exec(m: u32) -> (r: u32)
    requires
        1 <= m <= 12,
    ensures
        r == days_before_month(m as int),
        r <= 334,
{
    if m == 1 { 0 }
    else if m == 2 { 31 }
    else if m == 3 { 59 }
    else if m == 4 { 90 }
    else if m == 5 { 120 }
    else if m == 6 { 151 }
    else if m == 7 { 181 }
    else if m == 8 { 212 }
    else if m == 9 { 243 }
    else if m == 10 { 273 }
    else if m == 11 { 304 }
    else { 334 }
}

impl DateTimeUtc {
    /// The calendar fields of a timestamp in seconds (see `spec_date`).
    #[verifier::spinoff_prover]
    #[verifier::rlimit(40)]
    pub fn from_secs(secs: u64) -> (r: Self)
        requires
            secs <= MAX_TIMESTAMP,
        ensures
            r == spec_date(secs),
            date_ok(r),
    {
        let days = (secs / 86400) as i64;
        let rem_secs = (secs % 86400) as u32;

        let hour = rem_secs / 3600;
        let minute = (rem_secs % 3600) / 60;
        let second = rem_secs % 60;

        let weekday = (((days + 3) % 7) + 1) as u32;

        let z = days + 719468;
        let ghost dd = (secs / 86400) as int;
        proof {
            lemma_era_bound(z as int);
            lemma_date_ranges(dd);
        }
        let era = (if z >= 0 { z } else { z - 146096 }) / 146097;
        let doe = (z - era * 146097) as u32;
        proof {
            lemma_era_steps(doe);
            if era == 5368709 {
                lemma_last_era_steps(doe);
            }
        }
        let yoe = (doe - doe / 1460 + doe / 36524 - doe / 146096) / 365;
        let y = yoe as i32 + era as i32 * 400;
        let doy = doe - (365 * yoe + yoe / 4 - yoe / 100);
        proof {
            lemma_month_steps(doy);
            assert(era == era_of(dd));
            assert(doe == doe_of(dd));
            assert(doy == doy_of(doe as int));
        }
        let mp = (5 * doy + 2) / 153;
        let d = doy - (153 * mp + 2) / 5 + 1;
        let m = if mp < 10 { mp + 3 } else { mp - 9 };
        proof {
            assert(m == civil_month(dd));
            assert(d == civil_day(dd));
        }
        let year = if m <= 2 { y + 1 } else { y };

        let leap = (year % 4 == 0 && year % 100 != 0) || (year % 400 == 0);
        let doy_calendar = if m > 2 {
            days_before_month_exec(m) + d + if leap { 1 } else { 0 }
        } else {
            days_before_month_exec(m) + d
        };
        proof {
            assert(year == civil_year(dd));
            assert(leap == is_leap(year as int));
            assert(doy_calendar == calendar_day_of_year(year as int, m as int, d as int));
        }

        let wday = weekday;
        let doy_i = doy_calendar as i32;
        let iso_w = (doy_i - wday as i32 + 10) / 7;
        proof {
            assert(wday == (dd + 3) % 7 + 1);
            assert(year == 2147483647 ==> iso_w <= 52);
        }
        let (iso_week, iso_year) = if iso_w < 1 {
            (52, year - 1)
        } else if iso_w > 52 {
            (1, year + 1)
        } else {
            (iso_w as u32, year)
        };

        let r = DateTimeUtc {
            year,
            month: m,
            day: d,
            hour,
            minute,
            second,
            millisecond: 0,
            tierce: 0,
            quadra: 0,
            day_of_year: doy_calendar,
            weekday,
            iso_week,
            iso_year,
        };
        proof {
            reveal(spec_date);
        }
        r
    }
}

/// Whether the characters of `p` from index `i` start with `a`.
fn starts1(p: &Vec<char>, i: usize, a: char) -> (r: bool)
    requires
        i <= p@.len(),
    ensures
        r == starts_with(p@.skip(i as int), seq![a]),
{
    let r = i < p.len() && p[i] == a;
    proof {
        if i < p@.len() {
            assert(p@.skip(i as int).take(1) =~= seq![p@[i as int]]);
            assert(seq![p@[i as int]][0] == p@[i as int]);
            assert(seq![a][0] == a);
        }
    }
    r
}

/// Whether the characters of `p` from index `i` start with `a b`.
fn starts2(p: &Vec<char>, i: usize, a: char, b: char) -> (r: bool)
    requires
        i <= p@.len(),
    ensures
        r == starts_with(p@.skip(i as int), seq![a, b]),
{
    let r = p.len() - i >= 2 && p[i] == a && p[i + 1] == b;
    proof {
        if p@.len() - i >= 2 {
            assert(p@.skip(i as int).take(2) =~= seq![p@[i as int], p@[i + 1]]);
        }
    }
    r
}

/// Whether the characters of `p` from index `i` start with `a b c`.
fn starts3(p: &Vec<char>, i: usize, a: char, b: char, c: char) -> (r: bool)
    requires
        i <= p@.len(),
    ensures
        r == starts_with(p@.skip(i as int), seq![a, b, c]),
{
    let r = p.len() - i >= 3 && p[i] == a && p[i + 1] == b && p[i + 2] == c;
    proof {
        if p@.len() - i >= 3 {
            assert(p@.skip(i as int).take(3) =~= seq![p@[i as int], p@[i + 1], p@[i + 2]]);
        }
    }
    r
}

/// Whether the characters of `p` from index `i` start with `a b c d`.
fn starts4(p: &Vec<char>, i: usize, a: char, b: char, c: char, d: char) -> (r: bool)
    requires
        i <= p@.len(),
    ensures
        r == starts_with(p@.skip(i as int), seq![a, b, c, d]),
{
    let r = p.len() - i >= 4 && p[i] == a && p[i + 1] == b && p[i + 2] == c && p[i + 3] == d;
    proof {
        if p@.len() - i >= 4 {
            assert(p@.skip(i as int).take(4) =~= seq![p@[i as int], p@[i + 1], p@[i + 2], p@[i + 3]]);
        }
    }
    r
}

/// The token at index `i` of the pattern.
fn token_at(p: &Vec<char>, i: usize) -> (r: Token)
    requires
        i <= p@.len(),
    ensures
        r == spec_token(p@.skip(i as int)),
{
    if starts4(p, i, 'W', 'Y', 'Y', 'Y') { Token::IsoYear4 }
    else if starts4(p, i, 'Y', 'Y', 'Y', 'Y') { Token::Year4 }
    else if starts4(p, i, 'h', 'h', 'h', 'h') { Token::Hour12 }
    else if starts3(p, i, 'A', 'A', 'A') { Token::AstroAbbr }
    else if starts3(p, i, 'S', 'S', 'S') { Token::MeteoAbbr }
    else if starts3(p, i, 'M', 'M', 'M') { Token::MonthAbbr }
    else if starts3(p, i, 'Y', 'D', 'D') { Token::DayOfYear }
    else if starts3(p, i, 'D', 'D', 'D') { Token::WeekdayAbbr }
    else if starts3(p, i, 'z', 'z', 'z') { Token::Millis }
    else if starts2(p, i, 'W', 'Y') { Token::IsoYear2 }
    else if starts2(p, i, 'Y', 'Y') { Token::Year2 }
    else if starts2(p, i, 'M', 'M') { Token::Month2 }
    else if starts2(p, i, 'M', 'D') { Token::Day2 }
    else if starts2(p, i, 'W', 'W') { Token::IsoWeek }
    else if starts2(p, i, 'h', 'h') { Token::Hour }
    else if starts2(p, i, 'm', 'm') { Token::Minute }
    else if starts2(p, i, 's', 's') { Token::Second }
    else if starts2(p, i, 't', 't') { Token::Tierce }
    else if starts2(p, i, 'q', 'q') { Token::Quadra }
    else if starts1(p, i, 'A') { Token::AstroNum }
    else if starts1(p, i, 'S') { Token::MeteoNum }
    else if starts1(p, i, 'Q') { Token::Quarter }
    else if starts1(p, i, 'D') { Token::WeekdayNum }
    else { Token::Literal }
}

fn push_chars3(out: &mut Vec<char>, a: char, b: char, c: char)
    ensures
        final(out)@ == old(out)@ + seq![a, b, c],
{
    out.push(a);
    out.push(b);
    out.push(c);
    assert(out@ =~= old(out)@ + seq![a, b, c]);
}

fn push_zero_pad(out: &mut Vec<char>, n: u64, w: usize)
    ensures
        final(out)@ == old(out)@ + zero_pad(n as int, w as nat),
{
    let digits = decimal_chars(n);
    push_pad_left(out, &digits, w, '0');
}

fn push_decimal(out: &mut Vec<char>, n: u64)
    ensures
        final(out)@ == old(out)@ + decimal(n as nat),
{
    let digits = decimal_chars(n);
    push_all(out, &digits);
}

fn meteo_season_exec(m: u32) -> (r: u32)
    ensures
        r == meteo_season(m),
{
    if 9 <= m && m <= 11 { 1 }
    else if m == 12 || m == 1 || m == 2 { 2 }
    else if 3 <= m && m <= 5 { 3 }
    else if 6 <= m && m <= 8 { 4 }
    else { 1 }
}

fn astro_season_exec(m: u32, d: u32) -> (r: u32)
    ensures
        r == astro_season(m, d),
{
    if (m == 3 && 21 <= d && d <= 31) || m == 4 || m == 5 || (m == 6 && 1 <= d && d <= 21) { 3 }
    else if (m == 6 && 22 <= d && d <= 31) || m == 7 || m == 8 || (m == 9 && 1 <= d && d <= 22) { 4 }
    else if (m == 9 && 23 <= d && d <= 31) || m == 10 || m == 11 || (m == 12 && 1 <= d && d <= 21) { 1 }
    else { 2 }
}

fn push_season_abbr(out: &mut Vec<char>, s: u32)
    ensures
        final(out)@ == old(out)@ + season_abbr(s),
{
    if s == 2 { push_chars3(out, 'W', 'I', 'N') }
    else if s == 3 { push_chars3(out, 'S', 'P', 'R') }
    else if s == 4 { push_chars3(out, 'S', 'U', 'M') }
    else { push_chars3(out, 'A', 'U', 'T') }
}

fn push_month_abbr(out: &mut Vec<char>, m: u32)
    ensures
        final(out)@ == old(out)@ + month_abbr(m),
{
    if m == 2 { push_chars3(out, 'F', 'E', 'B') }
    else if m == 3 { push_chars3(out, 'M', 'A', 'R') }
    else if m == 4 { push_chars3(out, 'A', 'P', 'R') }
    else if m == 5 { push_chars3(out, 'M', 'A', 'Y') }
    else if m == 6 { push_chars3(out, 'J', 'U', 'N') }
    else if m == 7 { push_chars3(out, 'J', 'U', 'L') }
    else if m == 8 { push_chars3(out, 'A', 'U', 'G') }
    else if m == 9 { push_chars3(out, 'S', 'E', 'P') }
    else if m == 10 { push_chars3(out, 'O', 'C', 'T') }
    else if m == 11 { push_chars3(out, 'N', 'O', 'V') }
    else if m == 12 { push_chars3(out, 'D', 'E', 'C') }
    else { push_chars3(out, 'J', 'A', 'N') }
}

fn push_weekday_abbr(out: &mut Vec<char>, w: u32)
    ensures
        final(out)@ == old(out)@ + weekday_abbr(w),
{
    if w == 2 { push_chars3(out, 'T', 'U', 'E') }
    else if w == 3 { push_chars3(out, 'W', 'E', 'D') }
    else if w == 4 { push_chars3(out, 'T', 'H', 'U') }
    else if w == 5 { push_chars3(out, 'F', 'R', 'I') }
    else if w == 6 { push_chars3(out, 'S', 'A', 'T') }
    else if w == 7 { push_chars3(out, 'S', 'U', 'N') }
    else { push_chars3(out, 'M', 'O', 'N') }
}

/// Appends the text of token `t`.
fn push_token(out: &mut Vec<char>, t: Token, dt: &DateTimeUtc)
    requires
        date_ok(*dt),
    ensures
        final(out)@ == old(out)@ + token_text(t, *dt),
{
    match t {
        Token::IsoYear4 => push_zero_pad(out, dt.iso_year as u64, 4),
        Token::Year4 => push_zero_pad(out, dt.year as u64, 4),
        Token::Hour12 => {
            let pm = dt.hour >= 12;
            let h12 = if dt.hour % 12 == 0 { 12 } else { dt.hour % 12 };
            if pm {
                out.push('p');
            } else {
                out.push('a');
            }
            out.push('m');
            push_zero_pad(out, h12 as u64, 2);
            assert(out@ =~= old(out)@ + hour12(dt.hour));
        },
        Token::AstroAbbr => push_season_abbr(out, astro_season_exec(dt.month, dt.day)),
        Token::MeteoAbbr => push_season_abbr(out, meteo_season_exec(dt.month)),
        Token::MonthAbbr => push_month_abbr(out, dt.month),
        Token::DayOfYear => push_zero_pad(out, dt.day_of_year as u64, 3),
        Token::WeekdayAbbr => push_weekday_abbr(out, dt.weekday),
        Token::Millis => push_zero_pad(out, dt.millisecond as u64, 3),
        Token::IsoYear2 => push_zero_pad(out, (dt.iso_year % 100) as u64, 2),
        Token::Year2 => push_zero_pad(out, (dt.year % 100) as u64, 2),
        Token::Month2 => push_zero_pad(out, dt.month as u64, 2),
        Token::Day2 => push_zero_pad(out, dt.day as u64, 2),
        Token::IsoWeek => push_zero_pad(out, dt.iso_week as u64, 2),
        Token::Hour => push_zero_pad(out, dt.hour as u64, 2),
        Token::Minute => push_zero_pad(out, dt.minute as u64, 2),
        Token::Second => push_zero_pad(out, dt.second as u64, 2),
        Token::Tierce => push_zero_pad(out, dt.tierce as u64, 2),
        Token::Quadra => push_zero_pad(out, dt.quadra as u64, 2),
        Token::AstroNum => push_decimal(out, astro_season_exec(dt.month, dt.day) as u64),
        Token::MeteoNum => push_decimal(out, meteo_season_exec(dt.month) as u64),
        Token::Quarter => push_decimal(out, ((dt.month - 1) / 3 + 1) as u64),
        Token::WeekdayNum => push_decimal(out, dt.weekday as u64),
        Token::Literal => {
            assert(out@ =~= old(out)@ + token_text(t, *dt));
        },
    }
}

impl Temporal {
    /// Formats a UNIX timestamp in seconds by `pattern`: each token (see
    /// `spec_token`) is replaced by its field, other characters are copied.
    pub fn format(timestamp: u64, pattern: &str) -> (r: String)
        requires
            timestamp <= MAX_TIMESTAMP,
        ensures
            r@ == render_pattern(pattern@, spec_date(timestamp)),
    {
        let dt = DateTimeUtc::from_secs(timestamp);
        let p = chars_of(pattern);
        let mut out: Vec<char> = Vec::new();
        Self::replace_tokens(&p, &dt, &mut out);
        assert(out@ =~= render_pattern(pattern@, spec_date(timestamp)));
        string_of(&out)
    }

    /// Appends the pattern with its tokens replaced.
    fn replace_tokens(p: &Vec<char>, dt: &DateTimeUtc, out: &mut Vec<char>)
        requires
            date_ok(*dt),
        ensures
            final(out)@ == old(out)@ + render_pattern(p@, *dt),
    {
        let mut i: usize = 0;
        assert(p@.skip(0) =~= p@);
        assert(old(out)@ + render_pattern(p@, *dt) =~= out@ + render_pattern(p@.skip(0), *dt));
        while i < p.len()
            invariant
                i <= p@.len(),
                date_ok(*dt),
                old(out)@ + render_pattern(p@, *dt) == out@ + render_pattern(p@.skip(i as int), *dt),
            decreases p.len() - i,
        {
            let ghost rest = p@.skip(i as int);
            let t = token_at(p, i);
            if t == Token::Literal {
                out.push(p[i]);
                proof {
                    assert(rest[0] == p@[i as int]);
                    assert(rest.skip(1) =~= p@.skip(i + 1));
                    assert(out@ + render_pattern(p@.skip(i + 1), *dt) =~= old(out)@ + render_pattern(p@, *dt));
                }
                i = i + 1;
            } else {
                let ghost before = out@;
                push_token(out, t, dt);
                let len: usize = match t {
                    Token::IsoYear4 | Token::Year4 | Token::Hour12 => 4,
                    Token::AstroAbbr | Token::MeteoAbbr | Token::MonthAbbr | Token::DayOfYear
                    | Token::WeekdayAbbr | Token::Millis => 3,
                    Token::IsoYear2 | Token::Year2 | Token::Month2 | Token::Day2 | Token::IsoWeek
                    | Token::Hour | Token::Minute | Token::Second | Token::Tierce | Token::Quadra => 2,
                    _ => 1,
                };
                proof {
                    assert(len == token_len(t));
                    assert(len <= rest.len());
                    assert(rest.skip(len as int) =~= p@.skip(i + len));
                    assert(out@ + render_pattern(p@.skip(i + len), *dt) =~= old(out)@ + render_pattern(p@, *dt));
                }
                i = i + len;
            }
        }
        assert(p@.skip(i as int) =~= Seq::<char>::empty());
        assert(out@ =~= old(out)@ + render_pattern(p@, *dt));
    }
}

/// Every day of an era falls within its March-based year: at most day 365
/// in a year before a leap year, else at most day 364.
proof fn lemma_day_within_year(doe: u32)
    requires
        doe < 146097,
    ensures
        ({
            let yoe = (doe - doe / 1460 + doe / 36524 - doe / 146096) / 365;
            let doy = doe - (365 * yoe + yoe / 4 - yoe / 100);
            let y = yoe + 1;
            doy <= (if (y % 4 == 0 && y % 100 != 0) || y % 400 == 0 { 365int } else { 364int })
        }),
{
    assert({
        let yoe = (doe - doe / 1460 + doe / 36524 - doe / 146096) / 365;
        let doy = doe - (365 * yoe + yoe / 4 - yoe / 100);
        let y = yoe + 1;
        doy <= (if (y % 4 == 0 && y % 100 != 0) || y % 400 == 0 { 365int } else { 364int })
    }) by (bit_vector)
        requires
            doe < 146097,
    ;
}

/// Consecutive March-based years of an era follow each other without a gap.
proof fn lemma_year_starts(t: u32)
    requires
        t < 399,
    ensures
        ({
            let y = t + 1;
            365 * (t + 1) + (t + 1) / 4 - (t + 1) / 100
                == 365 * t + t / 4 - t / 100 + (if (y % 4 == 0 && y % 100 != 0) || y % 400 == 0 { 365int } else { 364int }) + 1
        }),
{
    assert({
        let y = t + 1;
        365 * (t + 1) + (t + 1) / 4 - (t + 1) / 100
            == 365 * t + t / 4 - t / 100 + (if (y % 4 == 0 && y % 100 != 0) || y % 400 == 0 { 365int } else { 364int }) + 1
    }) by (bit_vector)
        requires
            t < 399,
    ;
}

/// One day on within a March-based year: the next day of the month, or the
/// first of the next month; the last day of the year is the end of February.
proof fn lemma_month_next_day(doy: u32, leap: bool)
    requires
        doy <= (if leap { 365u32 } else { 364u32 }),
    ensures
        ({
            let mp = (5 * doy + 2) / 153;
            let d = doy - (153 * mp + 2) / 5 + 1;
            let m = if mp < 10 { mp + 3 } else { mp - 9 };
            let dim = if m == 2 { if leap { 29u32 } else { 28u32 } } else if m == 4 || m == 6 || m == 9 || m == 11 { 30u32 } else { 31u32 };
            let n = (doy + 1) as u32;
            let mp2 = (5 * n + 2) / 153;
            let d2 = n - (153 * mp2 + 2) / 5 + 1;
            let m2 = if mp2 < 10 { mp2 + 3 } else { mp2 - 9 };
            &&& doy == (if leap { 365u32 } else { 364u32 }) ==> m == 2 && d == dim
            &&& doy < (if leap { 365u32 } else { 364u32 }) ==> (if d < dim {
                m2 == m && d2 == d + 1
            } else {
                d2 == 1 && m2 == (if m == 12 { 1 } else { m + 1 }) && m != 2
            })
        }),
{
    assert({
        let mp = (5 * doy + 2) / 153;
        let d = doy - (153 * mp + 2) / 5 + 1;
        let m = if mp < 10 { mp + 3 } else { mp - 9 };
        let dim = if m == 2 { if leap { 29u32 } else { 28u32 } } else if m == 4 || m == 6 || m == 9 || m == 11 { 30u32 } else { 31u32 };
        let n = (doy + 1) as u32;
        let mp2 = (5 * n + 2) / 153;
        let d2 = n - (153 * mp2 + 2) / 5 + 1;
        let m2 = if mp2 < 10 { mp2 + 3 } else { mp2 - 9 };
        &&& doy == (if leap { 365u32 } else { 364u32 }) ==> m == 2 && d == dim
        &&& doy < (if leap { 365u32 } else { 364u32 }) ==> (if d < dim {
            m2 == m && d2 == d + 1
        } else {
            d2 == 1 && m2 == (if m == 12 { 1 } else { m + 1 }) && m != 2
        })
    }) by (bit_vector)
        requires
            doy <= (if leap { 365u32 } else { 364u32 }),
    ;
}

/// Within a March-based year, the day of the month stays within its month,
/// 29 February only when the year is a leap year.
proof fn lemma_day_in_month(doy: u32, leap: bool)
    requires
        doy <= 365,
        doy == 365 ==> leap,
    ensures
        ({
            let mp = (5 * doy + 2) / 153;
            let d = doy - (153 * mp + 2) / 5 + 1;
            let m = if mp < 10 { mp + 3 } else { mp - 9 };
            d <= (if m == 2 { if leap { 29u32 } else { 28u32 } } else if m == 4 || m == 6 || m == 9 || m == 11 { 30u32 } else { 31u32 })
        }),
{
    assert({
        let mp = (5 * doy + 2) / 153;
        let d = doy - (153 * mp + 2) / 5 + 1;
        let m = if mp < 10 { mp + 3 } else { mp - 9 };
        d <= (if m == 2 { if leap { 29u32 } else { 28u32 } } else if m == 4 || m == 6 || m == 9 || m == 11 { 30u32 } else { 31u32 })
    }) by (bit_vector)
        requires
            doy <= 365,
            doy == 365 ==> leap,
    ;
}

/// Days in month `m` of `year`.
pub open spec fn days_in_month(year: int, m: int) -> int {
    if m == 2 {
        if is_leap(year) { 29 } else { 28 }
    } else if m == 4 || m == 6 || m == 9 || m == 11 {
        30
    } else {
        31
    }
}

proof fn lemma_leap_period(y0: int, k: int)
    requires
        k >= 0,
    ensures
        is_leap(y0 + 400 * k) == is_leap(y0),
{
    vstd::arithmetic::div_mod::lemma_mod_multiples_vanish(100 * k, y0, 4);
    vstd::arithmetic::div_mod::lemma_mod_multiples_vanish(4 * k, y0, 100);
    vstd::arithmetic::div_mod::lemma_mod_multiples_vanish(k, y0, 400);
    assert(4 * (100 * k) + y0 == y0 + 400 * k);
    assert(100 * (4 * k) + y0 == y0 + 400 * k);
    assert(400 * k + y0 == y0 + 400 * k);
}

/// The civil date and weekday that `spec_date` gives a timestamp.
proof fn lemma_date_fields(secs: u64)
    requires
        secs <= MAX_TIMESTAMP,
    ensures
        spec_date(secs).year as int == civil_year((secs / 86400) as int),
        spec_date(secs).month as int == civil_month((secs / 86400) as int),
        spec_date(secs).day as int == civil_day((secs / 86400) as int),
        spec_date(secs).weekday as int == ((secs / 86400) as int + 3) % 7 + 1,
{
    reveal(spec_date);
    let days = (secs / 86400) as int;
    lemma_date_ranges(days);
}

/// Every timestamp falls on a real calendar date: a month from 1 to 12 and a
/// day from 1 to the length of that month, 29 February in leap years only.
pub proof fn law_dates_valid(secs: u64)
    requires
        secs <= MAX_TIMESTAMP,
    ensures
        1 <= spec_date(secs).month <= 12,
        1 <= spec_date(secs).day <= days_in_month(spec_date(secs).year as int, spec_date(secs).month as int),
{
    let days = (secs / 86400) as int;
    let z = days + 719468;
    lemma_era_bound(z);
    let era = era_of(days);
    let doe = doe_of(days);
    assert(era == z / 146097);
    assert(0 <= doe < 146097);
    let d32 = doe as u32;
    lemma_era_steps(d32);
    lemma_day_within_year(d32);
    let yoe = yoe_of(doe);
    let doy = doy_of(doe);
    assert(0 <= yoe < 400);
    assert(0 <= doy <= 365);
    let leap = is_leap(yoe + 1);
    lemma_month_steps(doy as u32);
    lemma_day_in_month(doy as u32, leap);
    let m = civil_month(days);
    let d = civil_day(days);
    let y = civil_year(days);
    if m <= 2 {
        lemma_leap_period(yoe + 1, era);
        assert(y == yoe + 1 + 400 * era);
    } else {
        lemma_leap_period(yoe, era);
        assert(y == yoe + 400 * era);
    }
    lemma_date_fields(secs);
}

/// The first day, within its era, of March-based year `t`.
pub open spec fn year_start(t: int) -> int {
    365 * t + t / 4 - t / 100
}

/// The last day, within its March-based year `t`, counted from 0.
pub open spec fn year_last(t: int) -> int {
    if is_leap(t + 1) { 365 } else { 364 }
}

proof fn lemma_year_bounds(doe: int)
    requires
        0 <= doe < 146097,
    ensures
        0 <= yoe_of(doe) < 400,
        doy_of(doe) == doe - year_start(yoe_of(doe)),
        0 <= doy_of(doe) <= year_last(yoe_of(doe)),
{
    lemma_era_steps(doe as u32);
    lemma_day_within_year(doe as u32);
}

proof fn lemma_start_mono(a: int, b: int)
    requires
        0 <= a < b <= 399,
    ensures
        year_start(a) + year_last(a) + 1 <= year_start(b),
    decreases b - a,
{
    lemma_year_starts(a as u32);
    if a + 1 < b {
        lemma_start_mono(a + 1, b);
    }
}

/// From one day of an era to the next one in the same era.
proof fn lemma_era_step(doe: int)
    requires
        0 <= doe < 146096,
    ensures
        doy_of(doe) < year_last(yoe_of(doe)) ==> yoe_of(doe + 1) == yoe_of(doe) && doy_of(doe + 1) == doy_of(doe) + 1,
        doy_of(doe) == year_last(yoe_of(doe)) ==> yoe_of(doe + 1) == yoe_of(doe) + 1 && doy_of(doe + 1) == 0,
{
    lemma_year_bounds(doe);
    lemma_year_bounds(doe + 1);
    let t = yoe_of(doe);
    let t2 = yoe_of(doe + 1);
    if t2 < t {
        lemma_start_mono(t2, t);
    }
    if t < t2 {
        lemma_start_mono(t, t2);
        if t + 1 < t2 {
            lemma_start_mono(t + 1, t2);
        }
        if t < 399 {
            lemma_year_starts(t as u32);
        }
    }
    if doy_of(doe) == year_last(t) {
        if t == 399 {
            assert(year_start(399) == 145731);
            assert(is_leap(400));
        }
        lemma_year_starts(t as u32);
    }
}

/// The calendar date after year `y`, month `m`, day `d`.
pub open spec fn next_date(y: int, m: int, d: int) -> (int, int, int) {
    if d < days_in_month(y, m) {
        (y, m, d + 1)
    } else if m < 12 {
        (y, m + 1, 1)
    } else {
        (y + 1, 1, 1)
    }
}

/// The civil date of a day since 1970-01-01.
pub open spec fn civil_date(days: int) -> (int, int, int) {
    (civil_year(days), civil_month(days), civil_day(days))
}

/// Month and day within a March-based year, and how the year of the civil
/// date follows from it.
proof fn lemma_month_of_doy(doy: int, leap: bool)
    requires
        0 <= doy <= (if leap { 365int } else { 364int }),
    ensures
        ({
            let m = if mp_of(doy) < 10 { mp_of(doy) + 3 } else { mp_of(doy) - 9 };
            let d = doy - (153 * mp_of(doy) + 2) / 5 + 1;
            let dim = if m == 2 { if leap { 29int } else { 28int } } else if m == 4 || m == 6 || m == 9 || m == 11 { 30int } else { 31int };
            let m2 = if mp_of(doy + 1) < 10 { mp_of(doy + 1) + 3 } else { mp_of(doy + 1) - 9 };
            let d2 = doy + 1 - (153 * mp_of(doy + 1) + 2) / 5 + 1;
            &&& 1 <= m <= 12
            &&& doy == (if leap { 365int } else { 364int }) ==> m == 2 && d == dim
            &&& doy < (if leap { 365int } else { 364int }) ==> (if d < dim {
                m2 == m && d2 == d + 1
            } else {
                d2 == 1 && m2 == (if m == 12 { 1 } else { m + 1 }) && m != 2
            })
        }),
{
    lemma_month_steps(doy as u32);
    lemma_month_next_day(doy as u32, leap);
}

proof fn lemma_civil_next(days: int)
    requires
        0 <= days,
        days + 1 + 719468 <= 784352296242,
    ensures
        civil_date(days + 1) == next_date(civil_year(days), civil_month(days), civil_day(days)),
{
    let z = days + 719468;
    lemma_era_bound(z);
    lemma_era_bound(z + 1);
    let era = era_of(days);
    let doe = doe_of(days);
    assert(z == 146097 * era + doe);
    let t = yoe_of(doe);
    let r = doy_of(doe);
    lemma_year_bounds(doe);
    let leap = is_leap(t + 1);
    lemma_month_of_doy(r, leap);
    let y1 = civil_year(days);
    let m1 = civil_month(days);
    let d1 = civil_day(days);
    assert(y1 == t + 400 * era + (if m1 <= 2 { 1int } else { 0int }));
    if m1 <= 2 {
        lemma_leap_period(t + 1, era);
        assert(t + 1 + 400 * era == y1);
    } else {
        lemma_leap_period(t, era);
    }
    if doe < 146096 {
        vstd::arithmetic::div_mod::lemma_fundamental_div_mod_converse(z + 1, 146097, era, doe + 1);
        assert(era_of(days + 1) == era);
        assert(doe_of(days + 1) == doe + 1);
        lemma_era_step(doe);
        if r == year_last(t) {
            lemma_year_bounds(doe + 1);
            lemma_month_of_doy(0, is_leap(t + 2));
            assert(mp_of(0) == 0);
        }
    } else {
        vstd::arithmetic::div_mod::lemma_fundamental_div_mod_converse(z + 1, 146097, era + 1, 0);
        assert(era_of(days + 1) == era + 1);
        assert(doe_of(days + 1) == 0);
        assert(yoe_of(0) == 0);
        assert(doy_of(0) == 0);
        assert(mp_of(0) == 0);
        assert(yoe_of(146096) == 399);
        assert(doy_of(146096) == 365);
        assert(is_leap(400));
        lemma_leap_period(400, era);
    }
}

/// Ranges of the civil date of a day up to the last one in reach; in the
/// year 2147483647 the week formula stays at most 52, so the ISO year fits
/// in an `i32` too.
proof fn lemma_date_ranges(days: int)
    requires
        0 <= days,
        days + 719468 <= 784352296242,
    ensures
        0 <= civil_year(days) <= 2147483647,
        1 <= civil_month(days) <= 12,
        1 <= civil_day(days) <= 31,
        civil_year(days) == 2147483647 ==> (calendar_day_of_year(civil_year(days), civil_month(days), civil_day(days)) - ((days + 3) % 7 + 1) + 10) / 7 <= 52,
{
    let z = days + 719468;
    lemma_era_bound(z);
    let era = era_of(days);
    let doe = doe_of(days);
    lemma_year_bounds(doe);
    let yoe = yoe_of(doe);
    let doy = doy_of(doe);
    lemma_month_steps(doy as u32);
    if era == 5368709 {
        lemma_last_era_steps(doe as u32);
        if yoe == 47 {
            assert(mp_of(doy) <= 9) by (nonlinear_arith)
                requires doy <= 303, mp_of(doy) == (5 * doy + 2) / 153;
        }
    }
    let y = civil_year(days);
    let m = civil_month(days);
    let d = civil_day(days);
    if y == 2147483647 && m == 12 && d >= 28 {
        assert(era == 5368709);
        assert(yoe == 47);
        assert(mp_of(doy) == 9);
        assert(doy == doe - 17166);
        assert(!is_leap(y));
        assert(doe == 17468 || doe == 17469);
        if doe == 17468 {
            assert(days == 784351576773);
            assert((days + 3) % 7 + 1 == 6);
        } else {
            assert(days == 784351576774);
            assert((days + 3) % 7 + 1 == 7);
        }
    }
}

/// One day on, the date is the calendar date after the day before and the
/// weekday the next one; with the first day, 1970-01-01, the dates run
/// through the Gregorian calendar day by day.
pub proof fn law_next_day(secs: u64)
    requires
        secs + 86400 <= MAX_TIMESTAMP,
    ensures
        ({
            let a = spec_date(secs);
            let b = spec_date((secs + 86400) as u64);
            &&& (b.year as int, b.month as int, b.day as int) == next_date(a.year as int, a.month as int, a.day as int)
            &&& b.weekday == a.weekday % 7 + 1
        }),
{
    let days = (secs / 86400) as int;
    let next = (secs + 86400) as u64;
    assert((next / 86400) as int == days + 1) by {
        vstd::arithmetic::div_mod::lemma_fundamental_div_mod_converse(next as int, 86400, days + 1, (secs % 86400) as int);
    }
    lemma_civil_next(days);
    lemma_date_fields(secs);
    lemma_date_fields(next);
    let w = (days + 3) % 7;
    assert((days + 1 + 3) % 7 == (w + 1) % 7) by {
        vstd::arithmetic::div_mod::lemma_fundamental_div_mod_converse(days + 3, 7, (days + 3) / 7, w);
        if w < 6 {
            vstd::arithmetic::div_mod::lemma_fundamental_div_mod_converse(days + 4, 7, (days + 3) / 7, w + 1);
        } else {
            vstd::arithmetic::div_mod::lemma_fundamental_div_mod_converse(days + 4, 7, (days + 3) / 7 + 1, 0);
        }
    }
}

} // verus!
