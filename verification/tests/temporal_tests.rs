use querypath_fmt::stats_temporal::StatsTemporal;
use querypath_fmt::temporal::{DateTimeUtc, Temporal, MAX_TIMESTAMP};

#[test]
fn epoch_fields() {
    assert_eq!(Temporal::format(0, "YYYY-MM-MD hh:mm:ss"), "1970-01-01 00:00:00");
    assert_eq!(Temporal::format(0, "DDD D"), "THU 4");
    assert_eq!(Temporal::format(0, "WW WYYY WY"), "01 1970 70");
    assert_eq!(Temporal::format(0, "YDD MMM YY"), "001 JAN 70");
    assert_eq!(Temporal::format(0, "Q SSS S AAA A"), "1 WIN 2 WIN 2");
    assert_eq!(Temporal::format(0, "hhhh zzz tt qq"), "am12 000 00 00");
}

#[test]
fn known_instant() {
    let ts = 1_700_000_000;
    assert_eq!(Temporal::format(ts, "YYYY-MM-MD hh:mm"), "2023-11-14 22:13");
    assert_eq!(Temporal::format(ts, "ss"), "20");
    assert_eq!(Temporal::format(ts, "DDD D"), "TUE 2");
    assert_eq!(Temporal::format(ts, "YDD"), "318");
    assert_eq!(Temporal::format(ts, "WW"), "46");
    assert_eq!(Temporal::format(ts, "Q MMM"), "4 NOV");
    assert_eq!(Temporal::format(ts, "SSS AAA"), "AUT AUT");
    assert_eq!(Temporal::format(ts, "hhhh"), "pm10");
}

#[test]
fn leap_day() {
    let ts = 951_782_400;
    assert_eq!(Temporal::format(ts, "YYYY-MM-MD DDD YDD WW"), "2000-02-29 TUE 060 09");
    assert_eq!(Temporal::format(ts + 86_400, "MM-MD YDD"), "03-01 061");
}

#[test]
fn week_numbers_at_year_ends() {
    let jan_first_2021 = 1_609_459_200;
    assert_eq!(Temporal::format(jan_first_2021, "YYYY-MM-MD DDD WW WYYY WY"), "2021-01-01 FRI 52 2020 20");
    let dec_30_2024 = 1_735_516_800;
    assert_eq!(Temporal::format(dec_30_2024, "YYYY-MM-MD DDD YDD WW WYYY"), "2024-12-30 MON 365 01 2025");
}

#[test]
fn astronomical_season_boundaries() {
    let day = |y_days: u64| y_days * 86_400;
    let mar_20_2023 = day(19_436);
    assert_eq!(Temporal::format(mar_20_2023, "MM-MD A AAA"), "03-20 2 WIN");
    assert_eq!(Temporal::format(mar_20_2023 + 86_400, "MM-MD A AAA"), "03-21 3 SPR");
    let jun_21_2023 = day(19_529);
    assert_eq!(Temporal::format(jun_21_2023, "MM-MD A"), "06-21 3");
    assert_eq!(Temporal::format(jun_21_2023 + 86_400, "MM-MD A AAA"), "06-22 4 SUM");
    let sep_22_2023 = day(19_622);
    assert_eq!(Temporal::format(sep_22_2023, "MM-MD A"), "09-22 4");
    assert_eq!(Temporal::format(sep_22_2023 + 86_400, "MM-MD A AAA"), "09-23 1 AUT");
    let dec_21_2023 = day(19_712);
    assert_eq!(Temporal::format(dec_21_2023, "MM-MD A"), "12-21 1");
    assert_eq!(Temporal::format(dec_21_2023 + 86_400, "MM-MD A AAA"), "12-22 2 WIN");
}

#[test]
fn meteorological_seasons_and_quarters() {
    let jun_1_2023 = 19_509 * 86_400;
    assert_eq!(Temporal::format(jun_1_2023, "MM S SSS Q"), "06 4 SUM 2");
    let mar_1_2023 = 19_417 * 86_400;
    assert_eq!(Temporal::format(mar_1_2023, "MM S SSS Q"), "03 3 SPR 1");
    let sep_1_2023 = 19_601 * 86_400;
    assert_eq!(Temporal::format(sep_1_2023, "MM S SSS Q"), "09 1 AUT 3");
}

#[test]
fn twelve_hour_clock() {
    assert_eq!(Temporal::format(12 * 3600, "hhhh"), "pm12");
    assert_eq!(Temporal::format(13 * 3600 + 59, "hhhh:mm:ss"), "pm01:00:59");
    assert_eq!(Temporal::format(11 * 3600, "hhhh"), "am11");
}

#[test]
fn literals_are_copied() {
    assert_eq!(Temporal::format(0, "x-Y-M-h-m-s-W-z"), "x-Y-M-h-m-s-W-z");
    assert_eq!(Temporal::format(0, ""), "");
    assert_eq!(Temporal::format(0, "YYYYY"), "1970Y");
    assert_eq!(Temporal::format(0, "[YYYY]"), "[1970]");
}

#[test]
fn from_secs_fields() {
    let d = DateTimeUtc::from_secs(1_700_000_000);
    assert_eq!((d.year, d.month, d.day), (2023, 11, 14));
    assert_eq!((d.hour, d.minute, d.second), (22, 13, 20));
    assert_eq!((d.day_of_year, d.weekday, d.iso_week, d.iso_year), (318, 2, 46, 2023));
    assert_eq!((d.millisecond, d.tierce, d.quadra), (0, 0, 0));
}

#[test]
fn largest_timestamp_formats() {
    assert_eq!(MAX_TIMESTAMP, 67_767_976_233_359_999);
    let s = Temporal::format(MAX_TIMESTAMP, "YYYY-MM-MD hh:mm:ss WYYY-WW YDD D");
    assert_eq!(s, "2147483647-12-29 23:59:59 2147483647-52 363 7");
    let d = DateTimeUtc::from_secs(MAX_TIMESTAMP);
    assert_eq!((d.year, d.month, d.day, d.weekday), (i32::MAX, 12, 29, 7));
    assert_eq!((d.iso_week, d.iso_year), (52, i32::MAX));
    let d = DateTimeUtc::from_secs(MAX_TIMESTAMP - 86_400);
    assert_eq!((d.month, d.day, d.day_of_year, d.weekday, d.iso_week), (12, 28, 362, 6, 52));
}

#[test]
fn last_january_of_the_range() {
    // 2147483647-01-01 is a Tuesday: its ISO week is week 1 of the same year.
    let d = DateTimeUtc::from_secs(MAX_TIMESTAMP - 362 * 86_400);
    assert_eq!((d.year, d.month, d.day, d.day_of_year), (i32::MAX, 1, 1, 1));
    assert_eq!((d.weekday, d.iso_week, d.iso_year), (2, 1, i32::MAX));
}

#[test]
fn stats_temporal_defaults_and_builders() {
    let t = StatsTemporal::new();
    assert!(t.enabled);
    assert_eq!(t.format_pattern, "YYYY-MM-MD hh:mm");
    assert_eq!(t, StatsTemporal::default());
    let t = StatsTemporal::new().enabled(false).pattern("YY");
    assert!(!t.enabled);
    assert_eq!(t.format_pattern, "YY");
}

#[test]
fn stats_temporal_brackets_the_time() {
    let t = StatsTemporal::new();
    assert_eq!(t.format_timestamp(Some(1_700_000_000)), "[2023-11-14 22:13]");
    assert_eq!(t.format_timestamp(None), "");
    assert_eq!(StatsTemporal::new().enabled(false).format_timestamp(Some(5)), "");
    assert_eq!(StatsTemporal::new().pattern("").format_timestamp(Some(5)), "");
    assert_eq!(StatsTemporal::new().pattern("YYYY-MM-MD AAA Q").format_timestamp(Some(0)), "[1970-01-01 WIN 1]");
}

#[test]
fn next_day_across_month_and_year_ends() {
    let day = |n: u64| n * 86_400;
    assert_eq!(Temporal::format(day(47_540), "YYYY-MM-MD D"), "2100-02-28 7");
    assert_eq!(Temporal::format(day(47_541), "YYYY-MM-MD D"), "2100-03-01 1");
    assert_eq!(Temporal::format(day(11_015), "YYYY-MM-MD D"), "2000-02-28 1");
    assert_eq!(Temporal::format(day(11_016), "YYYY-MM-MD D"), "2000-02-29 2");
    assert_eq!(Temporal::format(day(19_722), "YYYY-MM-MD D"), "2023-12-31 7");
    assert_eq!(Temporal::format(day(19_723), "YYYY-MM-MD D"), "2024-01-01 1");
    assert_eq!(Temporal::format(day(19_781), "YYYY-MM-MD"), "2024-02-28");
    assert_eq!(Temporal::format(day(19_782), "YYYY-MM-MD"), "2024-02-29");
    assert_eq!(Temporal::format(day(10_956), "YYYY-MM-MD D"), "1999-12-31 5");
    assert_eq!(Temporal::format(day(10_957), "YYYY-MM-MD D"), "2000-01-01 6");
}

#[test]
fn every_day_of_four_centuries_is_a_calendar_date() {
    let dim = |y: i32, m: u32| match m {
        2 => if (y % 4 == 0 && y % 100 != 0) || y % 400 == 0 { 29 } else { 28 },
        4 | 6 | 9 | 11 => 30,
        _ => 31,
    };
    let mut prev = DateTimeUtc::from_secs(0);
    let mut n: u64 = 1;
    while n < 146_097 {
        let d = DateTimeUtc::from_secs(n * 86_400);
        let expected = if prev.day < dim(prev.year, prev.month) {
            (prev.year, prev.month, prev.day + 1)
        } else if prev.month < 12 {
            (prev.year, prev.month + 1, 1)
        } else {
            (prev.year + 1, 1, 1)
        };
        assert_eq!((d.year, d.month, d.day), expected);
        assert_eq!(d.weekday, prev.weekday % 7 + 1);
        prev = d;
        n += 1;
    }
}
