use querypath_fmt::stats_weight::{DirWeightDisplay, StatsWeight, UnitSystem, WeightPrecision};

fn binary() -> StatsWeight {
    StatsWeight::new()
}

fn decimal() -> StatsWeight {
    StatsWeight::new().unit_system(UnitSystem::Decimal)
}

#[test]
fn weight_defaults() {
    let w = StatsWeight::new();
    assert!(w.enabled);
    assert_eq!(w.unit_system, UnitSystem::Binary);
    assert_eq!(w.precision, WeightPrecision::Tenths);
    assert_eq!(w.dir_display, DirWeightDisplay::MatchedOnly);
    assert!(w.include_files);
    assert!(w.include_binaries_in_matched);
    assert_eq!(w, StatsWeight::default());
}

#[test]
fn weight_builders_set_one_field_each() {
    let w = StatsWeight::new()
        .enabled(false)
        .unit_system(UnitSystem::Decimal)
        .precision(WeightPrecision::Hundredths)
        .dir_display(DirWeightDisplay::Both)
        .include_files(false)
        .include_binaries_in_matched(false);
    assert!(!w.enabled);
    assert_eq!(w.unit_system, UnitSystem::Decimal);
    assert_eq!(w.precision, WeightPrecision::Hundredths);
    assert_eq!(w.dir_display, DirWeightDisplay::Both);
    assert!(!w.include_files);
    assert!(!w.include_binaries_in_matched);
}

#[test]
fn bytes_below_one_unit_are_plain() {
    assert_eq!(binary().format_bytes(0), "0 B");
    assert_eq!(binary().format_bytes(1), "1 B");
    assert_eq!(binary().format_bytes(1023), "1023 B");
    assert_eq!(decimal().format_bytes(0), "0 B");
    assert_eq!(decimal().format_bytes(999), "999 B");
}

#[test]
fn binary_units_tenths() {
    assert_eq!(binary().format_bytes(1024), "1.0 KiB");
    assert_eq!(binary().format_bytes(1536), "1.5 KiB");
    assert_eq!(binary().format_bytes(1126), "1.1 KiB");
    assert_eq!(binary().format_bytes(10240), "10.0 KiB");
    assert_eq!(binary().format_bytes(1_048_575), "1024.0 KiB");
    assert_eq!(binary().format_bytes(3_145_728), "3.0 MiB");
    assert_eq!(binary().format_bytes(5_368_709_120), "5.0 GiB");
}

#[test]
fn binary_units_stop_at_tebibytes() {
    assert_eq!(binary().format_bytes(3 * (1u64 << 50)), "3072.0 TiB");
    assert_eq!(binary().format_bytes(u64::MAX), "16777216.0 TiB");
}

#[test]
fn binary_units_hundredths() {
    let w = binary().precision(WeightPrecision::Hundredths);
    assert_eq!(w.format_bytes(1126), "1.10 KiB");
    assert_eq!(w.format_bytes(1075), "1.05 KiB");
    assert_eq!(w.format_bytes(1300), "1.27 KiB");
    assert_eq!(w.format_bytes(1536), "1.50 KiB");
}

#[test]
fn binary_units_agree_with_float_formatting() {
    for bytes in [1024u64, 1100, 1536, 2047, 4097, 123_456, 9_999_999, 77_777_777_777] {
        let mut i = 0;
        let mut p: u64 = 1;
        while i < 4 && p * 1024 <= bytes {
            p *= 1024;
            i += 1;
        }
        let units = ["B", "KiB", "MiB", "GiB", "TiB"];
        let val = bytes as f64 / p as f64;
        assert_eq!(binary().format_bytes(bytes), format!("{:.1} {}", val, units[i]));
        assert_eq!(
            binary().precision(WeightPrecision::Hundredths).format_bytes(bytes),
            format!("{:.2} {}", val, units[i])
        );
    }
}

#[test]
fn decimal_units() {
    assert_eq!(decimal().format_bytes(1000), "1.0 KB");
    assert_eq!(decimal().format_bytes(1500), "1.5 KB");
    assert_eq!(decimal().format_bytes(1999), "2.0 KB");
    assert_eq!(decimal().format_bytes(1050), "1.1 KB");
    assert_eq!(decimal().format_bytes(1150), "1.1 KB");
    assert_eq!(decimal().precision(WeightPrecision::Hundredths).format_bytes(1015), "1.01 KB");
    assert_eq!(decimal().precision(WeightPrecision::Hundredths).format_bytes(1145), "1.15 KB");
    assert_eq!(decimal().format_bytes(2_500_000), "2.5 MB");
    assert_eq!(decimal().format_bytes(1_234_567), "1.2 MB");
    assert_eq!(decimal().precision(WeightPrecision::Hundredths).format_bytes(1_234_567), "1.23 MB");
    assert_eq!(decimal().format_bytes(7_000_000_000), "7.0 GB");
    assert_eq!(decimal().format_bytes(3_000_000_000_000_000), "3000.0 TB");
    assert_eq!(decimal().format_bytes(3_000_000_000_000_000_000), "3000000.0 TB");
    assert_eq!(decimal().format_bytes(4_500_000_000_000_000), "4500.0 TB");
}

#[test]
fn file_size_text() {
    assert_eq!(binary().format_file_size_raw(512, false), "512 B");
    assert_eq!(binary().format_file_size_raw(2048, true), "2.0 KiB");
    assert_eq!(binary().include_files(false).format_file_size_raw(512, false), "");
    assert_eq!(binary().enabled(false).format_file_size_raw(512, false), "");
    let no_bins = binary().include_binaries_in_matched(false);
    assert_eq!(no_bins.format_file_size_raw(512, true), "");
    assert_eq!(no_bins.format_file_size_raw(512, false), "512 B");
}

#[test]
fn dir_size_text_by_display() {
    assert_eq!(binary().format_dir_size_raw(2048, 4096), "2.0 KiB");
    assert_eq!(binary().dir_display(DirWeightDisplay::RealOnly).format_dir_size_raw(2048, 4096), "4.0 KiB");
    assert_eq!(
        binary().dir_display(DirWeightDisplay::Both).format_dir_size_raw(2048, 4096),
        "2.0 KiB / 4.0 KiB"
    );
    assert_eq!(binary().dir_display(DirWeightDisplay::Hidden).format_dir_size_raw(2048, 4096), "");
    assert_eq!(binary().enabled(false).format_dir_size_raw(2048, 4096), "");
    assert_eq!(binary().dir_display(DirWeightDisplay::Both).format_dir_size_raw(0, 100), "0 B / 100 B");
}

#[test]
fn push_bytes_appends() {
    let mut out: Vec<char> = vec!['<'];
    binary().push_bytes(&mut out, 1536);
    out.push('>');
    assert_eq!(out.iter().collect::<String>(), "<1.5 KiB>");
}

fn with_doubles(bytes: u64, binary_units: bool, hundredths: bool) -> String {
    let (base, units): (f64, [&str; 5]) = if binary_units {
        (1024.0, ["B", "KiB", "MiB", "GiB", "TiB"])
    } else {
        (1000.0, ["B", "KB", "MB", "GB", "TB"])
    };
    if bytes == 0 {
        return format!("0 {}", units[0]);
    }
    let bytes_f = bytes as f64;
    let i = ((bytes_f.ln() / base.ln()).floor() as usize).min(units.len() - 1);
    if i == 0 {
        return format!("{} B", bytes);
    }
    let val = bytes_f / base.powi(i as i32);
    if hundredths { format!("{:.2} {}", val, units[i]) } else { format!("{:.1} {}", val, units[i]) }
}

#[test]
fn sizes_match_double_arithmetic() {
    let mut samples: Vec<u64> = (1000u64..6000).collect();
    samples.extend([1015, 1050, 1150, 1_234_500, 2_675_000, 999_999, 1_000_000, 1_048_576, 999_950]);
    let mut x: u64 = 0x9E37_79B9_7F4A_7C15;
    for _ in 0..3000 {
        x = x.wrapping_mul(6364136223846793005).wrapping_add(1442695040888963407);
        samples.push(x >> (x % 50));
        samples.push(x);
    }
    samples.extend([u64::MAX, u64::MAX - 1, 1 << 53, (1 << 53) + 1, (1 << 60) + 12345, 9_007_199_254_740_993]);
    for &b in samples.iter() {
        for binary_units in [true, false] {
            for hundredths in [false, true] {
                let mut w = StatsWeight::new().unit_system(if binary_units { UnitSystem::Binary } else { UnitSystem::Decimal });
                if hundredths {
                    w = w.precision(WeightPrecision::Hundredths);
                }
                assert_eq!(w.format_bytes(b), with_doubles(b, binary_units, hundredths), "bytes {}", b);
            }
        }
    }
}
