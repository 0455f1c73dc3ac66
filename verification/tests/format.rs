use tcloc::double::Double;
use tcloc::format::{
    fixed, fmt_bytes, fmt_bytes_short, fmt_compact, fmt_int, fmt_pct, truncate, truncate_left,
};

fn double(x: f64) -> Double {
    Double::from_bits(x.to_bits())
}

#[test]
fn fmt_int_basics() {
    assert_eq!(fmt_int(0), "0");
    assert_eq!(fmt_int(42), "42");
    assert_eq!(fmt_int(1_000), "1,000");
    assert_eq!(fmt_int(1_234_567), "1,234,567");
    assert_eq!(fmt_int(u64::MAX), "18,446,744,073,709,551,615");
}

#[test]
fn fmt_bytes_units() {
    assert_eq!(fmt_bytes(0), "0 B");
    assert_eq!(fmt_bytes(512), "512 B");
    assert_eq!(fmt_bytes(2 * 1024), "2.00 KB");
    assert_eq!(fmt_bytes(1024 * 1024 + 512 * 1024), "1.50 MB");
}

#[test]
fn fmt_bytes_short_units() {
    assert_eq!(fmt_bytes_short(0), "0B");
    assert_eq!(fmt_bytes_short(2048), "2.0K");
    assert_eq!(fmt_bytes_short(3 * 1024 * 1024), "3.0M");
}

#[test]
fn fmt_compact_thresholds() {
    assert_eq!(fmt_compact(0), "0");
    assert_eq!(fmt_compact(9_999), "9,999");
    assert_eq!(fmt_compact(10_000), "10.0K");
    assert_eq!(fmt_compact(123_456), "123K");
    assert_eq!(fmt_compact(6_991_170), "6.99M");
}

#[test]
fn fmt_pct_widths() {
    assert_eq!(fmt_pct(double(100.0)), "100%");
    assert_eq!(fmt_pct(double(50.0)), "50%");
    assert_eq!(fmt_pct(double(9.5)), "9.5%");
    assert_eq!(fmt_pct(double(0.1)), "0.1%");
}

#[test]
fn truncate_basic() {
    assert_eq!(truncate("hello", 10), "hello");
    assert_eq!(truncate("hello", 5), "hello");
    assert_eq!(truncate("hello", 4), "hel…");
    assert_eq!(truncate("hello", 1), "h");
    assert_eq!(truncate("héllo", 4), "hél…");
}

#[test]
fn truncate_left_basic() {
    assert_eq!(truncate_left("hello", 10), "hello");
    assert_eq!(truncate_left("/very/long/path", 7), "…g/path");
    assert_eq!(truncate_left("abcdef", 4), "…def");
}

#[test]
fn truncate_to_nothing() {
    assert_eq!(truncate("hello", 0), "");
    assert_eq!(truncate_left("hello", 0), "");
    assert_eq!(truncate_left("hello", 1), "o");
    assert_eq!(truncate("", 3), "");
}

#[test]
fn fmt_int_groups_of_three() {
    let mut n: u64 = 1;
    while n < u64::MAX / 7 {
        let s = fmt_int(n);
        let bare: String = s.chars().filter(|c| *c != ',').collect();
        assert_eq!(bare, format!("{n}"));
        let groups: Vec<&str> = s.split(',').collect();
        assert!(!groups[0].is_empty() && groups[0].len() <= 3);
        for g in &groups[1..] {
            assert_eq!(g.len(), 3);
        }
        n *= 7;
    }
}

#[test]
fn fmt_bytes_largest_units() {
    assert_eq!(fmt_bytes(1023), "1023 B");
    assert_eq!(fmt_bytes(5 * 1024 * 1024 * 1024), "5.00 GB");
    assert_eq!(fmt_bytes(u64::MAX), "16777216.00 TB");
    assert_eq!(fmt_bytes_short(1023), "1023B");
    assert_eq!(fmt_bytes_short(7 * 1024 * 1024 * 1024), "7.0G");
    assert_eq!(fmt_bytes_short(1536), "1.5K");
}

#[test]
fn fmt_compact_suffixes() {
    assert_eq!(fmt_compact(12_345), "12.3K");
    assert_eq!(fmt_compact(1_000_000), "1.00M");
    assert_eq!(fmt_compact(2_500_000_000), "2.50B");
    assert_eq!(fmt_compact(42_000_000_000_000), "42.0T");
    assert_eq!(fmt_compact(999_999), "1000K");
}

#[test]
fn fmt_pct_edges() {
    assert_eq!(fmt_pct(double(0.0)), "0.0%");
    assert_eq!(fmt_pct(double(10.0)), "10%");
    assert_eq!(fmt_pct(double(9.99)), "10.0%");
    assert_eq!(fmt_pct(double(250.0)), "100%");
}

#[test]
fn fixed_as_the_machine_prints() {
    let xs = [
        0.0, 0.05, 0.25, 0.5, 1.5, 2.5, 0.125, 99.995, 1e-9, 123456.789, 1e15, 0.1, 0.2, 0.3,
        1.0 / 3.0, 2.0 / 3.0, 9.95, 1234.5678,
    ];
    for x in xs {
        assert_eq!(fixed(double(x), 0), format!("{x:.0}"));
        assert_eq!(fixed(double(x), 1), format!("{x:.1}"));
        assert_eq!(fixed(double(x), 2), format!("{x:.2}"));
        assert_eq!(fixed(double(x), 3), format!("{x:.3}"));
    }
    let mut seed: u64 = 12345;
    for _ in 0..2000 {
        seed = seed.wrapping_mul(6364136223846793005).wrapping_add(1442695040888963407);
        let x = (seed >> 20) as f64 / 4097.0;
        assert_eq!(fixed(double(x), 1), format!("{x:.1}"));
        assert_eq!(fixed(double(x), 3), format!("{x:.3}"));
    }
    assert_eq!(fixed(Double::Nan, 1), "NaN");
    assert_eq!(fixed(Double::Infinity, 1), "inf");
}

#[test]
fn percentages_fit_five_characters() {
    for x in [0.0, 0.04, 9.94, 9.95, 9.99, 10.0, 99.4, 99.6, 99.99, 100.0, 250.0, f64::INFINITY] {
        assert!(fmt_pct(double(x)).chars().count() <= 5, "{x}");
    }
    assert_eq!(fmt_pct(double(9.97)), "10.0%");
    assert_eq!(fmt_pct(double(99.7)), "100%");
}
