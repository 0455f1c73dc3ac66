use tcloc::alloc_track::{delta, AllocStats, CountingAllocator};
use tcloc::app::App;
use tcloc::bench::Bench;
use tcloc::bench_report;
use tcloc::double::Double;
use tcloc::lang::Lang;
use tcloc::path::FilePath;
use tcloc::perf::{severity_color, Recorder};
use tcloc::time::Span;

fn ms(n: u64) -> Span {
    Span::from_nanos(n * 1_000_000)
}

fn us(n: u64) -> Span {
    Span::from_nanos(n * 1_000)
}

fn double(x: f64) -> Double {
    Double::from_bits(x.to_bits())
}

#[test]
fn memory_is_counted() {
    let mut c = CountingAllocator::new();
    c.count_alloc(100);
    c.count_alloc(50);
    c.count_dealloc(100);
    c.count_realloc(50, 80);
    c.count_realloc(80, 20);
    let s = c.snapshot();
    assert_eq!((s.allocs, s.deallocs, s.reallocs), (2, 1, 2));
    assert_eq!((s.bytes_allocated, s.bytes_deallocated), (180, 160));
    assert_eq!((s.current_bytes, s.peak_bytes), (20, 150));
    assert_eq!(c.thread_snapshot(), (2, 180));
}

#[test]
fn giving_back_more_than_was_taken_wraps() {
    let mut c = CountingAllocator::new();
    c.count_dealloc(1);
    assert_eq!(c.snapshot().current_bytes, usize::MAX);
}

#[test]
fn what_was_counted_between_two_moments() {
    let mut c = CountingAllocator::new();
    c.count_alloc(10);
    let start = c.snapshot();
    c.count_alloc(30);
    c.count_dealloc(10);
    let d = delta(start, c.snapshot());
    assert_eq!((d.allocs, d.deallocs, d.reallocs), (1, 1, 0));
    assert_eq!((d.bytes_allocated, d.bytes_deallocated), (30, 10));
    assert_eq!((d.current_bytes, d.peak_bytes), (30, 40));
    let back = delta(c.snapshot(), start);
    assert_eq!((back.allocs, back.bytes_allocated), (0, 0));
    assert_eq!(AllocStats::default().allocs, 0);
}

#[test]
fn frames_have_statistics() {
    let mut b = Bench::default();
    assert!(b.frame_stats().is_none());
    for i in 0..100u64 {
        b.record_frame(ms(i + 1), i, i * 2);
    }
    let s = b.frame_stats().unwrap();
    assert_eq!(s.avg, us(50_500));
    assert_eq!((s.p50, s.p95, s.p99, s.max), (ms(51), ms(96), ms(100), ms(100)));
    assert_eq!(b.frames_rendered, 100);
    assert_eq!((b.last_frame_alloc_bytes, b.last_frame_allocs), (99, 198));
}

#[test]
fn old_frames_are_forgotten() {
    let mut b = Bench::default();
    b.record_frame(ms(1000), 0, 0);
    for _ in 0..600 {
        b.record_frame(ms(2), 0, 0);
    }
    assert_eq!(b.frame_durations.len(), 600);
    assert_eq!(b.frame_stats().unwrap().max, ms(2));
    assert_eq!(b.frames_rendered, 601);
}

#[test]
fn layouts_are_recorded_for_benchmarks() {
    let mut b = Bench::default();
    b.record_layout(ms(3), 2, 1, 9);
    assert_eq!(b.last_treemap_iters, 0);
    b.enabled = true;
    b.record_layout(ms(3), 2, 1, 9);
    assert_eq!(b.last_treemap_layout, ms(3));
    assert_eq!((b.last_treemap_iters, b.last_layout_excluded, b.last_tiles_drawn), (2, 1, 9));
}

#[test]
fn seconds_as_the_machine_computes_them() {
    for n in [0u64, 1, 999_999_999, 1_000_000_000, 1_500_000_000, 123_456_789_012_345, u64::MAX] {
        let d = std::time::Duration::from_nanos(n);
        assert_eq!(Span::from_nanos(n).secs().to_bits(), d.as_secs_f64().to_bits());
        let m = d.as_secs_f64() * 1000.0;
        assert_eq!(Span::from_nanos(n).millis().to_bits(), m.to_bits());
    }
    assert_eq!(ms(5).since(ms(3)), ms(2));
    assert_eq!(ms(3).since(ms(5)), Span::zero());
    assert_eq!(Span { nanos: 0x1_0000_0000_0000_0007 }.low_nanos(), 7);
}

#[test]
fn the_report_line_by_line() {
    let mut a = App::new(FilePath::from_text("/r"), ms(0));
    a.bench.enabled = true;
    a.record(FilePath::from_text("/r/a.rs"), Lang("Rust"), 1000, 4096, 2_500);
    a.record(FilePath::from_text("/r/b.rs"), Lang("Rust"), 500, 1024, 1_500);
    a.mark_done(ms(2500));
    a.bench.record_frame(ms(4), 0, 0);
    a.bench.record_layout(us(1234), 1, 2, 3);
    let alloc = AllocStats {
        allocs: 1234,
        bytes_allocated: 2048,
        current_bytes: 512,
        peak_bytes: 1536,
        ..AllocStats::default()
    };
    let out = bench_report::print(&a, ms(500), ms(9999), 8, Some("git"), alloc);
    let want = [
        "",
        "=== tcloc bench ===",
        "path        : /r",
        "vcs         : git",
        "threads     : 8",
        "",
        "[scanner]",
        "  files     :              2    lines :          1,500",
        "  bytes     :        5.00 KB    elapsed: 2.000 s",
        "  files/s   :              1    lines/s:        750",
        "  bytes/s   :        2.50 KB/s",
        "  per-file  : avg 2.0 µs  min 1.5 µs  max 2.5 µs",
        "",
        "[tui]",
        "  frames    : 1",
        "  frame     : avg 4.000 ms (250 fps)  p50 4.000  p95 4.000  p99 4.000  max 4.000",
        "  layout    : 1.234 ms (iters 1, excluded 2, tiles 3)",
        "  halfblock : 0.000 ms",
        "  text      : 0.000 ms",
        "",
        "[memory]",
        "  resident  : current 512 B  peak 1.50 KB",
        "  process   : 1,234 allocs, 2.00 KB allocated",
        "",
    ];
    assert_eq!(out, want);
}

#[test]
fn the_report_of_nothing() {
    let a = App::new(FilePath::from_text("/r"), ms(0));
    let out = bench_report::print(&a, ms(0), ms(0), 1, None, AllocStats::default());
    assert!(out.contains(&"vcs         : none".to_string()));
    assert!(out.contains(&"  bytes     :            0 B    elapsed: 0.000 s".to_string()));
    assert!(out.iter().all(|l| !l.starts_with("  frame  ")));
}

#[test]
fn recording_is_off_at_first() {
    let mut r = Recorder::new();
    assert!(!r.enabled());
    assert!(r.begin("a", ms(0), (0, 0)).is_none());
    r.record_value("v", 5);
    assert!(r.values.entries.is_empty());
    r.enable();
    assert!(r.enabled());
    assert!(r.print_summary(&vec![]).is_empty());
}

#[test]
fn the_summary_line_by_line() {
    let mut r = Recorder::new();
    r.enable();
    let none = (5, 700);
    let some = (7, 3700);
    let g = r.begin("fast", ms(0), none).unwrap();
    r.finish(g, us(500), none);
    let g = r.begin("slow", ms(0), none).unwrap();
    r.finish(g, ms(1500), some);
    let g = r.begin("fast", ms(10), none).unwrap();
    r.finish(g, us(12_500), none);
    r.record_value("zeta", 7);
    r.record_value("alpha", 3);
    r.record_value("alpha", 5);
    assert!(r.can_sum());
    assert_eq!(r.duration_totals(), [1_500_000_000, 3_000_000]);
    let out = r.print_summary(&vec![double(1.0), double(0.2)]);
    let bar = "─".repeat(115);
    let row = |c: [&str; 8]| {
        format!(
            "{:<40} {:>8} {:>10} {:>10} {:>10} {:>10} {:>10} {:>10}",
            c[0], c[1], c[2], c[3], c[4], c[5], c[6], c[7]
        )
    };
    let head = |first: &str| row([first, "count", "total", "avg", "p50", "p95", "p99", "max"]);
    let want = vec![
        String::new(),
        format!("── perf {}", "─".repeat(107)),
        head("function"),
        bar.clone(),
        format!(
            "\u{1b}[1;91m{}\u{1b}[0m",
            row(["slow", "1", "1.50s", "1.50s", "1.50s", "1.50s", "1.50s", "1.50s"])
        ),
        format!(
            "\u{1b}[37m{}\u{1b}[0m",
            row(["fast", "2", "3.0ms", "1.5ms", "2.5ms", "2.5ms", "2.5ms", "2.5ms"])
        ),
        bar.clone(),
        head("allocs"),
        bar.clone(),
        row(["slow  (n)", "1", "2", "2", "2", "2", "2", "2"]),
        row(["slow  (bytes)", "1", "2.9KB", "2.9KB", "2.9KB", "2.9KB", "2.9KB", "2.9KB"]),
        row(["fast  (n)", "2", "0", "0", "0", "0", "0", "0"]),
        row(["fast  (bytes)", "2", "0B", "0B", "0B", "0B", "0B", "0B"]),
        bar.clone(),
        head("value (µs)"),
        bar.clone(),
        row(["alpha", "2", "8", "4", "5", "5", "5", "5"]),
        row(["zeta", "1", "7", "7", "7", "7", "7", "7"]),
        bar,
    ];
    assert_eq!(out, want);
}

#[test]
fn a_guard_counts_its_own_thread() {
    let mut counts = CountingAllocator::new();
    counts.count_alloc(100);
    let mut r = Recorder::new();
    r.enable();
    let g = r.begin("part", ms(0), counts.thread_snapshot()).unwrap();
    counts.count_alloc(40);
    counts.count_realloc(40, 60);
    r.finish(g, ms(1), counts.thread_snapshot());
    assert_eq!(r.alloc_counts.entries, [("part", vec![1])]);
    assert_eq!(r.alloc_bytes.entries, [("part", vec![60])]);
}

#[test]
fn totals_that_are_too_large_are_noticed() {
    let mut r = Recorder::new();
    r.enable();
    r.record_value("v", u64::MAX);
    assert!(r.can_sum());
    r.record_value("v", 1);
    assert!(!r.can_sum());
}

#[test]
fn rows_are_colored_by_weight() {
    let of = |x: f64| severity_color(double(x));
    assert_eq!(of(1.0), "1;91");
    assert_eq!(of(0.85), "1;91");
    assert_eq!(of(0.84), "91");
    assert_eq!(of(0.65), "91");
    assert_eq!(of(0.5), "33");
    assert_eq!(of(0.25), "36");
    assert_eq!(of(0.1), "37");
    assert_eq!(of(0.0), "2;37");
}
