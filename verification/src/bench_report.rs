//! The report of the measurements at the end.

use vstd::arithmetic::power2::*;
use vstd::prelude::*;
use vstd::string::*;

use crate::alloc_track::AllocStats;
use crate::app::{App, AppModel};
use crate::bench;
use crate::bench::FrameStats;
use crate::double;
use crate::double::Double;
use crate::text;
use crate::time;
use crate::time::Span;
use crate::tree;
use crate::ui::chrome;

verus! {

/// A time in seconds, a billionth at least.
pub open spec fn some_secs(s: Span) -> Double {
    double::larger(time::secs_of(s), double::fraction(1, 1_000_000_000))
}

/// How many there are per second, rounded down.
pub open spec fn rate(n: nat, secs: Double) -> nat {
    double::truncated(double::quotient_of(double::of_int(n), secs)) as nat
}

/// How long the scan took.
pub open spec fn scan_span(m: AppModel, started: Span, now: Span) -> Span {
    let end = match m.finished_at {
        Some(t) => t,
        None => now,
    };
    Span {
        nanos: if end.nanos > started.nanos {
            (end.nanos - started.nanos) as u128
        } else {
            0
        },
    }
}

/// Nanoseconds as microseconds, with one digit.
pub open spec fn micros_text(n: nat) -> Seq<char> {
    crate::format::fixed_text(double::quotient_of(double::of_int(n), double::of_int(1000)), 1)
}

/// A span in milliseconds, with three digits.
pub open spec fn millis_text(s: Span) -> Seq<char> {
    crate::format::fixed_text(time::millis_of(s), 3)
}

/// Frames per second.
pub open spec fn fps_text(avg: Span) -> Seq<char> {
    crate::format::fixed_text(double::quotient_of(double::of_int(1), some_secs(avg)), 0)
}

/// What was scanned, and with what.
pub open spec fn head_lines(m: AppModel, threads: usize, vcs: Option<Seq<char>>) -> Seq<Seq<char>> {
    seq![
        ""@,
        "=== tcloc bench ==="@,
        "path        : "@ + text::shown_text(m.root),
        "vcs         : "@ + (match vcs {
            Some(v) => v,
            None => "none"@,
        }),
        "threads     : "@ + text::digits(threads as nat),
        ""@,
    ]
}

/// How the scan went.
pub open spec fn scan_lines(m: AppModel, secs: Double) -> Seq<Seq<char>> {
    seq![
        "[scanner]"@,
        "  files     : "@ + text::padded_left(crate::format::int_text(m.total_files as nat), 14)
            + "    lines : "@ + text::padded_left(crate::format::int_text(m.total_lines as nat), 14),
        "  bytes     : "@ + text::padded_left(crate::format::bytes_text(m.total_bytes as nat), 14)
            + "    elapsed: "@ + crate::format::fixed_text(secs, 3) + " s"@,
        "  files/s   : "@ + text::padded_left(
            crate::format::int_text(rate(m.total_files as nat, secs)),
            14,
        ) + "    lines/s: "@ + text::padded_left(
            crate::format::int_text(rate(m.total_lines as nat, secs)),
            10,
        ),
        "  bytes/s   : "@ + text::padded_left(
            crate::format::bytes_text(rate(m.total_bytes as nat, secs)),
            14,
        ) + "/s"@,
        "  per-file  : avg "@ + micros_text(chrome::avg_count(m)) + " µs  min "@ + micros_text(
            m.bench.min_count_nanos as nat,
        ) + " µs  max "@ + micros_text(m.bench.max_count_nanos as nat) + " µs"@,
        ""@,
    ]
}

/// How long frames took.
pub open spec fn frame_line(s: FrameStats) -> Seq<char> {
    "  frame     : avg "@ + millis_text(s.avg) + " ms ("@ + fps_text(s.avg) + " fps)  p50 "@
        + millis_text(s.p50) + "  p95 "@ + millis_text(s.p95) + "  p99 "@ + millis_text(s.p99)
        + "  max "@ + millis_text(s.max)
}

/// How drawing went.
pub open spec fn draw_lines(m: AppModel) -> Seq<Seq<char>> {
    let head = seq!["[tui]"@, "  frames    : "@ + text::digits(m.bench.frames_rendered as nat)];
    let frames = match bench::frame_stats_of(m.bench.frame_durations) {
        Some(s) => seq![frame_line(s)],
        None => seq![],
    };
    head + frames + seq![
        "  layout    : "@ + millis_text(m.bench.last_treemap_layout) + " ms (iters "@
            + text::digits(m.bench.last_treemap_iters as nat) + ", excluded "@ + text::digits(
            m.bench.last_layout_excluded as nat,
        ) + ", tiles "@ + text::digits(m.bench.last_tiles_drawn as nat) + ")"@,
        "  halfblock : "@ + millis_text(m.bench.last_halfblock) + " ms"@,
        "  text      : "@ + millis_text(m.bench.last_text_overlay) + " ms"@,
        ""@,
    ]
}

/// How much memory was used.
pub open spec fn memory_lines(a: AllocStats) -> Seq<Seq<char>> {
    seq![
        "[memory]"@,
        "  resident  : current "@ + crate::format::bytes_text(a.current_bytes as nat) + "  peak "@
            + crate::format::bytes_text(a.peak_bytes as nat),
        "  process   : "@ + crate::format::int_text(a.allocs as nat) + " allocs, "@
            + crate::format::bytes_text(a.bytes_allocated as nat) + " allocated"@,
        ""@,
    ]
}

/// The report, line by line.
pub open spec fn report(
    m: AppModel,
    started: Span,
    now: Span,
    threads: usize,
    vcs: Option<Seq<char>>,
    a: AllocStats,
) -> Seq<Seq<char>> {
    head_lines(m, threads, vcs) + scan_lines(m, some_secs(scan_span(m, started, now)))
        + draw_lines(m) + memory_lines(a)
}

fn secs_at_least(s: Span) -> (r: Double)
    requires
        s.wf(),
    ensures
        r == some_secs(s),
        r.wf(),
        double::within(r, 65),
        double::beyond(r, 30),
{
    let secs = s.secs();
    let least = Double::fraction(1, 1_000_000_000);
    proof {
        lemma2_to64();
        double::lemma_fraction_beyond(1_000_000_000, 30);
        double::lemma_larger_beyond(secs, least, 30);
        double::lemma_within_weaken(least, 64, 65);
    }
    secs.max(least)
}

fn rate_of(n: u64, secs: Double) -> (r: u64)
    requires
        secs.wf(),
        double::beyond(secs, 30),
    ensures
        r == rate(n as nat, secs),
{
    let x = Double::of(n);
    proof {
        double::lemma_of_within(n);
        double::lemma_quotient_within(x, secs, 64, 30);
    }
    x.over(secs).trunc()
}

fn micros(n: u128) -> (r: String)
    requires
        n <= time::MAX_NANOS,
    ensures
        r@ == micros_text(n as nat),
{
    let x = Double::of_wide(n);
    let thousand = Double::of(1000);
    proof {
        lemma2_to64();
        lemma_pow2_adds(64, 30);
        double::lemma_of_within(1000);
        double::lemma_of_int_within(n as nat, 94);
        double::lemma_quotient_within(x, thousand, 94, 0);
        double::lemma_within_weaken(double::quotient_of(x, thousand), 94, 100);
    }
    crate::format::fixed(x.over(thousand), 1)
}

fn millis(s: Span) -> (r: String)
    requires
        s.wf(),
    ensures
        r@ == millis_text(s),
{
    crate::format::fixed(s.millis(), 3)
}

fn fps(avg: Span) -> (r: String)
    requires
        avg.wf(),
    ensures
        r@ == fps_text(avg),
{
    let secs = secs_at_least(avg);
    let one = Double::of(1);
    proof {
        lemma2_to64();
        double::lemma_of_int_within(1, 0);
        double::lemma_quotient_within(one, secs, 0, 30);
        double::lemma_within_weaken(double::quotient_of(one, secs), 30, 100);
    }
    crate::format::fixed(one.over(secs), 0)
}

fn push_head(out: &mut Vec<String>, app: &App, threads: usize, vcs: Option<&str>)
    ensures
        tree::texts(final(out)@) == tree::texts(old(out)@) + head_lines(
            app.model(),
            threads,
            match vcs {
                Some(v) => Some(v@),
                None => None,
            },
        ),
{
    let ghost before = tree::texts(out@);
    text::push_line(out, "".to_string());
    text::push_line(out, "=== tcloc bench ===".to_string());
    let root = app.root.display();
    text::push_line(out, text::join("path        : ", root.as_str()));
    let name = match vcs {
        Some(v) => v,
        None => "none",
    };
    text::push_line(out, text::join("vcs         : ", name));
    let n = text::decimal(threads as u128);
    text::push_line(out, text::join("threads     : ", n.as_str()));
    text::push_line(out, "".to_string());
    proof {
        assert(tree::texts(out@) =~= before + head_lines(
            app.model(),
            threads,
            match vcs {
                Some(v) => Some(v@),
                None => None,
            },
        ));
    }
}

fn push_scan(out: &mut Vec<String>, app: &App, secs: Double)
    requires
        app.model().wf(),
        secs.wf(),
        double::within(secs, 65),
        double::beyond(secs, 30),
    ensures
        tree::texts(final(out)@) == tree::texts(old(out)@) + scan_lines(app.model(), secs),
{
    let ghost before = tree::texts(out@);
    let ghost m = app.model();
    text::push_line(out, "[scanner]".to_string());

    let t = crate::format::fmt_int(app.total_files);
    let files = text::pad_left(t.as_str(), 14);
    let t = crate::format::fmt_int(app.total_lines);
    let lines = text::pad_left(t.as_str(), 14);
    let mut s = "  files     : ".to_string();
    s.append(files.as_str());
    s.append("    lines : ");
    s.append(lines.as_str());
    text::push_line(out, s);

    let t = crate::format::fmt_bytes(app.total_bytes);
    let bytes = text::pad_left(t.as_str(), 14);
    proof {
        double::lemma_within_weaken(secs, 65, 100);
    }
    let t = crate::format::fixed(secs, 3);
    let mut s = "  bytes     : ".to_string();
    s.append(bytes.as_str());
    s.append("    elapsed: ");
    s.append(t.as_str());
    s.append(" s");
    text::push_line(out, s);

    let t = crate::format::fmt_int(rate_of(app.total_files, secs));
    let files = text::pad_left(t.as_str(), 14);
    let t = crate::format::fmt_int(rate_of(app.total_lines, secs));
    let lines = text::pad_left(t.as_str(), 10);
    let mut s = "  files/s   : ".to_string();
    s.append(files.as_str());
    s.append("    lines/s: ");
    s.append(lines.as_str());
    text::push_line(out, s);

    let t = crate::format::fmt_bytes(rate_of(app.total_bytes, secs));
    let bytes = text::pad_left(t.as_str(), 14);
    let mut s = "  bytes/s   : ".to_string();
    s.append(bytes.as_str());
    s.append("/s");
    text::push_line(out, s);

    let avg: u128 = if app.total_files > 0 {
        app.bench.total_count_nanos / app.total_files as u128
    } else {
        0
    };
    proof {
        if m.total_files > 0 {
            assert(m.bench.total_count_nanos / m.total_files as u128 <= m.bench.total_count_nanos)
                by (nonlinear_arith)
                requires
                    m.total_files > 0,
            ;
        }
    }
    let a = micros(avg);
    let b = micros(app.bench.min_count_nanos as u128);
    let c = micros(app.bench.max_count_nanos as u128);
    let mut s = "  per-file  : avg ".to_string();
    s.append(a.as_str());
    s.append(" µs  min ");
    s.append(b.as_str());
    s.append(" µs  max ");
    s.append(c.as_str());
    s.append(" µs");
    text::push_line(out, s);
    text::push_line(out, "".to_string());
    proof {
        assert(tree::texts(out@) =~= before + scan_lines(m, secs));
    }
}

fn frame_text(f: FrameStats) -> (s: String)
    requires
        f.avg.wf(),
        f.p50.wf(),
        f.p95.wf(),
        f.p99.wf(),
        f.max.wf(),
    ensures
        s@ == frame_line(f),
{
    let avg = millis(f.avg);
    let rate = fps(f.avg);
    let p50 = millis(f.p50);
    let p95 = millis(f.p95);
    let p99 = millis(f.p99);
    let max = millis(f.max);
    let mut s = "  frame     : avg ".to_string();
    s.append(avg.as_str());
    s.append(" ms (");
    s.append(rate.as_str());
    s.append(" fps)  p50 ");
    s.append(p50.as_str());
    s.append("  p95 ");
    s.append(p95.as_str());
    s.append("  p99 ");
    s.append(p99.as_str());
    s.append("  max ");
    s.append(max.as_str());
    s
}

fn push_draw(out: &mut Vec<String>, app: &App)
    requires
        app.model().wf(),
    ensures
        tree::texts(final(out)@) == tree::texts(old(out)@) + draw_lines(app.model()),
{
    let ghost before = tree::texts(out@);
    text::push_line(out, "[tui]".to_string());
    let n = text::decimal(app.bench.frames_rendered as u128);
    text::push_line(out, text::join("  frames    : ", n.as_str()));
    if let Some(f) = app.bench.frame_stats() {
        text::push_line(out, frame_text(f));
    }
    let t = millis(app.bench.last_treemap_layout);
    let iters = text::decimal(app.bench.last_treemap_iters as u128);
    let excluded = text::decimal(app.bench.last_layout_excluded as u128);
    let tiles = text::decimal(app.bench.last_tiles_drawn as u128);
    let mut s = "  layout    : ".to_string();
    s.append(t.as_str());
    s.append(" ms (iters ");
    s.append(iters.as_str());
    s.append(", excluded ");
    s.append(excluded.as_str());
    s.append(", tiles ");
    s.append(tiles.as_str());
    s.append(")");
    text::push_line(out, s);
    let t = millis(app.bench.last_halfblock);
    let mut s = "  halfblock : ".to_string();
    s.append(t.as_str());
    s.append(" ms");
    text::push_line(out, s);
    let t = millis(app.bench.last_text_overlay);
    let mut s = "  text      : ".to_string();
    s.append(t.as_str());
    s.append(" ms");
    text::push_line(out, s);
    text::push_line(out, "".to_string());
    proof {
        assert(tree::texts(out@) =~= before + draw_lines(app.model()));
    }
}

fn push_memory(out: &mut Vec<String>, a: AllocStats)
    ensures
        tree::texts(final(out)@) == tree::texts(old(out)@) + memory_lines(a),
{
    let ghost before = tree::texts(out@);
    text::push_line(out, "[memory]".to_string());
    let now = crate::format::fmt_bytes(a.current_bytes as u64);
    let most = crate::format::fmt_bytes(a.peak_bytes as u64);
    let mut s = "  resident  : current ".to_string();
    s.append(now.as_str());
    s.append("  peak ");
    s.append(most.as_str());
    text::push_line(out, s);
    let n = crate::format::fmt_int(a.allocs);
    let b = crate::format::fmt_bytes(a.bytes_allocated);
    let mut s = "  process   : ".to_string();
    s.append(n.as_str());
    s.append(" allocs, ");
    s.append(b.as_str());
    s.append(" allocated");
    text::push_line(out, s);
    text::push_line(out, "".to_string());
    proof {
        assert(tree::texts(out@) =~= before + memory_lines(a));
    }
}

/// The report of the measurements, line by line. `started` is when the scan
/// began, and `alloc` what was counted of memory since.
pub fn print(
    app: &App,
    started: Span,
    now: Span,
    threads: usize,
    vcs: Option<&str>,
    alloc: AllocStats,
) -> (out: Vec<String>)
    requires
        app.model().wf(),
        now.wf(),
    ensures
        tree::texts(out@) == report(
            app.model(),
            started,
            now,
            threads,
            match vcs {
                Some(v) => Some(v@),
                None => None,
            },
            alloc,
        ),
{
    let end = match app.finished_at {
        Some(t) => t,
        None => now,
    };
    let secs = secs_at_least(end.since(started));
    let mut out: Vec<String> = Vec::new();
    proof {
        assert(tree::texts(out@) =~= seq![]);
    }
    push_head(&mut out, app, threads, vcs);
    push_scan(&mut out, app, secs);
    push_draw(&mut out, app);
    push_memory(&mut out, alloc);
    proof {
        assert(tree::texts(out@) =~= report(
            app.model(),
            started,
            now,
            threads,
            match vcs {
                Some(v) => Some(v@),
                None => None,
            },
            alloc,
        ));
    }
    out
}

/// The scan took from its start to its end, or until now.
pub proof fn the_scan_took_until_its_end(m: AppModel, started: Span, now: Span)
    ensures
        m.finished_at is None && now.nanos >= started.nanos ==> started.nanos + scan_span(
            m,
            started,
            now,
        ).nanos == now.nanos,
        m.finished_at is Some && m.finished_at->0.nanos >= started.nanos ==> started.nanos
            + scan_span(m, started, now).nanos == m.finished_at->0.nanos,
{
}

/// In a whole number of seconds the rate is what there is, divided by them and
/// rounded down, for numbers that are counted exactly.
pub proof fn rates_are_per_second(n: nat, secs: nat)
    requires
        0 < secs < 0x20_0000_0000_0000,
        n * secs < 0x20_0000_0000_0000,
    ensures
        rate(n * secs, double::of_int(secs)) == n,
{
    let one = double::one_units();
    let all = n * secs;
    double::lemma_one_positive();
    double::lemma_of_int_exact(all);
    double::lemma_of_int_exact(secs);
    assert(n <= all) by (nonlinear_arith)
        requires
            all == n * secs,
            secs >= 1,
    ;
    double::lemma_of_int_exact(n);
    assert(secs * one > 0) by (nonlinear_arith)
        requires
            secs > 0,
            one > 0,
    ;
    assert(double::zero().units() == 0) by {
        assert(0 * pow2(0) == 0) by (nonlinear_arith);
    }
    let q = double::quotient_of(double::of_int(all), double::of_int(secs));
    assert(q == double::of_int(n)) by {
        reveal(double::quotient_of);
        reveal(double::of_int);
        double::lemma_nearest_scale(all * one, secs, one);
        double::lemma_nearest_scale(n * one, 1, secs);
        assert((n * one) * secs == all * one) by (nonlinear_arith)
            requires
                all == n * secs,
        ;
    }
    reveal(double::truncated);
    assert((n * one) / one == n) by (nonlinear_arith)
        requires
            one > 0,
    ;
}

} // verus!
