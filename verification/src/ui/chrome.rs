//! The header, the footer, the measurements line and the legend.

use vstd::arithmetic::power2::*;
use vstd::prelude::*;
use vstd::string::*;

use crate::app;
use crate::app::{App, AppModel, LangStats};
use crate::bench;
use crate::bench::BenchModel;
use crate::double;
use crate::double::Double;
use crate::grid::{Color, Rect, Style};
use crate::lang;
use crate::lang::Lang;
use crate::path::FilePath;
use crate::text;
use crate::time;
use crate::time::Span;
use crate::treemap;
use crate::ui::items;
use crate::ui::paint;
use crate::view;

verus! {

/// One character to put on the screen.
#[derive(Clone, Copy, Debug, PartialEq, Eq, Structural)]
pub struct Put {
    pub x: u16,
    pub y: u16,
    pub ch: char,
    pub style: Style,
}

/// Text in a style.
#[derive(Debug)]
pub struct Ink {
    pub text: String,
    pub style: Style,
}

/// Text in a style, as a sequence.
#[verifier::ext_equal]
pub struct InkModel {
    pub text: Seq<char>,
    pub style: Style,
}

impl Ink {
    /// The text and its style.
    pub open spec fn model(self) -> InkModel {
        InkModel { text: self.text@, style: self.style }
    }
}

/// Texts and their styles.
pub open spec fn ink_models(v: Seq<Ink>) -> Seq<InkModel> {
    v.map_values(|i: Ink| i.model())
}

/// A style that only has a text colour.
pub open spec fn colored(c: Color) -> Style {
    Style { fg: Some(c), ..paint::plain() }
}

/// Where the column stands after `n` characters from `x` on, with `width`
/// columns.
pub open spec fn col_after(x: u16, n: int, width: u16) -> u16 {
    if x >= width {
        x
    } else if x + n < width {
        (x + n) as u16
    } else {
        width
    }
}

/// Character `i` of a text that begins in column `x`.
pub open spec fn put_at(t: InkModel, i: int, x: u16, y: u16) -> Put {
    Put { x: (x + i) as u16, y, ch: t.text[i], style: t.style }
}

/// The first `n` characters of a text from column `x` on.
pub open spec fn spread(t: InkModel, n: nat, x: u16, y: u16) -> Seq<Put>
    decreases n,
{
    if n == 0 {
        seq![]
    } else {
        spread(t, (n - 1) as nat, x, y).push(put_at(t, n - 1, x, y))
    }
}

/// The characters of a text from column `x` on, up to the right edge.
pub open spec fn run(t: InkModel, x: u16, y: u16, width: u16) -> Seq<Put> {
    spread(t, (col_after(x, t.text.len() as int, width) - x) as nat, x, y)
}

/// The column after the first `k` texts.
pub open spec fn line_col(ts: Seq<InkModel>, k: int, x: u16, width: u16) -> u16
    decreases k,
{
    if k <= 0 {
        x
    } else {
        col_after(line_col(ts, k - 1, x, width), ts[k - 1].text.len() as int, width)
    }
}

/// The first `k` texts, one after the other from column `x` on.
pub open spec fn line(ts: Seq<InkModel>, k: int, x: u16, y: u16, width: u16) -> Seq<Put>
    decreases k,
{
    if k <= 0 {
        seq![]
    } else {
        line(ts, k - 1, x, y, width) + run(
            ts[k - 1],
            line_col(ts, k - 1, x, width),
            y,
            width,
        )
    }
}

/// Puts a text from column `x` on, up to the right edge. Says the next column.
pub fn put_str_clip(out: &mut Vec<Put>, width: u16, x: u16, y: u16, text: &str, style: Style) -> (r:
    u16)
    ensures
        r == col_after(x, text@.len() as int, width),
        final(out)@ == old(out)@ + run((InkModel { text: text@, style }), x, y, width),
{
    let ghost t = InkModel { text: text@, style };
    let n = text.unicode_len();
    let mut col: u16 = x;
    let mut i: usize = 0;
    while i < n && col < width
        invariant
            i <= n == text@.len(),
            col == x + i,
            x <= col,
            col <= width || col == x,
            t == (InkModel { text: text@, style }),
            out@ =~= old(out)@ + spread(t, i as nat, x, y),
        decreases n - i,
    {
        out.push(Put { x: col, y, ch: text.get_char(i), style });
        col = col + 1;
        i = i + 1;
    }
    proof {
        assert(out@ =~= old(out)@ + run(t, x, y, width));
    }
    col
}

/// Puts texts one after the other.
fn put_all(out: &mut Vec<Put>, width: u16, x: u16, y: u16, ts: &Vec<Ink>) -> (r: u16)
    ensures
        r == line_col(ink_models(ts@), ts@.len() as int, x, width),
        final(out)@ == old(out)@ + line(ink_models(ts@), ts@.len() as int, x, y, width),
{
    let ghost ms = ink_models(ts@);
    let mut col: u16 = x;
    let mut k: usize = 0;
    while k < ts.len()
        invariant
            k <= ts@.len() == ms.len(),
            ms == ink_models(ts@),
            col == line_col(ms, k as int, x, width),
            out@ =~= old(out)@ + line(ms, k as int, x, y, width),
        decreases ts@.len() - k,
    {
        proof {
            assert(ms[k as int] == ts@[k as int].model());
        }
        col = put_str_clip(out, width, col, y, ts[k].text.as_str(), ts[k].style);
        k = k + 1;
    }
    col
}

fn color_style(c: Color) -> (r: Style)
    ensures
        r == colored(c),
{
    Style { fg: Some(c), bg: None, bold: false, dim: false }
}

fn ink(text: &str, style: Style) -> (r: Ink)
    ensures
        r.model() == (InkModel { text: text@, style }),
{
    Ink { text: text.to_string(), style }
}

/// The title of a view.
pub open spec fn view_text(v: view::View) -> Seq<char> {
    match v {
        view::View::Tree => " tree "@,
        view::View::Files => " files "@,
        view::View::Nested => " nested "@,
    }
}

/// The title of a view.
pub fn view_label(v: view::View) -> (r: &'static str)
    ensures
        r@ == view_text(v),
{
    match v {
        view::View::Tree => " tree ",
        view::View::Files => " files ",
        view::View::Nested => " nested ",
    }
}

// ── header ──────────────────────────────────────────────────────────────────

/// What the program is doing.
pub open spec fn status(m: AppModel) -> InkModel {
    let (t, c) = if !m.done {
        (" SCANNING "@, Color::Yellow)
    } else if m.watching {
        (" WATCHING "@, Color::Red)
    } else {
        (" DONE "@, Color::Green)
    };
    InkModel {
        text: t,
        style: Style { fg: Some(Color::Black), bg: Some(c), bold: true, dim: false },
    }
}

/// The left part of the header: the status and what is shown.
pub open spec fn header_left(m: AppModel, home: Option<Seq<u8>>) -> Seq<InkModel> {
    seq![
        status(m),
        InkModel { text: " "@, style: paint::plain() },
        InkModel { text: app::root_text(m.root, home), style: colored(Color::White) },
        InkModel { text: app::zoom_text(m.current_path), style: colored(Color::DarkGrey) },
    ]
}

/// The totals in the header.
pub open spec fn header_stats(m: AppModel, now: Span) -> Seq<Seq<char>> {
    seq![
        crate::format::compact_text(m.total_files as nat) + " files"@,
        crate::format::compact_text(m.total_lines as nat) + " lines"@,
        crate::format::bytes_short_text(m.total_bytes as nat),
        crate::format::fixed_text(time::secs_of(m.elapsed(now)), 1) + "s"@,
    ]
}

/// The right part of the header: the totals, with dots between them.
pub open spec fn header_right(m: AppModel, now: Span) -> Seq<InkModel> {
    let s = header_stats(m, now);
    let dot = InkModel { text: " · "@, style: colored(Color::DarkGrey) };
    let grey = colored(Color::Grey);
    seq![
        InkModel { text: s[0], style: grey },
        dot,
        InkModel { text: s[1], style: grey },
        dot,
        InkModel { text: s[2], style: grey },
        dot,
        InkModel { text: s[3], style: grey },
    ]
}

/// How wide the totals are with their dots.
pub open spec fn stats_width(s: Seq<Seq<char>>) -> int {
    (s[0].len() + s[1].len() + s[2].len() + s[3].len() + 9) as int
}

/// The header. The totals stand at the right edge, if they fit there.
pub open spec fn header(m: AppModel, home: Option<Seq<u8>>, now: Span, width: u16) -> Seq<Put> {
    let left = header_left(m, home);
    let right = header_right(m, now);
    let w = treemap::narrow(stats_width(header_stats(m, now)));
    line(left, 4, 0, 0, width) + if w > width {
        seq![]
    } else {
        line(right, 7, (width - w) as u16, 0, width)
    }
}

/// The header.
pub fn render_header(app: &App, home: Option<&FilePath>, now: Span, width: u16) -> (out: Vec<Put>)
    requires
        app.model().wf(),
        now.wf(),
    ensures
        out@ == header(
            app.model(),
            match home {
                Some(h) => Some(h@),
                None => None,
            },
            now,
            width,
        ),
{
    let ghost m = app.model();
    let ghost at_home = match home {
        Some(h) => Some(h@),
        None => None,
    };
    let (word, bg) = if !app.done {
        (" SCANNING ", Color::Yellow)
    } else if app.watching {
        (" WATCHING ", Color::Red)
    } else {
        (" DONE ", Color::Green)
    };
    let (root, zoom) = app.breadcrumb_parts(home);
    let plain = Style { fg: None, bg: None, bold: false, dim: false };
    let badge = Style { fg: Some(Color::Black), bg: Some(bg), bold: true, dim: false };
    let mut left: Vec<Ink> = Vec::new();
    left.push(ink(word, badge));
    left.push(ink(" ", plain));
    left.push(Ink { text: root, style: color_style(Color::White) });
    left.push(Ink { text: zoom, style: color_style(Color::DarkGrey) });
    proof {
        assert(ink_models(left@) =~= header_left(m, at_home));
    }
    let mut out: Vec<Put> = Vec::new();
    let _ = put_all(&mut out, width, 0, 0, &left);

    let mut files = crate::format::fmt_compact(app.total_files);
    files.append(" files");
    let mut lines = crate::format::fmt_compact(app.total_lines);
    lines.append(" lines");
    let bytes = crate::format::fmt_bytes_short(app.total_bytes);
    let secs = app.elapsed_secs(now);
    proof {
        double::lemma_within_weaken(secs, 65, 100);
    }
    let mut elapsed = crate::format::fixed(secs, 1);
    elapsed.append("s");
    let ghost stats = header_stats(m, now);
    proof {
        assert(files@ == stats[0]);
        assert(lines@ == stats[1]);
        assert(bytes@ == stats[2]);
        assert(elapsed@ == stats[3]);
    }
    let total: u128 = files.as_str().unicode_len() as u128 + lines.as_str().unicode_len() as u128
        + bytes.as_str().unicode_len() as u128 + elapsed.as_str().unicode_len() as u128 + 9;
    let w: u16 = (total % 0x10000) as u16;
    let ghost so_far = out@;
    if w > width {
        proof {
            assert(out@ =~= header(m, at_home, now, width));
        }
        return out;
    }
    let grey = color_style(Color::Grey);
    let dark = color_style(Color::DarkGrey);
    let mut right: Vec<Ink> = Vec::new();
    right.push(Ink { text: files, style: grey });
    right.push(ink(" · ", dark));
    right.push(Ink { text: lines, style: grey });
    right.push(ink(" · ", dark));
    right.push(Ink { text: bytes, style: grey });
    right.push(ink(" · ", dark));
    right.push(Ink { text: elapsed, style: grey });
    proof {
        assert(ink_models(right@) =~= header_right(m, now));
    }
    let _ = put_all(&mut out, width, width - w, 0, &right);
    proof {
        assert(out@ =~= header(m, at_home, now, width));
    }
    out
}

// ── footer ──────────────────────────────────────────────────────────────────

/// The keys, and the file that was counted last.
pub open spec fn footer_texts(m: AppModel, width: u16) -> Seq<InkModel> {
    let key = colored(Color::Yellow);
    let dim = colored(Color::DarkGrey);
    let p = match m.last_path {
        Some(p) => text::shown_text(p),
        None => seq![],
    };
    let room = if width >= 2 {
        (width - 2) as nat
    } else {
        0
    };
    seq![
        InkModel { text: "hjkl/↑↓←→"@, style: key },
        InkModel { text: " select  "@, style: dim },
        InkModel { text: "⏎"@, style: key },
        InkModel { text: " zoom  "@, style: dim },
        InkModel { text: "esc"@, style: key },
        InkModel { text: " up  "@, style: dim },
        InkModel { text: "tab"@, style: key },
        InkModel { text: " view  "@, style: dim },
        InkModel { text: "o"@, style: key },
        InkModel { text: " open  "@, style: dim },
        InkModel { text: "q"@, style: key },
        InkModel { text: " quit  "@, style: dim },
        InkModel { text: crate::format::truncated_left_text(p, room), style: dim },
    ]
}

/// The footer.
pub open spec fn footer(m: AppModel, width: u16) -> Seq<Put> {
    line(footer_texts(m, width), 13, 0, 0, width)
}

/// The footer.
pub fn render_footer(app: &App, width: u16) -> (out: Vec<Put>)
    ensures
        out@ == footer(app.model(), width),
{
    let ghost m = app.model();
    let path = match &app.last_path {
        Some(p) => p.display(),
        None => String::new(),
    };
    let room: usize = if width >= 2 {
        width as usize - 2
    } else {
        0
    };
    let key = color_style(Color::Yellow);
    let dim = color_style(Color::DarkGrey);
    let mut ts: Vec<Ink> = Vec::new();
    ts.push(ink("hjkl/↑↓←→", key));
    ts.push(ink(" select  ", dim));
    ts.push(ink("⏎", key));
    ts.push(ink(" zoom  ", dim));
    ts.push(ink("esc", key));
    ts.push(ink(" up  ", dim));
    ts.push(ink("tab", key));
    ts.push(ink(" view  ", dim));
    ts.push(ink("o", key));
    ts.push(ink(" open  ", dim));
    ts.push(ink("q", key));
    ts.push(ink(" quit  ", dim));
    ts.push(Ink { text: crate::format::truncate_left(path.as_str(), room), style: dim });
    proof {
        assert(ink_models(ts@) =~= footer_texts(m, width));
    }
    let mut out: Vec<Put> = Vec::new();
    let _ = put_all(&mut out, width, 0, 0, &ts);
    proof {
        assert(out@ =~= footer(m, width));
    }
    out
}

// ── legend ──────────────────────────────────────────────────────────────────

/// How far the legend can be scrolled.
pub open spec fn max_scroll(n: int, height: u16) -> int {
    let capacity = if height >= 1 {
        height - 1
    } else {
        0
    };
    if n > capacity {
        n - capacity
    } else {
        0
    }
}

/// The state after the legend was drawn: the languages are ranked, and the
/// legend is scrolled no further than it goes.
pub open spec fn legend_app(m: AppModel, inner: Rect) -> AppModel {
    if inner.width == 0 || inner.height == 0 {
        m
    } else {
        let r = m.with_ranking();
        let most = max_scroll(r.ranked_cache.len() as int, inner.height) as usize;
        AppModel {
            legend_rect: inner,
            legend_scroll: if m.legend_scroll > most {
                most
            } else {
                m.legend_scroll
            },
            legend_max_scroll: most,
            ..r
        }
    }
}

/// The head of the legend.
pub open spec fn legend_head() -> Seq<InkModel> {
    let dim = colored(Color::DarkGrey);
    seq![
        InkModel { text: text::padded_right("language"@, 14), style: dim },
        InkModel { text: text::padded_left("files"@, 6), style: dim },
        InkModel { text: text::padded_left("lines"@, 8), style: dim },
    ]
}

/// The row of a language.
pub open spec fn legend_row(e: (Seq<char>, LangStats), total: nat) -> Seq<InkModel> {
    seq![
        InkModel { text: "██ "@, style: colored(lang::color_of(e.0)) },
        InkModel {
            text: text::padded_right(crate::format::truncated_text(e.0, 11), 11),
            style: paint::plain(),
        },
        InkModel {
            text: text::padded_left(crate::format::compact_text(e.1.files as nat), 6),
            style: paint::plain(),
        },
        InkModel {
            text: text::padded_left(crate::format::compact_text(e.1.lines as nat), 8),
            style: paint::plain(),
        },
        InkModel {
            text: text::padded_left(
                crate::format::pct_text(items::percent(e.1.lines as nat, total)),
                5,
            ),
            style: colored(Color::DarkGrey),
        },
    ]
}

/// The total that shares are taken of.
pub open spec fn legend_total(m: AppModel) -> nat {
    if m.total_lines > 1 {
        m.total_lines as nat
    } else {
        1
    }
}

/// The head of the legend and its first `k` rows.
pub open spec fn legend_rows(m: AppModel, k: int, width: u16) -> Seq<Put>
    decreases k,
{
    if k <= 0 {
        line(legend_head(), 3, 0, 0, width)
    } else {
        legend_rows(m, k - 1, width) + line(
            legend_row(m.ranked_cache[m.legend_scroll + k - 1], legend_total(m)),
            5,
            0,
            k as u16,
            width,
        )
    }
}

/// How many rows the legend shows.
pub open spec fn legend_shown(m: AppModel, height: u16) -> int {
    let left = m.ranked_cache.len() - m.legend_scroll;
    if left < height - 1 {
        left
    } else {
        height - 1
    }
}

/// The legend, for the state after it was drawn.
pub open spec fn legend(m: AppModel, inner: Rect) -> Seq<Put> {
    if inner.width == 0 || inner.height == 0 {
        seq![]
    } else {
        legend_rows(m, legend_shown(m, inner.height), inner.width)
    }
}

fn legend_row_texts(lang_: Lang, stats: LangStats, total: u64) -> (ts: Vec<Ink>)
    requires
        total > 0,
    ensures
        ink_models(ts@) == legend_row((lang_.name(), stats), total as nat),
{
    let plain = Style { fg: None, bg: None, bold: false, dim: false };
    let name = crate::format::truncate(lang_.0, 11);
    let files = crate::format::fmt_compact(stats.files);
    let lines = crate::format::fmt_compact(stats.lines);
    let share = crate::format::fmt_pct(items::pct(stats.lines, total));
    let mut ts: Vec<Ink> = Vec::new();
    ts.push(ink("██ ", color_style(lang::color(lang_))));
    ts.push(Ink { text: text::pad_right(name.as_str(), 11), style: plain });
    ts.push(Ink { text: text::pad_left(files.as_str(), 6), style: plain });
    ts.push(Ink { text: text::pad_left(lines.as_str(), 8), style: plain });
    ts.push(
        Ink { text: text::pad_left(share.as_str(), 5), style: color_style(Color::DarkGrey) },
    );
    proof {
        assert(ink_models(ts@) =~= legend_row((lang_.name(), stats), total as nat));
    }
    ts
}

/// The legend.
pub fn render_legend(app: &mut App, inner: Rect) -> (out: Vec<Put>)
    ensures
        final(app).model() == legend_app(old(app).model(), inner),
        final(app).files == old(app).files,
        out@ == legend(final(app).model(), inner),
{
    let mut out: Vec<Put> = Vec::new();
    if inner.width == 0 || inner.height == 0 {
        return out;
    }
    let ghost m0 = app.model();
    app.legend_rect = inner;
    app.ensure_ranked();
    let total: u64 = if app.total_lines > 1 {
        app.total_lines
    } else {
        1
    };
    let capacity: usize = inner.height as usize - 1;
    let n: usize = app.ranked_cache.len();
    let most: usize = if n > capacity {
        n - capacity
    } else {
        0
    };
    if app.legend_scroll > most {
        app.legend_scroll = most;
    }
    app.legend_max_scroll = most;
    let ghost m = app.model();
    proof {
        assert(m =~= legend_app(m0, inner));
    }
    let scroll: usize = app.legend_scroll;
    let dim = color_style(Color::DarkGrey);
    let mut head: Vec<Ink> = Vec::new();
    head.push(Ink { text: text::pad_right("language", 14), style: dim });
    head.push(Ink { text: text::pad_left("files", 6), style: dim });
    head.push(Ink { text: text::pad_left("lines", 8), style: dim });
    proof {
        assert(ink_models(head@) =~= legend_head());
    }
    let _ = put_all(&mut out, inner.width, 0, 0, &head);
    let left: usize = n - scroll;
    let rows: usize = if left < capacity {
        left
    } else {
        capacity
    };
    let mut k: usize = 0;
    proof {
        assert(out@ =~= legend_rows(m, 0, inner.width));
    }
    while k < rows
        invariant
            k <= rows <= 0xffff,
            rows == legend_shown(m, inner.height),
            n == app.ranked_cache@.len(),
            scroll + rows <= n,
            m == app.model(),
            m.legend_scroll == scroll,
            total == legend_total(m),
            total > 0,
            inner.height > 0,
            rows < inner.height,
            out@ =~= legend_rows(m, k as int, inner.width),
        decreases rows - k,
    {
        let (lang_, stats) = app.ranked_cache[scroll + k];
        proof {
            assert(m.ranked_cache[scroll + k] == (lang_.name(), stats));
        }
        let ts = legend_row_texts(lang_, stats, total);
        proof {
            assert(ink_models(ts@).len() == 5);
        }
        k = k + 1;
        let _ = put_all(&mut out, inner.width, 0, k as u16, &ts);
    }
    out
}

// ── measurements ────────────────────────────────────────────────────────────

/// The average frame, or no time where there was none.
pub open spec fn frame_avg(b: BenchModel) -> Span {
    match bench::frame_stats_of(b.frame_durations) {
        Some(s) => s.avg,
        None => Span { nanos: 0 },
    }
}

/// The 95th percentile of frames, or no time where there was none.
pub open spec fn frame_p95(b: BenchModel) -> Span {
    match bench::frame_stats_of(b.frame_durations) {
        Some(s) => s.p95,
        None => Span { nanos: 0 },
    }
}

/// Frames per second.
pub open spec fn fps(avg: Span) -> Double {
    if double::less(double::zero(), time::secs_of(avg)) {
        double::quotient_of(double::of_int(1), time::secs_of(avg))
    } else {
        double::zero()
    }
}

/// The time of the scan in seconds, at least a thousandth.
pub open spec fn scan_secs(m: AppModel, now: Span) -> Double {
    double::larger(time::secs_of(m.elapsed(now)), double::fraction(1, 1000))
}

/// The average time per file, in nanoseconds.
pub open spec fn avg_count(m: AppModel) -> nat {
    if m.total_files > 0 {
        (m.bench.total_count_nanos / m.total_files as u128) as nat
    } else {
        0
    }
}

/// The bytes of the scan in megabytes.
pub open spec fn megabytes(n: nat) -> Double {
    double::quotient_of(
        double::quotient_of(double::of_int(n), double::of_int(1024)),
        double::of_int(1024),
    )
}

/// How long frames took.
pub open spec fn hud_frame(m: AppModel) -> Seq<char> {
    "frame "@ + crate::format::fixed_text(time::millis_of(frame_avg(m.bench)), 2) + "ms (p95 "@
        + crate::format::fixed_text(time::millis_of(frame_p95(m.bench)), 2) + "ms, "@
        + crate::format::fixed_text(fps(frame_avg(m.bench)), 0) + " fps)  "@
}

/// How long the last input took to show.
pub open spec fn hud_input(m: AppModel) -> Seq<char> {
    "input→draw "@ + crate::format::fixed_text(
        match m.bench.last_input_latency {
            Some(s) => time::millis_of(s),
            None => double::zero(),
        },
        2,
    ) + "ms  "@
}

/// How the last layout went.
pub open spec fn hud_layout(m: AppModel) -> Seq<char> {
    "layout "@ + crate::format::fixed_text(time::millis_of(m.bench.last_treemap_layout), 2)
        + "ms iters "@ + text::digits(m.bench.last_treemap_iters as nat) + " drawn "@
        + text::digits(m.bench.last_tiles_drawn as nat) + "  "@
}

/// How long painting took.
pub open spec fn hud_paint(m: AppModel) -> Seq<char> {
    "hb "@ + crate::format::fixed_text(time::millis_of(m.bench.last_halfblock), 2) + "ms tx "@
        + crate::format::fixed_text(time::millis_of(m.bench.last_text_overlay), 2) + "ms  "@
}

/// How fast the scan is.
pub open spec fn hud_scan(m: AppModel, now: Span) -> Seq<char> {
    let e = scan_secs(m, now);
    "scan "@ + crate::format::fixed_text(
        double::quotient_of(double::of_int(m.total_files as nat), e),
        0,
    ) + " f/s "@ + crate::format::fixed_text(
        double::quotient_of(
            double::quotient_of(double::of_int(m.total_lines as nat), e),
            double::of_int(1_000_000),
        ),
        1,
    ) + " M ln/s "@ + crate::format::fixed_text(
        double::quotient_of(megabytes(m.total_bytes as nat), e),
        1,
    ) + " MB/s  per-file "@ + crate::format::fixed_text(
        double::quotient_of(double::of_int(avg_count(m)), double::of_int(1000)),
        0,
    ) + "µs  "@
}

/// What the last frame allocated.
pub open spec fn hud_alloc(m: AppModel) -> Seq<char> {
    "alloc "@ + text::digits(m.bench.last_frame_allocs as nat) + "/"@
        + crate::format::bytes_short_text(m.bench.last_frame_alloc_bytes as nat)
}

/// The measurements.
pub open spec fn hud_texts(m: AppModel, now: Span) -> Seq<InkModel> {
    seq![
        InkModel {
            text: "BENCH "@,
            style: Style { fg: Some(Color::Magenta), bg: None, bold: true, dim: false },
        },
        InkModel { text: hud_frame(m), style: colored(Color::White) },
        InkModel { text: hud_input(m), style: colored(Color::White) },
        InkModel { text: hud_layout(m), style: colored(Color::Cyan) },
        InkModel { text: hud_paint(m), style: colored(Color::Cyan) },
        InkModel { text: hud_scan(m, now), style: colored(Color::Yellow) },
        InkModel { text: hud_alloc(m), style: colored(Color::Green) },
    ]
}

/// The line of measurements.
pub open spec fn hud(m: AppModel, now: Span, width: u16) -> Seq<Put> {
    line(hud_texts(m, now), 7, 0, 0, width)
}

fn push_millis(s: &mut String, d: Span, places: u32)
    requires
        d.wf(),
        places <= 3,
    ensures
        final(s)@ == old(s)@ + crate::format::fixed_text(time::millis_of(d), places as nat),
{
    let t = crate::format::fixed(d.millis(), places);
    s.append(t.as_str());
}

/// Frames per second.
fn fps_of(avg: Span) -> (r: Double)
    requires
        avg.wf(),
    ensures
        r == fps(avg),
        r.wf(),
        double::within(r, 100),
{
    let secs = avg.secs();
    let one = Double::of(1);
    proof {
        time::lemma_secs(avg);
        lemma2_to64();
        double::lemma_of_int_within(1, 0);
        double::lemma_of_int_within(0, 0);
        double::lemma_zeros(1);
        double::lemma_within_weaken(double::zero(), 0, 100);
    }
    if Double::zero().lt(secs) {
        proof {
            reveal(double::less);
            assert(avg.nanos > 0);
            double::lemma_quotient_within(one, secs, 0, 30);
            double::lemma_within_weaken(double::quotient_of(one, secs), 30, 100);
        }
        one.over(secs)
    } else {
        Double::zero()
    }
}

/// `n` divided by seconds that are at least a thousandth.
fn per_second(x: Double, secs: Double) -> (r: Double)
    requires
        x.wf(),
        secs.wf(),
        double::within(x, 64),
        double::beyond(secs, 10),
    ensures
        r == double::quotient_of(x, secs),
        r.wf(),
        double::within(r, 74),
        double::within(r, 100),
{
    proof {
        double::lemma_quotient_within(x, secs, 64, 10);
        double::lemma_within_weaken(double::quotient_of(x, secs), 74, 100);
    }
    x.over(secs)
}

fn scan_text(app: &App, now: Span) -> (s: String)
    requires
        app.model().wf(),
        now.wf(),
    ensures
        s@ == hud_scan(app.model(), now),
{
    let ghost m = app.model();
    let secs = app.elapsed_secs(now).max(Double::fraction(1, 1000));
    proof {
        lemma2_to64();
        double::lemma_fraction_beyond(1000, 10);
        double::lemma_larger_beyond(
            time::secs_of(m.elapsed(now)),
            double::fraction(1, 1000),
            10,
        );
        double::lemma_of_within(app.total_files);
        double::lemma_of_within(app.total_lines);
        double::lemma_of_within(app.total_bytes);
        double::lemma_of_within(1024);
        double::lemma_of_within(1000);
        double::lemma_of_within(1_000_000);
    }
    let files = per_second(Double::of(app.total_files), secs);
    let lines = per_second(Double::of(app.total_lines), secs);
    let million = Double::of(1_000_000);
    proof {
        double::lemma_quotient_within(lines, million, 74, 0);
        double::lemma_within_weaken(double::quotient_of(lines, million), 74, 100);
    }
    let k = Double::of(1024);
    let b = Double::of(app.total_bytes);
    proof {
        double::lemma_quotient_within(b, k, 64, 0);
        double::lemma_quotient_within(double::quotient_of(b, k), k, 64, 0);
    }
    let mb = per_second(b.over(k).over(k), secs);
    let avg: u128 = if app.total_files > 0 {
        app.bench.total_count_nanos / app.total_files as u128
    } else {
        0
    };
    proof {
        if m.total_files > 0 {
            assert(m.bench.total_count_nanos / m.total_files as u128 <= m.bench.total_count_nanos)
                by (nonlinear_arith)
                requires
                    m.total_files > 0,
            ;
        }
        assert(pow2(94) == pow2(64) * pow2(30)) by {
            lemma_pow2_adds(64, 30);
        }
    }
    let a = Double::of_wide(avg);
    let thousand = Double::of(1000);
    proof {
        double::lemma_of_int_within(avg as nat, 94);
        double::lemma_quotient_within(a, thousand, 94, 0);
        double::lemma_within_weaken(double::quotient_of(a, thousand), 94, 100);
    }
    let t1 = crate::format::fixed(files, 0);
    let t2 = crate::format::fixed(lines.over(million), 1);
    let t3 = crate::format::fixed(mb, 1);
    let t4 = crate::format::fixed(a.over(thousand), 0);
    let mut s = "scan ".to_string();
    s.append(t1.as_str());
    s.append(" f/s ");
    s.append(t2.as_str());
    s.append(" M ln/s ");
    s.append(t3.as_str());
    s.append(" MB/s  per-file ");
    s.append(t4.as_str());
    s.append("µs  ");
    s
}

/// The line of measurements.
pub fn render_bench_hud(app: &App, now: Span, width: u16) -> (out: Vec<Put>)
    requires
        app.model().wf(),
        now.wf(),
    ensures
        out@ == hud(app.model(), now, width),
{
    let ghost m = app.model();
    let b = &app.bench;
    let (avg, p95) = match b.frame_stats() {
        Some(s) => (s.avg, s.p95),
        None => (Span::zero(), Span::zero()),
    };
    let fps = crate::format::fixed(fps_of(avg), 0);
    let mut frame = "frame ".to_string();
    push_millis(&mut frame, avg, 2);
    frame.append("ms (p95 ");
    push_millis(&mut frame, p95, 2);
    frame.append("ms, ");
    frame.append(fps.as_str());
    frame.append(" fps)  ");
    let mut input = "input→draw ".to_string();
    match b.last_input_latency {
        Some(d) => push_millis(&mut input, d, 2),
        None => {
            proof {
                lemma2_to64();
                double::lemma_of_int_within(0, 0);
                double::lemma_zeros(1);
                double::lemma_within_weaken(double::zero(), 0, 100);
            }
            let t = crate::format::fixed(Double::zero(), 2);
            input.append(t.as_str());
        },
    }
    input.append("ms  ");
    let iters = text::decimal(b.last_treemap_iters as u128);
    let drawn = text::decimal(b.last_tiles_drawn as u128);
    let mut layout = "layout ".to_string();
    push_millis(&mut layout, b.last_treemap_layout, 2);
    layout.append("ms iters ");
    layout.append(iters.as_str());
    layout.append(" drawn ");
    layout.append(drawn.as_str());
    layout.append("  ");
    let mut painting = "hb ".to_string();
    push_millis(&mut painting, b.last_halfblock, 2);
    painting.append("ms tx ");
    push_millis(&mut painting, b.last_text_overlay, 2);
    painting.append("ms  ");
    let scan = scan_text(app, now);
    let allocs = text::decimal(b.last_frame_allocs as u128);
    let bytes = crate::format::fmt_bytes_short(b.last_frame_alloc_bytes);
    let mut alloc = "alloc ".to_string();
    alloc.append(allocs.as_str());
    alloc.append("/");
    alloc.append(bytes.as_str());
    let mut ts: Vec<Ink> = Vec::new();
    ts.push(
        ink("BENCH ", Style { fg: Some(Color::Magenta), bg: None, bold: true, dim: false }),
    );
    ts.push(Ink { text: frame, style: color_style(Color::White) });
    ts.push(Ink { text: input, style: color_style(Color::White) });
    ts.push(Ink { text: layout, style: color_style(Color::Cyan) });
    ts.push(Ink { text: painting, style: color_style(Color::Cyan) });
    ts.push(Ink { text: scan, style: color_style(Color::Yellow) });
    ts.push(Ink { text: alloc, style: color_style(Color::Green) });
    proof {
        assert(ink_models(ts@) =~= hud_texts(m, now));
    }
    let mut out: Vec<Put> = Vec::new();
    let _ = put_all(&mut out, width, 0, 0, &ts);
    proof {
        assert(out@ =~= hud(m, now, width));
    }
    out
}

// ── laws ────────────────────────────────────────────────────────────────────

/// Whether characters lie in rows `top` and below, above `bottom`, and left of
/// the right edge.
pub open spec fn in_area(puts: Seq<Put>, width: u16, top: int, bottom: int) -> bool {
    forall|i: int|
        0 <= i < puts.len() ==> (#[trigger] puts[i]).x < width && top <= puts[i].y < bottom
}

proof fn lemma_spread_in_area(t: InkModel, n: nat, x: u16, y: u16, width: u16)
    requires
        n > 0 ==> x + n <= width,
    ensures
        in_area(spread(t, n, x, y), width, y as int, y + 1),
    decreases n,
{
    if n > 0 {
        lemma_spread_in_area(t, (n - 1) as nat, x, y, width);
    }
}

/// A line of texts stays in its row, and left of the right edge.
pub proof fn lines_stay_in_their_row(ts: Seq<InkModel>, k: int, x: u16, y: u16, width: u16)
    ensures
        in_area(line(ts, k, x, y, width), width, y as int, y + 1),
    decreases k,
{
    if k > 0 {
        lines_stay_in_their_row(ts, k - 1, x, y, width);
        let col = line_col(ts, k - 1, x, width);
        let n = (col_after(col, ts[k - 1].text.len() as int, width) - col) as nat;
        lemma_spread_in_area(ts[k - 1], n, col, y, width);
    }
}

/// The header, the footer and the line of measurements take one row each and
/// never go beyond the right edge.
pub proof fn bars_stay_in_their_row(m: AppModel, home: Option<Seq<u8>>, now: Span, width: u16)
    ensures
        in_area(header(m, home, now, width), width, 0, 1),
        in_area(footer(m, width), width, 0, 1),
        in_area(hud(m, now, width), width, 0, 1),
{
    let right = header_right(m, now);
    let w = treemap::narrow(stats_width(header_stats(m, now)));
    let left = header_left(m, home);
    lines_stay_in_their_row(left, left.len() as int, 0, 0, width);
    if w <= width {
        lines_stay_in_their_row(right, right.len() as int, (width - w) as u16, 0, width);
    }
    lines_stay_in_their_row(footer_texts(m, width), footer_texts(m, width).len() as int, 0, 0, width);
    lines_stay_in_their_row(hud_texts(m, now), hud_texts(m, now).len() as int, 0, 0, width);
}

proof fn lemma_legend_rows_in_area(m: AppModel, k: int, width: u16)
    requires
        0 <= k < 0xffff,
    ensures
        in_area(legend_rows(m, k, width), width, 0, k + 1),
    decreases k,
{
    if k > 0 {
        lemma_legend_rows_in_area(m, k - 1, width);
        let row = legend_row(m.ranked_cache[m.legend_scroll + k - 1], legend_total(m));
        lines_stay_in_their_row(row, 5, 0, k as u16, width);
    } else {
        lines_stay_in_their_row(legend_head(), 3, 0, 0, width);
    }
}

/// The legend stays in its area, is scrolled no further than it goes, and as
/// long as there are languages to show it leaves no row empty.
pub proof fn legend_stays_in_its_area(m: AppModel, inner: Rect)
    requires
        m.with_ranking().ranked_cache.len() <= usize::MAX,
    ensures
        in_area(legend(legend_app(m, inner), inner), inner.width, 0, inner.height as int),
        inner.width > 0 && inner.height > 0 ==> {
            let now = legend_app(m, inner);
            let n = now.ranked_cache.len() as int;
            &&& now.legend_scroll <= now.legend_max_scroll
            &&& now.legend_scroll + legend_shown(now, inner.height) <= n
            &&& legend_shown(now, inner.height) == if n < inner.height - 1 {
                n
            } else {
                inner.height - 1
            }
        },
{
    if inner.width > 0 && inner.height > 0 {
        let now = legend_app(m, inner);
        lemma_legend_rows_in_area(now, legend_shown(now, inner.height), inner.width);
    }
}

/// Whether a text stands in row `y` from column `x` on, as far as there are
/// columns.
pub open spec fn stands_at(
    puts: Seq<Put>,
    s: Seq<char>,
    style: Style,
    x: int,
    y: int,
    width: u16,
) -> bool {
    forall|i: int|
        0 <= i < s.len() && x + i < width ==> puts.contains(
            Put { x: (x + i) as u16, y: y as u16, ch: #[trigger] s[i], style },
        )
}

/// How long the first `k` texts are.
pub open spec fn length_of(ts: Seq<InkModel>, k: int) -> int
    decreases k,
{
    if k <= 0 {
        0
    } else {
        length_of(ts, k - 1) + ts[k - 1].text.len()
    }
}

proof fn lemma_line_col(ts: Seq<InkModel>, k: int, x: u16, width: u16)
    requires
        x <= width,
    ensures
        length_of(ts, k) >= 0,
        line_col(ts, k, x, width) == if x + length_of(ts, k) < width {
            x + length_of(ts, k)
        } else {
            width as int
        },
    decreases k,
{
    if k > 0 {
        lemma_line_col(ts, k - 1, x, width);
    }
}

proof fn lemma_spread_has(t: InkModel, n: nat, x: u16, y: u16, i: int)
    requires
        0 <= i < n,
    ensures
        spread(t, n, x, y).contains(put_at(t, i, x, y)),
    decreases n,
{
    let s = spread(t, n, x, y);
    if i == n - 1 {
        assert(s[s.len() - 1] == put_at(t, i, x, y));
    } else {
        lemma_spread_has(t, (n - 1) as nat, x, y, i);
        let before = spread(t, (n - 1) as nat, x, y);
        let j = choose|j: int| 0 <= j < before.len() && before[j] == put_at(t, i, x, y);
        assert(s[j] == before[j]);
    }
}

proof fn lemma_contains_more(a: Seq<Put>, b: Seq<Put>, p: Put)
    ensures
        a.contains(p) ==> (a + b).contains(p),
        b.contains(p) ==> (a + b).contains(p),
{
    if a.contains(p) {
        let j = choose|j: int| 0 <= j < a.len() && a[j] == p;
        assert((a + b)[j] == p);
    }
    if b.contains(p) {
        let j = choose|j: int| 0 <= j < b.len() && b[j] == p;
        assert((a + b)[a.len() + j] == p);
    }
}

proof fn lemma_stands_more(
    a: Seq<Put>,
    b: Seq<Put>,
    s: Seq<char>,
    style: Style,
    x: int,
    y: int,
    width: u16,
)
    ensures
        stands_at(a, s, style, x, y, width) ==> stands_at(a + b, s, style, x, y, width),
        stands_at(b, s, style, x, y, width) ==> stands_at(a + b, s, style, x, y, width),
{
    assert forall|i: int| 0 <= i < s.len() && x + i < width implies ({
        let p = Put { x: (x + i) as u16, y: y as u16, ch: #[trigger] s[i], style };
        (a.contains(p) || b.contains(p)) ==> (a + b).contains(p)
    }) by {
        lemma_contains_more(
            a,
            b,
            Put { x: (x + i) as u16, y: y as u16, ch: s[i], style },
        );
    }
}

/// The texts of a line stand one after the other, each with its style, up to
/// the right edge.
pub proof fn texts_stand_one_after_the_other(
    ts: Seq<InkModel>,
    k: int,
    x: u16,
    y: u16,
    width: u16,
    j: int,
)
    requires
        0 <= j < k <= ts.len(),
        x <= width,
    ensures
        stands_at(
            line(ts, k, x, y, width),
            ts[j].text,
            ts[j].style,
            x + length_of(ts, j),
            y as int,
            width,
        ),
    decreases k,
{
    let t = ts[j];
    let start = x + length_of(ts, j);
    let before = line(ts, k - 1, x, y, width);
    let rest = run(ts[k - 1], line_col(ts, k - 1, x, width), y, width);
    if j < k - 1 {
        texts_stand_one_after_the_other(ts, k - 1, x, y, width, j);
    } else {
        lemma_line_col(ts, j, x, width);
        assert forall|i: int| 0 <= i < t.text.len() && start + i < width implies rest.contains(
            Put { x: (start + i) as u16, y, ch: #[trigger] t.text[i], style: t.style },
        ) by {
            let c = line_col(ts, j, x, width);
            lemma_spread_has(t, (col_after(c, t.text.len() as int, width) - c) as nat, c, y, i);
        }
    }
    lemma_stands_more(before, rest, t.text, t.style, start, y as int, width);
}

proof fn lemma_legend_row(
    m: AppModel,
    n: int,
    width: u16,
    k: int,
    s: Seq<char>,
    style: Style,
    x: int,
)
    requires
        1 <= k <= n,
        stands_at(
            line(
                legend_row(m.ranked_cache[m.legend_scroll + k - 1], legend_total(m)),
                5,
                0,
                k as u16,
                width,
            ),
            s,
            style,
            x,
            k,
            width,
        ),
    ensures
        stands_at(legend_rows(m, n, width), s, style, x, k, width),
    decreases n,
{
    let before = legend_rows(m, n - 1, width);
    let now = line(
        legend_row(m.ranked_cache[m.legend_scroll + n - 1], legend_total(m)),
        5,
        0,
        n as u16,
        width,
    );
    if k < n {
        lemma_legend_row(m, n - 1, width, k, s, style, x);
    }
    lemma_stands_more(before, now, s, style, x, k, width);
}

/// A text at the end of its field.
proof fn lemma_end_of_field(
    puts: Seq<Put>,
    s: Seq<char>,
    w: nat,
    style: Style,
    x: int,
    y: int,
    width: u16,
)
    requires
        s.len() <= w,
        stands_at(puts, text::padded_left(s, w), style, x, y, width),
    ensures
        stands_at(puts, s, style, x + w - s.len(), y, width),
{
    let p = text::padded_left(s, w);
    let off = w - s.len();
    assert forall|i: int| 0 <= i < s.len() && x + off + i < width implies puts.contains(
        Put { x: (x + off + i) as u16, y: y as u16, ch: #[trigger] s[i], style },
    ) by {
        assert(p[off + i] == s[i]);
    }
}

/// The legend has a row for each language from the scroll position on, in the
/// order of the ranking, as far as there is room: a mark in the language's
/// colour, its name, its files, its lines, and its share.
#[verifier::rlimit(40)]
pub proof fn the_legend_lists_the_languages(m: AppModel, inner: Rect, k: int)
    requires
        inner.width > 0,
        1 <= k < inner.height,
        m.legend_scroll + k <= m.ranked_cache.len(),
    ensures
        ({
            let l = m.ranked_cache[m.legend_scroll + k - 1];
            let files = crate::format::compact_text(l.1.files as nat);
            let lines = crate::format::compact_text(l.1.lines as nat);
            let share = crate::format::pct_text(
                items::percent(
                    l.1.lines as nat,
                    if m.total_lines == 0 {
                        1
                    } else {
                        m.total_lines as nat
                    },
                ),
            );
            let puts = legend(m, inner);
            let w = inner.width;
            let grey = Style { fg: Some(Color::DarkGrey), bg: None, bold: false, dim: false };
            let plain = Style { fg: None, bg: None, bold: false, dim: false };
            let mark = Style {
                fg: Some(lang::color_of(l.0)),
                bg: None,
                bold: false,
                dim: false,
            };
            &&& stands_at(puts, seq!['█', '█'], mark, 0, k, w)
            &&& l.0.len() <= 11 ==> stands_at(puts, l.0, plain, 3, k, w)
            &&& l.0.len() > 11 ==> stands_at(puts, l.0.take(10).push('…'), plain, 3, k, w)
            &&& files.len() <= 6 ==> stands_at(puts, files, plain, 20 - files.len(), k, w)
            &&& lines.len() <= 8 && files.len() <= 6 ==> stands_at(
                puts,
                lines,
                plain,
                28 - lines.len(),
                k,
                w,
            )
            &&& share.len() <= 5 && lines.len() <= 8 && files.len() <= 6 ==> stands_at(
                puts,
                share,
                grey,
                33 - share.len(),
                k,
                w,
            )
        }),
{
    let l = m.ranked_cache[m.legend_scroll + k - 1];
    let w = inner.width;
    let n = legend_shown(m, inner.height);
    let ts = legend_row(l, legend_total(m));
    let row = line(ts, 5, 0, k as u16, w);
    let puts = legend(m, inner);
    reveal_strlit("██ ");
    assert(length_of(ts, 0) == 0);
    assert(length_of(ts, 1) == 3);
    assert(length_of(ts, 2) == 14);
    assert(length_of(ts, 3) == 14 + ts[2].text.len());
    assert(length_of(ts, 4) == 14 + ts[2].text.len() + ts[3].text.len());
    assert forall|j: int| 0 <= j < 5 implies stands_at(
        puts,
        #[trigger] ts[j].text,
        ts[j].style,
        length_of(ts, j),
        k,
        w,
    ) by {
        texts_stand_one_after_the_other(ts, 5, 0, k as u16, w, j);
        lemma_legend_row(m, n, w, k, ts[j].text, ts[j].style, length_of(ts, j));
    }
    assert(stands_at(puts, ts[0].text, ts[0].style, 0, k, w));
    let mark = seq!['█', '█'];
    assert(mark[0] == ts[0].text[0] && mark[1] == ts[0].text[1]);
    assert forall|i: int| 0 <= i < mark.len() && 0 + i < w implies puts.contains(
        Put { x: (0 + i) as u16, y: k as u16, ch: #[trigger] mark[i], style: ts[0].style },
    ) by {
        assert(mark[i] == ts[0].text[i]);
    }
    let name = crate::format::truncated_text(l.0, 11);
    let field = ts[1].text;
    assert(stands_at(puts, field, ts[1].style, 3, k, w));
    assert forall|i: int| 0 <= i < name.len() && 3 + i < w implies puts.contains(
        Put { x: (3 + i) as u16, y: k as u16, ch: #[trigger] name[i], style: ts[1].style },
    ) by {
        assert(field[i] == name[i]);
    }
    assert(stands_at(puts, name, ts[1].style, 3, k, w));
    if l.0.len() > 11 {
        assert(name =~= l.0.take(10).push('…'));
    }
    let files = crate::format::compact_text(l.1.files as nat);
    let lines = crate::format::compact_text(l.1.lines as nat);
    let share = crate::format::pct_text(items::percent(l.1.lines as nat, legend_total(m)));
    if files.len() <= 6 {
        assert(stands_at(puts, ts[2].text, ts[2].style, 14, k, w));
        lemma_end_of_field(puts, files, 6, ts[2].style, 14, k, w);
        if lines.len() <= 8 {
            assert(stands_at(puts, ts[3].text, ts[3].style, 20, k, w));
            lemma_end_of_field(puts, lines, 8, ts[3].style, 20, k, w);
            if share.len() <= 5 {
                assert(stands_at(puts, ts[4].text, ts[4].style, 28, k, w));
                lemma_end_of_field(puts, share, 5, ts[4].style, 28, k, w);
            }
        }
    }
}

/// Drawing the legend ranks the languages again where that is due, and scrolls
/// back only so far that the rows are filled.
pub proof fn the_legend_is_scrolled_within_its_rows(m: AppModel, inner: Rect)
    requires
        inner.width > 0,
        inner.height > 0,
    ensures
        ({
            let now = legend_app(m, inner);
            let n = now.ranked_cache.len();
            &&& now == (AppModel {
                legend_rect: inner,
                legend_scroll: now.legend_scroll,
                legend_max_scroll: now.legend_max_scroll,
                ..m.with_ranking()
            })
            &&& now.legend_scroll <= m.legend_scroll
            &&& n <= usize::MAX ==> {
                &&& m.legend_scroll + inner.height - 1 <= n ==> now.legend_scroll
                    == m.legend_scroll
                &&& m.legend_scroll + inner.height - 1 > n >= inner.height - 1
                    ==> now.legend_scroll + inner.height - 1 == n
                &&& n < inner.height - 1 ==> now.legend_scroll == 0
                &&& n >= inner.height - 1 ==> now.legend_max_scroll == n - (inner.height - 1)
                &&& n < inner.height - 1 ==> now.legend_max_scroll == 0
            }
        }),
{
}

/// The header starts with what the program is doing and the folder that is
/// shown, and ends at the right edge with the totals, if there is room for them.
#[verifier::rlimit(40)]
pub proof fn the_header_shows_the_totals(
    m: AppModel,
    home: Option<Seq<u8>>,
    now: Span,
    width: u16,
)
    ensures
        ({
            let puts = header(m, home, now, width);
            let files = crate::format::compact_text(m.total_files as nat) + " files"@;
            let lines = crate::format::compact_text(m.total_lines as nat) + " lines"@;
            let bytes = crate::format::bytes_short_text(m.total_bytes as nat);
            let secs = crate::format::fixed_text(time::secs_of(m.elapsed(now)), 1) + "s"@;
            let word = if !m.done {
                " SCANNING "@
            } else if m.watching {
                " WATCHING "@
            } else {
                " DONE "@
            };
            let lamp = Style {
                fg: Some(Color::Black),
                bg: Some(
                    if !m.done {
                        Color::Yellow
                    } else if m.watching {
                        Color::Red
                    } else {
                        Color::Green
                    },
                ),
                bold: true,
                dim: false,
            };
            let white = Style { fg: Some(Color::White), bg: None, bold: false, dim: false };
            let dark = Style { fg: Some(Color::DarkGrey), bg: None, bold: false, dim: false };
            let grey = Style { fg: Some(Color::Grey), bg: None, bold: false, dim: false };
            let root = app::root_text(m.root, home);
            let all = secs.len() + bytes.len() + lines.len() + files.len() + 9;
            &&& stands_at(puts, word, lamp, 0, 0, width)
            &&& stands_at(puts, root, white, 1 + word.len() as int, 0, width)
            &&& stands_at(
                puts,
                app::zoom_text(m.current_path),
                dark,
                1 + word.len() as int + root.len(),
                0,
                width,
            )
            &&& all <= width ==> {
                &&& stands_at(puts, secs, grey, width - secs.len(), 0, width)
                &&& stands_at(puts, bytes, grey, width - secs.len() - 3 - bytes.len(), 0, width)
                &&& stands_at(
                    puts,
                    lines,
                    grey,
                    width - secs.len() - 6 - bytes.len() - lines.len(),
                    0,
                    width,
                )
                &&& stands_at(puts, files, grey, width - all, 0, width)
            }
        }),
{
    let puts = header(m, home, now, width);
    let left = header_left(m, home);
    let right = header_right(m, now);
    let s = header_stats(m, now);
    let w = treemap::narrow(stats_width(s));
    let a = line(left, 4, 0, 0, width);
    let b = if w > width {
        seq![]
    } else {
        line(right, 7, (width - w) as u16, 0, width)
    };
    assert(puts == a + b);
    reveal_strlit(" ");
    reveal_strlit(" · ");
    assert(length_of(left, 0) == 0);
    assert(length_of(left, 1) == left[0].text.len());
    assert(length_of(left, 2) == left[0].text.len() + 1);
    assert(length_of(left, 3) == left[0].text.len() + 1 + left[2].text.len());
    assert forall|j: int| 0 <= j < 4 implies stands_at(
        puts,
        #[trigger] left[j].text,
        left[j].style,
        length_of(left, j),
        0,
        width,
    ) by {
        texts_stand_one_after_the_other(left, 4, 0, 0, width, j);
        lemma_stands_more(a, b, left[j].text, left[j].style, length_of(left, j), 0, width);
    }
    assert(stands_at(puts, left[0].text, left[0].style, 0, 0, width));
    assert(stands_at(puts, left[2].text, left[2].style, 1 + left[0].text.len() as int, 0, width));
    assert(stands_at(
        puts,
        left[3].text,
        left[3].style,
        1 + left[0].text.len() as int + left[2].text.len(),
        0,
        width,
    ));
    if stats_width(s) <= width {
        assert(w == stats_width(s));
        let x = (width - w) as u16;
        assert(length_of(right, 0) == 0);
        assert(length_of(right, 1) == s[0].len());
        assert(length_of(right, 2) == s[0].len() + 3);
        assert(length_of(right, 3) == s[0].len() + 3 + s[1].len());
        assert(length_of(right, 4) == s[0].len() + 6 + s[1].len());
        assert(length_of(right, 5) == s[0].len() + 6 + s[1].len() + s[2].len());
        assert(length_of(right, 6) == s[0].len() + 9 + s[1].len() + s[2].len());
        assert forall|j: int| 0 <= j < 7 implies stands_at(
            puts,
            #[trigger] right[j].text,
            right[j].style,
            x + length_of(right, j),
            0,
            width,
        ) by {
            texts_stand_one_after_the_other(right, 7, x, 0, width, j);
            lemma_stands_more(
                a,
                b,
                right[j].text,
                right[j].style,
                x + length_of(right, j),
                0,
                width,
            );
        }
        assert(stands_at(puts, right[0].text, right[0].style, x + 0, 0, width));
        assert(stands_at(puts, right[2].text, right[2].style, x + s[0].len() + 3, 0, width));
        assert(stands_at(
            puts,
            right[4].text,
            right[4].style,
            x + s[0].len() + 6 + s[1].len(),
            0,
            width,
        ));
        assert(stands_at(
            puts,
            right[6].text,
            right[6].style,
            x + s[0].len() + 9 + s[1].len() + s[2].len(),
            0,
            width,
        ));
    }
}

/// The footer ends with the file that was counted last: all of its path where
/// it is shorter than the footer by two columns, else the end of it.
#[verifier::rlimit(40)]
pub proof fn the_footer_shows_the_last_file(m: AppModel, width: u16, p: Seq<u8>)
    requires
        m.last_path == Some(p),
        width >= 4,
    ensures
        ({
            let t = text::shown_text(p);
            let dark = Style { fg: Some(Color::DarkGrey), bg: None, bold: false, dim: false };
            &&& t.len() <= width - 2 ==> stands_at(footer(m, width), t, dark, 60, 0, width)
            &&& t.len() > width - 2 ==> stands_at(
                footer(m, width),
                seq!['…'] + t.skip(t.len() - (width - 3)),
                dark,
                60,
                0,
                width,
            )
        }),
{
    let ts = footer_texts(m, width);
    reveal_strlit("hjkl/↑↓←→");
    reveal_strlit(" select  ");
    reveal_strlit("⏎");
    reveal_strlit(" zoom  ");
    reveal_strlit("esc");
    reveal_strlit(" up  ");
    reveal_strlit("tab");
    reveal_strlit(" view  ");
    reveal_strlit("o");
    reveal_strlit(" open  ");
    reveal_strlit("q");
    reveal_strlit(" quit  ");
    assert(length_of(ts, 12) == 60) by {
        reveal_with_fuel(length_of, 13);
    }
    texts_stand_one_after_the_other(ts, 13, 0, 0, width, 12);
}

} // verus!
