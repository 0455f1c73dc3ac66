//! When to draw, how long to wait, and what to do with what was reported.

use vstd::prelude::*;

use crate::alloc_track;
use crate::alloc_track::AllocStats;
use crate::app;
use crate::app::{App, AppModel};
use crate::bench::BenchModel;
use crate::input::EventOutcome;
use crate::lang::Lang;
use crate::ledger::FileRecord;
use crate::path;
use crate::path::FilePath;
use crate::scanner::{ScanEvent, Stamp};
use crate::time::{Span, MAX_NANOS};
use crate::tree;
use crate::tree::{FileModel, NodeModel};
use crate::watcher::WatchEvent;

verus! {

/// The nanoseconds of a millisecond.
pub const NANOS_PER_MILLI: u128 = 1_000_000;

/// The shortest time between two frames, in nanoseconds.
pub const SHORTEST_INTERVAL: u128 = 33_000_000;

/// The longest time between two frames, in nanoseconds.
pub const LONGEST_INTERVAL: u128 = 200_000_000;

/// How long reports of the scan are taken in before a frame is drawn, in
/// nanoseconds.
pub const DRAIN_BUDGET: u128 = 8_000_000;

/// What the loop of the program remembers. Moments are spans since its start.
#[derive(Debug, Clone, Copy, PartialEq, Eq, Structural)]
pub struct Session {
    pub interval: Span,
    pub last_draw: Option<Span>,
    pub input_dirty: bool,
    pub scan_dirty: bool,
    pub done_at: Option<Span>,
    pub pending_input_at: Option<Span>,
    pub watcher_tried: bool,
}

/// How much later a moment is than another, or no time.
pub open spec fn passed(now: Span, since: Span) -> u128 {
    if now.nanos > since.nanos {
        (now.nanos - since.nanos) as u128
    } else {
        0
    }
}

/// The time between frames after one took some time: a fifth more, but not below
/// the shortest and not above the longest. The multiple saturates.
pub open spec fn interval_after(took: Span) -> Span {
    let six = if took.nanos * 6 > MAX_NANOS {
        MAX_NANOS as int
    } else {
        took.nanos * 6
    };
    let n = six / 5;
    Span {
        nanos: if n < SHORTEST_INTERVAL {
            SHORTEST_INTERVAL
        } else if n > LONGEST_INTERVAL {
            LONGEST_INTERVAL
        } else {
            n as u128
        },
    }
}

/// The time between frames after one took some time.
pub fn frame_interval(took: Span) -> (r: Span)
    ensures
        r == interval_after(took),
        SHORTEST_INTERVAL <= r.nanos <= LONGEST_INTERVAL,
{
    if took.nanos > LONGEST_INTERVAL {
        return Span { nanos: LONGEST_INTERVAL };
    }
    let n: u128 = took.nanos * 6 / 5;
    Span {
        nanos: if n < SHORTEST_INTERVAL {
            SHORTEST_INTERVAL
        } else if n > LONGEST_INTERVAL {
            LONGEST_INTERVAL
        } else {
            n
        },
    }
}

impl Session {
    /// The loop at its start: the first frame is due.
    pub open spec fn initial() -> Session {
        Session {
            interval: Span { nanos: SHORTEST_INTERVAL },
            last_draw: None,
            input_dirty: true,
            scan_dirty: false,
            done_at: None,
            pending_input_at: None,
            watcher_tried: false,
        }
    }

    /// How long ago the last frame was drawn. Before the first one it is as if
    /// one was just due.
    pub open spec fn since_draw(self, now: Span) -> u128 {
        match self.last_draw {
            Some(t) => passed(now, t),
            None => self.interval.nanos,
        }
    }

    /// Whether a frame is to be drawn: at once after input, and otherwise when
    /// something was reported and the time is up.
    pub open spec fn is_due(self, now: Span) -> bool {
        self.input_dirty || (self.scan_dirty && self.since_draw(now) >= self.interval.nanos)
    }

    /// How long to wait for input: until the next frame, and a millisecond at
    /// least.
    pub open spec fn waiting(self, now: Span) -> u128 {
        let rest = self.interval.nanos - self.since_draw(now);
        if rest < NANOS_PER_MILLI {
            NANOS_PER_MILLI
        } else {
            rest as u128
        }
    }

    /// Whether the program ends by itself: so many milliseconds after the scan
    /// ended.
    pub open spec fn ends(self, after_ms: Option<u64>, now: Span) -> bool {
        after_ms is Some && self.done_at is Some && passed(now, self.done_at->0) >= after_ms->0
            * NANOS_PER_MILLI
    }

    /// The loop at its start.
    pub fn new() -> (r: Session)
        ensures
            r == Session::initial(),
    {
        Session {
            interval: Span { nanos: SHORTEST_INTERVAL },
            last_draw: None,
            input_dirty: true,
            scan_dirty: false,
            done_at: None,
            pending_input_at: None,
            watcher_tried: false,
        }
    }

    fn elapsed_since_draw(&self, now: Span) -> (r: u128)
        ensures
            r == self.since_draw(now),
    {
        match self.last_draw {
            Some(t) => now.since(t).nanos,
            None => self.interval.nanos,
        }
    }

    /// Whether a frame is to be drawn.
    pub fn due(&self, now: Span) -> (r: bool)
        ensures
            r == self.is_due(now),
    {
        self.input_dirty || (self.scan_dirty && self.elapsed_since_draw(now) >= self.interval.nanos)
    }

    /// How long to wait for input.
    pub fn wait(&self, now: Span) -> (r: Span)
        ensures
            r.nanos == self.waiting(now),
    {
        let gone = self.elapsed_since_draw(now);
        if self.interval.nanos < gone || self.interval.nanos - gone < NANOS_PER_MILLI {
            Span { nanos: NANOS_PER_MILLI }
        } else {
            Span { nanos: self.interval.nanos - gone }
        }
    }

    /// Whether the program ends by itself.
    pub fn exits(&self, after_ms: Option<u64>, now: Span) -> (r: bool)
        ensures
            r == self.ends(after_ms, now),
    {
        match (after_ms, self.done_at) {
            (Some(ms), Some(t)) => now.since(t).nanos >= ms as u128 * NANOS_PER_MILLI,
            _ => false,
        }
    }

    /// Remembers that the scan ended; only the first end counts.
    pub fn scan_done(&mut self, now: Span)
        ensures
            *final(self) == (Session {
                done_at: if old(self).done_at is None {
                    Some(now)
                } else {
                    old(self).done_at
                },
                ..*old(self)
            }),
    {
        if self.done_at.is_none() {
            self.done_at = Some(now);
        }
    }

    /// Remembers whether the scan reported something. Says whether the watcher
    /// is to be started: once, when the scan has ended.
    pub fn scan_drained(&mut self, changed: bool, done: bool, watch: bool) -> (r: bool)
        ensures
            r == (changed && watch && done && !old(self).watcher_tried),
            *final(self) == (Session {
                scan_dirty: old(self).scan_dirty || changed,
                watcher_tried: old(self).watcher_tried || r,
                ..*old(self)
            }),
    {
        if changed {
            self.scan_dirty = true;
        }
        let start = changed && watch && done && !self.watcher_tried;
        if start {
            self.watcher_tried = true;
        }
        start
    }

    /// Remembers whether the watcher reported something.
    pub fn watch_drained(&mut self, changed: bool)
        ensures
            *final(self) == (Session {
                scan_dirty: old(self).scan_dirty || changed,
                ..*old(self)
            }),
    {
        if changed {
            self.scan_dirty = true;
        }
    }

    /// Takes the moment of the input that the frame to be drawn shows.
    pub fn begin_draw(&mut self) -> (r: Option<Span>)
        ensures
            r == old(self).pending_input_at,
            *final(self) == (Session { pending_input_at: None, ..*old(self) }),
    {
        let r = self.pending_input_at;
        self.pending_input_at = None;
        r
    }

    /// Remembers that a frame was drawn.
    pub fn drew(&mut self, took: Span, now: Span)
        ensures
            *final(self) == (Session {
                interval: interval_after(took),
                last_draw: Some(now),
                input_dirty: false,
                scan_dirty: false,
                ..*old(self)
            }),
    {
        self.interval = frame_interval(took);
        self.last_draw = Some(now);
        self.input_dirty = false;
        self.scan_dirty = false;
    }

    /// Remembers what an event led to. Of several events the first that asks for
    /// a frame is the one whose latency is measured.
    pub fn handled(&mut self, outcome: &EventOutcome, received_at: Span)
        ensures
            *final(self) == (match *outcome {
                EventOutcome::Redraw => Session {
                    input_dirty: true,
                    pending_input_at: if old(self).pending_input_at is None {
                        Some(received_at)
                    } else {
                        old(self).pending_input_at
                    },
                    ..*old(self)
                },
                EventOutcome::OpenEditor(_) => Session { input_dirty: true, ..*old(self) },
                _ => *old(self),
            }),
    {
        match outcome {
            EventOutcome::Redraw => {
                self.input_dirty = true;
                if self.pending_input_at.is_none() {
                    self.pending_input_at = Some(received_at);
                }
            },
            EventOutcome::OpenEditor(_) => {
                self.input_dirty = true;
            },
            _ => {},
        }
    }
}

/// Whether the reports of the scan were taken in for long enough.
pub fn budget_spent(started: Span, now: Span) -> (r: bool)
    ensures
        r == (passed(now, started) > DRAIN_BUDGET),
{
    now.since(started).nanos > DRAIN_BUDGET
}

/// Whether a report of the scan can be counted.
pub open spec fn scan_fits(m: AppModel, ev: ScanEvent) -> bool {
    match ev {
        ScanEvent::File { lines, bytes, count_nanos, .. } => m.has_room(lines, bytes)
            && m.bench.fits(count_nanos),
        ScanEvent::Done { at } => at.wf(),
    }
}

/// The state after a report of the scan.
pub open spec fn scan_applied(m: AppModel, ev: ScanEvent) -> AppModel {
    match ev {
        ScanEvent::File { path, lang, lines, bytes, count_nanos, .. } => m.recorded(
            path@,
            FileRecord { lang, lines, bytes },
            count_nanos,
        ),
        ScanEvent::Done { at } => m.finished(at),
    }
}

/// Takes in a report of the scan.
pub fn apply_scan(app: &mut App, ev: ScanEvent)
    requires
        old(app).wf(),
        scan_fits(old(app).model(), ev),
    ensures
        final(app).model() == scan_applied(old(app).model(), ev),
        final(app).wf(),
{
    match ev {
        ScanEvent::File { path, lang, lines, bytes, count_nanos, .. } => {
            app.record(path, lang, lines, bytes, count_nanos);
        },
        ScanEvent::Done { at } => {
            app.mark_done(at);
        },
    }
}

/// Whether a report of the watcher can be counted.
pub open spec fn watch_fits(m: AppModel, ev: WatchEvent) -> bool {
    match ev {
        WatchEvent::Upsert { path, lines, bytes, .. } => m.forgotten(path@).has_room(lines, bytes),
        _ => true,
    }
}

/// The state after a report of the watcher.
pub open spec fn watch_applied(m: AppModel, ev: WatchEvent) -> AppModel {
    match ev {
        WatchEvent::Upsert { path, lang, lines, bytes, .. } => m.upserted(
            path@,
            FileRecord { lang, lines, bytes },
        ),
        WatchEvent::Remove { path } => m.forgotten(path@),
        WatchEvent::BatchDone => m,
    }
}

/// Takes in a report of the watcher. Says whether it was about a file; at the
/// end of a batch a frame can be drawn.
pub fn apply_watch(app: &mut App, ev: WatchEvent) -> (r: bool)
    requires
        old(app).wf(),
        watch_fits(old(app).model(), ev),
    ensures
        final(app).model() == watch_applied(old(app).model(), ev),
        final(app).wf(),
        r == !(ev is BatchDone),
{
    match ev {
        WatchEvent::Upsert { path, lang, lines, bytes, .. } => {
            app.watch_upsert(path, lang, lines, bytes);
            true
        },
        WatchEvent::Remove { path } => {
            app.watch_remove(&path);
            true
        },
        WatchEvent::BatchDone => false,
    }
}

/// The measurements after a frame was drawn. Frames are counted where memory
/// was measured.
pub open spec fn frame_measured(
    b: BenchModel,
    took: Span,
    memory: Option<(AllocStats, AllocStats)>,
    latency: Option<Span>,
) -> BenchModel {
    let framed = match memory {
        Some((pre, post)) => BenchModel { last_full_render: took, ..b }.framed(
            took,
            alloc_track::excess(post.bytes_allocated, pre.bytes_allocated),
            alloc_track::excess(post.allocs, pre.allocs),
        ),
        None => b,
    };
    match latency {
        Some(lat) => BenchModel { last_input_latency: Some(lat), ..framed },
        None => framed,
    }
}

/// Remembers how a frame went: how long it took, the memory before and after
/// where that was measured, and how long the input waited that it shows.
pub fn frame_drawn(
    app: &mut App,
    took: Span,
    memory: Option<(AllocStats, AllocStats)>,
    latency: Option<Span>,
)
    requires
        old(app).wf(),
        took.wf(),
        latency is Some ==> latency->0.wf(),
        old(app).bench.frames_rendered < u64::MAX,
    ensures
        final(app).model() == (AppModel {
            bench: frame_measured(old(app).model().bench, took, memory, latency),
            ..old(app).model()
        }),
        final(app).wf(),
{
    if let Some((pre, post)) = memory {
        app.bench.last_full_render = took;
        let bytes: u64 = post.bytes_allocated.saturating_sub(pre.bytes_allocated);
        let allocs: u64 = post.allocs.saturating_sub(pre.allocs);
        app.bench.record_frame(took, bytes, allocs);
    }
    if let Some(lat) = latency {
        app.bench.last_input_latency = Some(lat);
    }
}

/// Frames keep a distance: after one was drawn, reports alone lead to no other
/// before the time is up, and then they do.
pub proof fn frames_keep_their_distance(s: Session, took: Span, at: Span, now: Span)
    requires
        s.last_draw == Some(at),
        s.interval == interval_after(took),
        !s.input_dirty,
    ensures
        passed(now, at) < SHORTEST_INTERVAL ==> !s.is_due(now),
        passed(now, at) >= LONGEST_INTERVAL && s.scan_dirty ==> s.is_due(now),
{
}

/// While a frame is owed for reports alone, the wait for input ends when it is
/// due, or within a millisecond.
pub proof fn waiting_ends_in_time(s: Session, now: Span)
    requires
        s.interval.nanos >= NANOS_PER_MILLI,
    ensures
        s.waiting(now) >= NANOS_PER_MILLI,
        s.waiting(now) <= s.interval.nanos,
        s.since_draw(now) + s.waiting(now) >= s.interval.nanos,
{
}

/// The time between frames is a fifth more than the last frame took, but at
/// least 33 and at most 200 milliseconds.
pub proof fn intervals_follow_the_frames(took: Span)
    ensures
        ({
            let n = interval_after(took).nanos;
            &&& 33_000_000 <= n <= 200_000_000
            &&& n > 33_000_000 ==> 5 * n <= 6 * took.nanos
            &&& n < 200_000_000 ==> 6 * took.nanos < 5 * n + 5
        }),
{
}

/// Input leads to a frame at once, reports when the time since the last frame is
/// up, and nothing else does.
pub proof fn frames_are_drawn_for_a_reason(s: Session, now: Span)
    ensures
        s.input_dirty ==> s.is_due(now),
        !s.input_dirty && !s.scan_dirty ==> !s.is_due(now),
        !s.input_dirty && s.scan_dirty && s.last_draw is None ==> s.is_due(now),
        !s.input_dirty && s.scan_dirty && s.last_draw is Some && now.nanos
            >= s.last_draw->0.nanos ==> (s.is_due(now) <==> now.nanos >= s.last_draw->0.nanos
            + s.interval.nanos),
        Session::initial().is_due(now),
{
}

/// The program ends by itself only if it was told to, and then so many
/// milliseconds after the scan ended.
pub proof fn the_end_comes_in_time(s: Session, ms: u64, now: Span)
    ensures
        !s.ends(None, now),
        s.done_at is None ==> !s.ends(Some(ms), now),
        s.done_at is Some && now.nanos >= s.done_at->0.nanos ==> (s.ends(Some(ms), now)
            <==> now.nanos - s.done_at->0.nanos >= ms * 1_000_000),
{
}

/// What the scan reports of a file is counted, and the file stands in the tree.
pub proof fn reported_files_are_counted(
    m: AppModel,
    path: FilePath,
    lang: Lang,
    lines: u64,
    bytes: u64,
    mtime: Option<Stamp>,
    count_nanos: u64,
    at: Span,
)
    requires
        m.wf(),
        m.has_room(lines, bytes),
        m.bench.fits(count_nanos),
        tree::names_in(m.root, path@).len() > 0,
        tree::fresh(m.tree, tree::names_in(m.root, path@), 0),
    ensures
        ({
            let now = scan_applied(
                m,
                ScanEvent::File { path, lang, lines, bytes, mtime, count_nanos },
            );
            &&& now.total_files == m.total_files + 1
            &&& now.total_lines == m.total_lines + lines
            &&& now.total_bytes == m.total_bytes + bytes
            &&& now.bench == m.bench.counted(count_nanos)
            &&& lines > 0 ==> tree::leads_to(
                NodeModel::Folder(now.tree),
                tree::names_in(m.root, path@),
                NodeModel::File(FileModel { path: path@, lang: lang.name(), lines }),
            )
            &&& now.done == m.done
        }),
        scan_applied(m, ScanEvent::Done { at }).done,
        scan_applied(m, ScanEvent::Done { at }).total_files == m.total_files,
        scan_applied(m, ScanEvent::Done { at }).tree == m.tree,
{
    app::recorded_files_are_in_the_tree(
        m,
        path@,
        FileRecord { lang, lines, bytes },
        count_nanos,
        seq![],
    );
}

/// What the watcher reports of a file takes the place of what was counted of it;
/// a file that is gone no longer counts.
pub proof fn reported_changes_are_counted(
    m: AppModel,
    path: FilePath,
    lang: Lang,
    lines: u64,
    bytes: u64,
    mtime: Option<Stamp>,
)
    requires
        m.wf(),
        m.files.contains_key(path::parts(path@)),
        m.forgotten(path@).has_room(lines, bytes),
        tree::names_in(m.root, path@).len() > 0,
        tree::clear_way(m.forgotten(path@).tree, tree::names_in(m.root, path@), 0),
    ensures
        ({
            let names = tree::names_in(m.root, path@);
            let was = m.files[path::parts(path@)];
            let now = watch_applied(m, WatchEvent::Upsert { path, lang, lines, bytes, mtime });
            let gone = watch_applied(m, WatchEvent::Remove { path });
            &&& now.total_files == m.total_files
            &&& now.total_lines == m.total_lines - was.lines + lines
            &&& now.total_bytes == m.total_bytes - was.bytes + bytes
            &&& lines > 0 ==> tree::leads_to(
                NodeModel::Folder(now.tree),
                names,
                NodeModel::File(FileModel { path: path@, lang: lang.name(), lines }),
            )
            &&& lines == 0 ==> tree::found(now.tree, names, 0) is None
            &&& gone.total_files == m.total_files - 1
            &&& gone.total_lines == m.total_lines - was.lines
            &&& gone.total_bytes == m.total_bytes - was.bytes
            &&& tree::found(gone.tree, names, 0) is None
            &&& !gone.files.contains_key(path::parts(path@))
        }),
        watch_applied(m, WatchEvent::BatchDone) == m,
{
    let r = FileRecord { lang, lines, bytes };
    app::changed_files_are_in_the_tree(m, path@, r, seq![]);
    app::forgotten_files_leave_the_tree(m, path@, seq![]);
    app::forgotten_is_wf(m, path@);
    app::upserting_replaces(m, path@, r);
}

/// A frame is measured where memory is: the memory it took is the difference;
/// the latency is that of the last input that a frame showed.
pub proof fn frames_are_measured(
    b: BenchModel,
    took: Span,
    pre: AllocStats,
    post: AllocStats,
    latency: Option<Span>,
)
    requires
        b.wf(),
        b.frames_rendered < u64::MAX,
        pre.bytes_allocated <= post.bytes_allocated,
        pre.allocs <= post.allocs,
    ensures
        ({
            let now = frame_measured(b, took, Some((pre, post)), latency);
            let unmeasured = frame_measured(b, took, None, latency);
            &&& now.frames_rendered == b.frames_rendered + 1
            &&& now.last_full_render == took
            &&& now.frame_durations[now.frame_durations.len() - 1] == took
            &&& pre.bytes_allocated + now.last_frame_alloc_bytes == post.bytes_allocated
            &&& pre.allocs + now.last_frame_allocs == post.allocs
            &&& latency is Some ==> now.last_input_latency == latency
            &&& latency is None ==> now.last_input_latency == b.last_input_latency
            &&& unmeasured == (BenchModel {
                last_input_latency: unmeasured.last_input_latency,
                ..b
            })
            &&& unmeasured.last_input_latency == now.last_input_latency
        }),
{
}

} // verus!
