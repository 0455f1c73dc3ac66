//! Measurements of the running program.

use std::collections::VecDeque;

use vstd::prelude::*;

use crate::order;
use crate::time::{Span, MAX_NANOS};

verus! {

/// How many frames are remembered.
pub const FRAME_WINDOW: usize = 600;

/// What was measured.
#[derive(Debug)]
pub struct Bench {
    pub enabled: bool,
    pub frame_durations: VecDeque<Span>,
    pub last_treemap_layout: Span,
    pub last_treemap_iters: u32,
    pub last_layout_excluded: u32,
    pub last_tiles_drawn: u32,
    pub last_halfblock: Span,
    pub last_text_overlay: Span,
    pub last_full_render: Span,
    pub last_frame_alloc_bytes: u64,
    pub last_frame_allocs: u64,
    pub last_input_latency: Option<Span>,
    pub total_count_nanos: u128,
    pub max_count_nanos: u64,
    pub min_count_nanos: u64,
    pub frames_rendered: u64,
}

/// What was measured, with the remembered frames as a sequence.
#[verifier::ext_equal]
pub struct BenchModel {
    pub enabled: bool,
    pub frame_durations: Seq<Span>,
    pub last_treemap_layout: Span,
    pub last_treemap_iters: u32,
    pub last_layout_excluded: u32,
    pub last_tiles_drawn: u32,
    pub last_halfblock: Span,
    pub last_text_overlay: Span,
    pub last_full_render: Span,
    pub last_frame_alloc_bytes: u64,
    pub last_frame_allocs: u64,
    pub last_input_latency: Option<Span>,
    pub total_count_nanos: u128,
    pub max_count_nanos: u64,
    pub min_count_nanos: u64,
    pub frames_rendered: u64,
}

impl View for Bench {
    type V = BenchModel;

    open spec fn view(&self) -> BenchModel {
        BenchModel {
            enabled: self.enabled,
            frame_durations: self.frame_durations@,
            last_treemap_layout: self.last_treemap_layout,
            last_treemap_iters: self.last_treemap_iters,
            last_layout_excluded: self.last_layout_excluded,
            last_tiles_drawn: self.last_tiles_drawn,
            last_halfblock: self.last_halfblock,
            last_text_overlay: self.last_text_overlay,
            last_full_render: self.last_full_render,
            last_frame_alloc_bytes: self.last_frame_alloc_bytes,
            last_frame_allocs: self.last_frame_allocs,
            last_input_latency: self.last_input_latency,
            total_count_nanos: self.total_count_nanos,
            max_count_nanos: self.max_count_nanos,
            min_count_nanos: self.min_count_nanos,
            frames_rendered: self.frames_rendered,
        }
    }
}

/// How long frames took.
#[derive(Debug, Clone, Copy, PartialEq, Eq, Structural)]
pub struct FrameStats {
    pub avg: Span,
    pub p50: Span,
    pub p95: Span,
    pub p99: Span,
    pub max: Span,
}

/// The low 64 bits of the nanoseconds of each frame.
pub open spec fn frame_nanos(frames: Seq<Span>) -> Seq<u64> {
    frames.map_values(|s: Span| (s.nanos % 0x1_0000_0000_0000_0000) as u64)
}

/// The average and the percentiles of frame times.
pub open spec fn frame_stats_of(frames: Seq<Span>) -> Option<FrameStats> {
    let n = frames.len() as int;
    let ns = frame_nanos(frames);
    let sorted = order::ascending(ns);
    if n == 0 {
        None
    } else {
        Some(
            FrameStats {
                avg: Span { nanos: (order::sum(ns) / n) as u128 },
                p50: Span { nanos: sorted[n / 2] as u128 },
                p95: Span { nanos: sorted[n * 95 / 100] as u128 },
                p99: Span { nanos: sorted[n * 99 / 100] as u128 },
                max: Span { nanos: sorted[n - 1] as u128 },
            },
        )
    }
}

impl BenchModel {
    /// The window of frames holds, and so do the spans.
    pub open spec fn wf(self) -> bool {
        &&& self.frame_durations.len() <= FRAME_WINDOW
        &&& self.last_treemap_layout.wf()
        &&& self.last_halfblock.wf()
        &&& self.last_text_overlay.wf()
        &&& self.last_full_render.wf()
        &&& self.last_input_latency is Some ==> self.last_input_latency->0.wf()
        &&& self.total_count_nanos <= MAX_NANOS
    }

    /// Whether the time of one more file can be counted.
    pub open spec fn fits(self, nanos: u64) -> bool {
        self.enabled ==> self.total_count_nanos + nanos <= MAX_NANOS
    }

    /// After one more frame; the oldest goes once the window is full.
    pub open spec fn framed(self, d: Span, alloc_bytes: u64, alloc_count: u64) -> BenchModel {
        BenchModel {
            frames_rendered: (self.frames_rendered + 1) as u64,
            last_frame_alloc_bytes: alloc_bytes,
            last_frame_allocs: alloc_count,
            frame_durations: (if self.frame_durations.len() >= FRAME_WINDOW {
                self.frame_durations.skip(1)
            } else {
                self.frame_durations
            }).push(d),
            ..self
        }
    }

    /// After one more counted file.
    pub open spec fn counted(self, nanos: u64) -> BenchModel {
        if !self.enabled {
            self
        } else {
            BenchModel {
                total_count_nanos: (self.total_count_nanos + nanos) as u128,
                max_count_nanos: if nanos > self.max_count_nanos {
                    nanos
                } else {
                    self.max_count_nanos
                },
                min_count_nanos: if self.min_count_nanos == 0 || nanos < self.min_count_nanos {
                    nanos
                } else {
                    self.min_count_nanos
                },
                ..self
            }
        }
    }

    /// After a layout; nothing is kept unless measuring is on.
    pub open spec fn laid_out(self, elapsed: Span, iters: u32, excluded: u32, drawn: u32) -> BenchModel {
        if !self.enabled {
            self
        } else {
            BenchModel {
                last_treemap_layout: elapsed,
                last_treemap_iters: iters,
                last_layout_excluded: excluded,
                last_tiles_drawn: drawn,
                ..self
            }
        }
    }

    /// Nothing measured yet.
    pub open spec fn initial() -> BenchModel {
        BenchModel {
            enabled: false,
            frame_durations: seq![],
            last_treemap_layout: Span { nanos: 0 },
            last_treemap_iters: 0,
            last_layout_excluded: 0,
            last_tiles_drawn: 0,
            last_halfblock: Span { nanos: 0 },
            last_text_overlay: Span { nanos: 0 },
            last_full_render: Span { nanos: 0 },
            last_frame_alloc_bytes: 0,
            last_frame_allocs: 0,
            last_input_latency: None,
            total_count_nanos: 0,
            max_count_nanos: 0,
            min_count_nanos: 0,
            frames_rendered: 0,
        }
    }
}

impl Default for Bench {
    fn default() -> (r: Bench)
        ensures
            r@ == BenchModel::initial(),
            r@.wf(),
    {
        let r = Bench {
            enabled: false,
            frame_durations: VecDeque::new(),
            last_treemap_layout: Span::zero(),
            last_treemap_iters: 0,
            last_layout_excluded: 0,
            last_tiles_drawn: 0,
            last_halfblock: Span::zero(),
            last_text_overlay: Span::zero(),
            last_full_render: Span::zero(),
            last_frame_alloc_bytes: 0,
            last_frame_allocs: 0,
            last_input_latency: None,
            total_count_nanos: 0,
            max_count_nanos: 0,
            min_count_nanos: 0,
            frames_rendered: 0,
        };
        proof {
            assert(r@ =~= BenchModel::initial());
        }
        r
    }
}

impl Bench {
    /// Remembers one more frame.
    pub fn record_frame(&mut self, d: Span, alloc_bytes: u64, alloc_count: u64)
        requires
            old(self)@.wf(),
            old(self)@.frames_rendered < u64::MAX,
        ensures
            final(self)@ == old(self)@.framed(d, alloc_bytes, alloc_count),
            final(self)@.wf(),
            final(self)@.frame_durations.last() == d,
    {
        self.frames_rendered = self.frames_rendered + 1;
        self.last_frame_alloc_bytes = alloc_bytes;
        self.last_frame_allocs = alloc_count;
        if self.frame_durations.len() >= FRAME_WINDOW {
            let _ = self.frame_durations.pop_front();
        }
        self.frame_durations.push_back(d);
        proof {
            assert(self@ =~= old(self)@.framed(d, alloc_bytes, alloc_count));
        }
    }

    /// The average and the percentiles of the remembered frames.
    pub fn frame_stats(&self) -> (r: Option<FrameStats>)
        requires
            self@.wf(),
        ensures
            r == frame_stats_of(self@.frame_durations),
            r is Some <==> self@.frame_durations.len() > 0,
            r is Some ==> r->0.avg.wf() && r->0.p50.wf() && r->0.p95.wf() && r->0.p99.wf()
                && r->0.max.wf(),
    {
        let n: usize = self.frame_durations.len();
        if n == 0 {
            return None;
        }
        let ghost ns = frame_nanos(self.frame_durations@);
        let mut keys: Vec<u64> = Vec::new();
        let mut total: u128 = 0;
        let mut i: usize = 0;
        proof {
            assert(ns.take(0) =~= seq![]);
        }
        while i < n
            invariant
                i <= n == self.frame_durations@.len() == ns.len(),
                n <= FRAME_WINDOW,
                ns == frame_nanos(self.frame_durations@),
                total <= i * u64::MAX,
                keys@ =~= ns.take(i as int),
                total == order::sum(ns.take(i as int)),
            decreases n - i,
        {
            let x: u64 = self.frame_durations[i].low_nanos();
            proof {
                assert(ns.take(i + 1).drop_last() =~= ns.take(i as int));
                assert(ns.take(i + 1).last() == x);
            }
            keys.push(x);
            total = total + x as u128;
            i = i + 1;
        }
        proof {
            assert(ns.take(n as int) =~= ns);
        }
        let sorted = order::sort_ascending(&keys);
        proof {
            assert(total / (n as u128) <= u64::MAX) by (nonlinear_arith)
                requires
                    total <= n * u64::MAX,
                    n > 0,
            ;
        }
        let avg: u64 = (total / (n as u128)) as u64;
        Some(
            FrameStats {
                avg: Span::from_nanos(avg),
                p50: Span::from_nanos(sorted[n / 2]),
                p95: Span::from_nanos(sorted[n * 95 / 100]),
                p99: Span::from_nanos(sorted[n * 99 / 100]),
                max: Span::from_nanos(sorted[n - 1]),
            },
        )
    }

    /// Counts the time that one file took.
    pub fn record_count(&mut self, nanos: u64)
        requires
            old(self)@.fits(nanos),
        ensures
            final(self)@ == old(self)@.counted(nanos),
            old(self)@.wf() ==> final(self)@.wf(),
    {
        if self.enabled {
            self.total_count_nanos = self.total_count_nanos + nanos as u128;
            if nanos > self.max_count_nanos {
                self.max_count_nanos = nanos;
            }
            if self.min_count_nanos == 0 || nanos < self.min_count_nanos {
                self.min_count_nanos = nanos;
            }
        }
        proof {
            assert(self@ =~= old(self)@.counted(nanos));
        }
    }

    /// Remembers how the last layout went.
    pub fn record_layout(&mut self, elapsed: Span, iters: u32, excluded: u32, drawn: u32)
        requires
            elapsed.wf(),
        ensures
            final(self)@ == old(self)@.laid_out(elapsed, iters, excluded, drawn),
            old(self)@.wf() ==> final(self)@.wf(),
    {
        if self.enabled {
            self.last_treemap_layout = elapsed;
            self.last_treemap_iters = iters;
            self.last_layout_excluded = excluded;
            self.last_tiles_drawn = drawn;
        }
        proof {
            assert(self@ =~= old(self)@.laid_out(elapsed, iters, excluded, drawn));
        }
    }
}

/// The percentiles of frame times rise, up to the longest frame.
pub proof fn percentiles_rise(frames: Seq<Span>)
    requires
        0 < frames.len() <= FRAME_WINDOW,
    ensures
        ({
            let s = frame_stats_of(frames)->0;
            s.p50.nanos <= s.p95.nanos <= s.p99.nanos <= s.max.nanos
        }),
{
    let ns = frame_nanos(frames);
    let n = frames.len() as int;
    order::lemma_ascending(ns, n / 2, n * 95 / 100);
    order::lemma_ascending(ns, n * 95 / 100, n * 99 / 100);
    order::lemma_ascending(ns, n * 99 / 100, n - 1);
}

/// A frame comes after those before it, of which the last ones are kept.
pub proof fn the_last_frames_are_kept(b: BenchModel, d: Span, bytes: u64, count: u64, i: int)
    requires
        b.wf(),
        b.frames_rendered < u64::MAX,
    ensures
        ({
            let old = b.frame_durations;
            let now = b.framed(d, bytes, count);
            let fs = now.frame_durations;
            &&& fs.len() == (if old.len() < 600 {
                (old.len() + 1) as int
            } else {
                600int
            })
            &&& fs[fs.len() - 1] == d
            &&& 0 <= i < fs.len() - 1 ==> fs[fs.len() - 2 - i] == old[old.len() - 1 - i]
            &&& now.frames_rendered == b.frames_rendered + 1
            &&& now.last_frame_alloc_bytes == bytes
            &&& now.last_frame_allocs == count
            &&& now.total_count_nanos == b.total_count_nanos
        }),
{
}

/// While measuring is on, the times of files add up, and the longest and the
/// shortest are known; else nothing is kept.
pub proof fn times_of_files_add_up(b: BenchModel, nanos: u64)
    requires
        b.fits(nanos),
    ensures
        !b.enabled ==> b.counted(nanos) == b,
        b.enabled ==> {
            let now = b.counted(nanos);
            &&& now.total_count_nanos == b.total_count_nanos + nanos
            &&& now.max_count_nanos >= nanos && now.max_count_nanos >= b.max_count_nanos
            &&& now.max_count_nanos == nanos || now.max_count_nanos == b.max_count_nanos
            &&& now.min_count_nanos <= nanos
            &&& b.min_count_nanos > 0 ==> now.min_count_nanos <= b.min_count_nanos
            &&& now.min_count_nanos == nanos || (now.min_count_nanos == b.min_count_nanos
                && b.min_count_nanos > 0)
        },
{
}

/// Whether some of the frames, each once, took at most, or at least, some time.
pub open spec fn some_frames(
    frames: Seq<Span>,
    places: Seq<usize>,
    nanos: u128,
    at_most: bool,
) -> bool {
    &&& places.no_duplicates()
    &&& forall|i: int|
        0 <= i < places.len() ==> (#[trigger] places[i]) < frames.len() && (if at_most {
            frames[places[i] as int].nanos <= nanos
        } else {
            frames[places[i] as int].nanos >= nanos
        })
}

proof fn lemma_share(frames: Seq<Span>, k: int)
    requires
        0 <= k < frames.len() <= FRAME_WINDOW,
        forall|i: int| 0 <= i < frames.len() ==> (#[trigger] frames[i]).nanos <= u64::MAX,
    ensures
        ({
            let v = order::ascending(frame_nanos(frames))[k] as u128;
            let p = order::ranking(frame_nanos(frames));
            let n = frames.len() as int;
            &&& some_frames(frames, p.skip(n - 1 - k), v, true)
            &&& p.skip(n - 1 - k).len() == k + 1
            &&& some_frames(frames, p.take(n - k), v, false)
            &&& p.take(n - k).len() == n - k
        }),
{
    let ns = frame_nanos(frames);
    let n = frames.len() as int;
    order::lemma_ranking_exists(ns);
    let p = order::ranking(ns);
    let v = order::ascending(ns)[k] as u128;
    let at = n - 1 - k;
    assert(v == ns[p[at] as int]);
    assert forall|i: int| 0 <= i < n implies (#[trigger] p[i]) < n && ns[p[i] as int]
        == frames[p[i] as int].nanos && (i <= at ==> ns[p[i] as int] >= v) && (i >= at
        ==> ns[p[i] as int] <= v) by {
        if i < at {
            assert(order::before(ns, p[i] as int, p[at] as int));
        }
        if i > at {
            assert(order::before(ns, p[at] as int, p[i] as int));
        }
        assert(frames[p[i] as int].nanos <= u64::MAX);
    }
    assert(p.no_duplicates()) by {
        assert forall|i: int, j: int| 0 <= i < n && 0 <= j < n && i != j implies p[i] != p[j] by {
            if i < j {
                assert(order::before(ns, p[i] as int, p[j] as int));
            } else {
                assert(order::before(ns, p[j] as int, p[i] as int));
            }
        }
    }
    let low = p.skip(at);
    let high = p.take(n - k);
    assert forall|i: int| 0 <= i < low.len() implies (#[trigger] low[i]) < n
        && frames[low[i] as int].nanos <= v by {
        assert(low[i] == p[at + i]);
    }
    assert forall|i: int| 0 <= i < high.len() implies (#[trigger] high[i]) < n
        && frames[high[i] as int].nanos >= v by {
        assert(high[i] == p[i]);
    }
}

/// The longest frame is the longest; of the frames more than half took no longer
/// than the middle one, more than 95 in a hundred no longer than the one that
/// stands for 95, and so with 99.
pub proof fn percentiles_have_their_share(frames: Seq<Span>)
    requires
        0 < frames.len() <= FRAME_WINDOW,
        forall|i: int| 0 <= i < frames.len() ==> (#[trigger] frames[i]).nanos <= u64::MAX,
    ensures
        ({
            let s = frame_stats_of(frames)->0;
            let n = frames.len() as int;
            &&& frame_stats_of(frames) is Some
            &&& exists|ps: Seq<usize>|
                #[trigger] some_frames(frames, ps, s.p50.nanos, true) && 2 * ps.len() > n
            &&& exists|ps: Seq<usize>|
                #[trigger] some_frames(frames, ps, s.p50.nanos, false) && 2 * ps.len() >= n
            &&& exists|ps: Seq<usize>|
                #[trigger] some_frames(frames, ps, s.p95.nanos, true) && 100 * ps.len() > 95 * n
            &&& exists|ps: Seq<usize>|
                #[trigger] some_frames(frames, ps, s.p95.nanos, false) && 100 * ps.len() >= 5 * n
            &&& exists|ps: Seq<usize>|
                #[trigger] some_frames(frames, ps, s.p99.nanos, true) && 100 * ps.len() > 99 * n
            &&& exists|ps: Seq<usize>|
                #[trigger] some_frames(frames, ps, s.p99.nanos, false) && 100 * ps.len() >= n
            &&& exists|ps: Seq<usize>|
                #[trigger] some_frames(frames, ps, s.max.nanos, true) && ps.len() == n
            &&& exists|ps: Seq<usize>|
                #[trigger] some_frames(frames, ps, s.max.nanos, false) && ps.len() == 1
        }),
{
    let n = frames.len() as int;
    let p = order::ranking(frame_nanos(frames));
    let s = frame_stats_of(frames)->0;
    lemma_share(frames, n / 2);
    lemma_share(frames, n * 95 / 100);
    lemma_share(frames, n * 99 / 100);
    lemma_share(frames, n - 1);
    assert(some_frames(frames, p.skip(n - 1 - n / 2), s.p50.nanos, true));
    assert(some_frames(frames, p.take(n - n / 2), s.p50.nanos, false));
    assert(some_frames(frames, p.skip(n - 1 - n * 95 / 100), s.p95.nanos, true));
    assert(some_frames(frames, p.take(n - n * 95 / 100), s.p95.nanos, false));
    assert(some_frames(frames, p.skip(n - 1 - n * 99 / 100), s.p99.nanos, true));
    assert(some_frames(frames, p.take(n - n * 99 / 100), s.p99.nanos, false));
    assert(some_frames(frames, p.skip(n - 1 - (n - 1)), s.max.nanos, true));
    assert(some_frames(frames, p.take(n - (n - 1)), s.max.nanos, false));
}

/// The average frame times the number of frames makes up their time, but for a
/// rest.
pub proof fn the_average_makes_up_the_time(frames: Seq<Span>)
    requires
        frames.len() > 0,
    ensures
        ({
            let avg = frame_stats_of(frames)->0.avg.nanos as int;
            let all = order::sum(frame_nanos(frames));
            let n = frames.len() as int;
            all / n <= u128::MAX && all >= 0 ==> avg * n <= all < (avg + 1) * n
        }),
{
    let all = order::sum(frame_nanos(frames));
    let n = frames.len() as int;
    if all / n <= u128::MAX && all >= 0 {
        vstd::arithmetic::div_mod::lemma_fundamental_div_mod(all, n);
        let q = all / n;
        let r = all % n;
        assert(q * n <= all < (q + 1) * n) by (nonlinear_arith)
            requires
                all == n * q + r,
                0 <= r < n,
        ;
        assert(q >= 0) by (nonlinear_arith)
            requires
                (q + 1) * n > all,
                all >= 0,
                n > 0,
        ;
    }
}

} // verus!
