//! How long parts of the program take, and how much memory they use.

use vstd::arithmetic::power2::*;
use vstd::prelude::*;
use vstd::string::*;

use crate::alloc_track;
use crate::double;
use crate::double::Double;
use crate::order;
use crate::text;
use crate::time;
use crate::time::{Span, MAX_NANOS};
use crate::tree;
use crate::ui::color;

verus! {

/// How wide the tables are.
pub const TABLE_WIDTH: usize = 115;

/// Samples by label, in the order in which the labels came.
#[derive(Debug)]
pub struct Groups {
    pub entries: Vec<(&'static str, Vec<u128>)>,
}

impl Groups {
    /// The samples of each label.
    pub open spec fn model(self) -> Seq<(Seq<char>, Seq<u128>)> {
        self.entries@.map_values(|e: (&'static str, Vec<u128>)| (e.0@, e.1@))
    }
}

/// The place of a label, from `i` on, or the end.
pub open spec fn label_at(g: Seq<(Seq<char>, Seq<u128>)>, label: Seq<char>, i: int) -> int
    decreases g.len() - i,
{
    if i >= g.len() || g[i].0 == label {
        i
    } else {
        label_at(g, label, i + 1)
    }
}

/// The samples with one more.
pub open spec fn sampled(g: Seq<(Seq<char>, Seq<u128>)>, label: Seq<char>, v: u128) -> Seq<
    (Seq<char>, Seq<u128>),
> {
    let i = label_at(g, label, 0);
    if i < g.len() {
        g.update(i, (label, g[i].1.push(v)))
    } else {
        g.push((label, seq![v]))
    }
}

/// Whether every label has samples.
pub open spec fn none_empty(g: Seq<(Seq<char>, Seq<u128>)>) -> bool {
    forall|i: int| 0 <= i < g.len() ==> (#[trigger] g[i]).1.len() > 0
}

proof fn lemma_label_at(g: Seq<(Seq<char>, Seq<u128>)>, label: Seq<char>, i: int)
    requires
        0 <= i <= g.len(),
    ensures
        i <= label_at(g, label, i) <= g.len(),
        label_at(g, label, i) < g.len() ==> g[label_at(g, label, i)].0 == label,
        forall|k: int| i <= k < label_at(g, label, i) ==> (#[trigger] g[k]).0 != label,
    decreases g.len() - i,
{
    if i < g.len() && g[i].0 != label {
        lemma_label_at(g, label, i + 1);
    }
}

impl Groups {
    /// No samples.
    pub fn new() -> (r: Groups)
        ensures
            r.model() == Seq::<(Seq<char>, Seq<u128>)>::empty(),
    {
        let r = Groups { entries: Vec::new() };
        proof {
            assert(r.model() =~= Seq::<(Seq<char>, Seq<u128>)>::empty());
        }
        r
    }

    /// Adds a sample.
    pub fn sample(&mut self, label: &'static str, v: u128)
        requires
            none_empty(old(self).model()),
        ensures
            final(self).model() == sampled(old(self).model(), label@, v),
            none_empty(final(self).model()),
    {
        let ghost g = self.model();
        let mut i: usize = 0;
        while i < self.entries.len() && !text::same(self.entries[i].0, label)
            invariant
                i <= self.entries@.len() == g.len(),
                g == self.model(),
                label_at(g, label@, 0) == label_at(g, label@, i as int),
            decreases self.entries@.len() - i,
        {
            i = i + 1;
        }
        proof {
            lemma_label_at(g, label@, 0);
        }
        if i < self.entries.len() {
            self.entries[i].1.push(v);
            proof {
                assert(self.entries@[i as int].1@ == g[i as int].1.push(v));
                assert(self.model() =~= sampled(g, label@, v));
            }
        } else {
            let mut first: Vec<u128> = Vec::new();
            first.push(v);
            let ghost f = first@;
            self.entries.push((label, first));
            proof {
                assert(f =~= seq![v]);
                assert(self.model() =~= sampled(g, label@, v));
            }
        }
    }
}

/// What was measured of the parts of the program.
#[derive(Debug)]
pub struct Recorder {
    pub on: bool,
    pub durations: Groups,
    pub alloc_counts: Groups,
    pub alloc_bytes: Groups,
    pub values: Groups,
}

/// What was measured, as sequences. Durations are in nanoseconds.
#[verifier::ext_equal]
pub struct RecorderModel {
    pub on: bool,
    pub durations: Seq<(Seq<char>, Seq<u128>)>,
    pub alloc_counts: Seq<(Seq<char>, Seq<u128>)>,
    pub alloc_bytes: Seq<(Seq<char>, Seq<u128>)>,
    pub values: Seq<(Seq<char>, Seq<u128>)>,
}

/// The beginning of a part that is measured, with what the thread had allocated
/// by then: how often, and how many bytes.
#[derive(Debug, Clone, Copy)]
pub struct Guard {
    pub label: &'static str,
    pub start: Span,
    pub allocs_start: (u64, u64),
}

/// Whether two groups of samples have the same labels with as many samples.
pub open spec fn alike(a: Seq<(Seq<char>, Seq<u128>)>, b: Seq<(Seq<char>, Seq<u128>)>) -> bool {
    &&& a.len() == b.len()
    &&& forall|i: int|
        0 <= i < a.len() ==> (#[trigger] a[i]).0 == b[i].0 && a[i].1.len() == b[i].1.len()
}

impl RecorderModel {
    /// Every label has samples, and the counts and the bytes of memory go
    /// together.
    pub open spec fn wf(self) -> bool {
        &&& none_empty(self.durations)
        &&& none_empty(self.alloc_counts)
        &&& none_empty(self.alloc_bytes)
        &&& none_empty(self.values)
        &&& alike(self.alloc_counts, self.alloc_bytes)
    }

    /// After a value was recorded, where recording is on.
    pub open spec fn valued(self, label: Seq<char>, v: u64) -> RecorderModel {
        if self.on {
            RecorderModel { values: sampled(self.values, label, v as u128), ..self }
        } else {
            self
        }
    }

    /// After a part ended: the time it took, and what its thread allocated
    /// meanwhile.
    pub open spec fn finished(self, g: Guard, now: Span, thread: (u64, u64)) -> RecorderModel {
        let took = if now.nanos > g.start.nanos {
            (now.nanos - g.start.nanos) as u128
        } else {
            0
        };
        let n = alloc_track::excess(thread.0, g.allocs_start.0) as u128;
        let bytes = alloc_track::excess(thread.1, g.allocs_start.1) as u128;
        RecorderModel {
            durations: sampled(self.durations, g.label@, took),
            alloc_counts: sampled(self.alloc_counts, g.label@, n),
            alloc_bytes: sampled(self.alloc_bytes, g.label@, bytes),
            ..self
        }
    }
}

proof fn lemma_alike_sampled(
    a: Seq<(Seq<char>, Seq<u128>)>,
    b: Seq<(Seq<char>, Seq<u128>)>,
    label: Seq<char>,
    v: u128,
    w: u128,
)
    requires
        alike(a, b),
    ensures
        alike(sampled(a, label, v), sampled(b, label, w)),
{
    lemma_alike_at(a, b, label, 0);
    lemma_label_at(a, label, 0);
}

proof fn lemma_alike_at(
    a: Seq<(Seq<char>, Seq<u128>)>,
    b: Seq<(Seq<char>, Seq<u128>)>,
    label: Seq<char>,
    i: int,
)
    requires
        alike(a, b),
        0 <= i <= a.len(),
    ensures
        label_at(a, label, i) == label_at(b, label, i),
    decreases a.len() - i,
{
    if i < a.len() {
        assert(a[i].0 == b[i].0);
        lemma_alike_at(a, b, label, i + 1);
    }
}

impl Recorder {
    /// What was measured.
    pub open spec fn model(self) -> RecorderModel {
        RecorderModel {
            on: self.on,
            durations: self.durations.model(),
            alloc_counts: self.alloc_counts.model(),
            alloc_bytes: self.alloc_bytes.model(),
            values: self.values.model(),
        }
    }

    /// Nothing was measured, and recording is off.
    pub fn new() -> (r: Recorder)
        ensures
            r.model() == (RecorderModel {
                on: false,
                durations: seq![],
                alloc_counts: seq![],
                alloc_bytes: seq![],
                values: seq![],
            }),
            r.model().wf(),
    {
        Recorder {
            on: false,
            durations: Groups::new(),
            alloc_counts: Groups::new(),
            alloc_bytes: Groups::new(),
            values: Groups::new(),
        }
    }

    /// Switches recording on.
    pub fn enable(&mut self)
        ensures
            final(self).model() == (RecorderModel { on: true, ..old(self).model() }),
    {
        self.on = true;
    }

    /// Whether recording is on.
    pub fn enabled(&self) -> (r: bool)
        ensures
            r == self.model().on,
    {
        self.on
    }

    /// Records a number that is no duration, such as a count of bytes.
    pub fn record_value(&mut self, label: &'static str, value: u64)
        requires
            old(self).model().wf(),
        ensures
            final(self).model() == old(self).model().valued(label@, value),
            final(self).model().wf(),
    {
        if self.on {
            self.values.sample(label, value as u128);
        }
    }

    /// Begins to measure a part, where recording is on. `thread` is what the
    /// calling thread has allocated so far.
    pub fn begin(&self, label: &'static str, now: Span, thread: (u64, u64)) -> (r: Option<Guard>)
        ensures
            r is Some <==> self.model().on,
            r is Some ==> r->0 == (Guard { label, start: now, allocs_start: thread }),
    {
        if !self.on {
            return None;
        }
        Some(Guard { label, start: now, allocs_start: thread })
    }

    /// Ends the part that a guard began on this thread, which has allocated
    /// `thread` so far.
    pub fn finish(&mut self, g: Guard, now: Span, thread: (u64, u64))
        requires
            old(self).model().wf(),
        ensures
            final(self).model() == old(self).model().finished(g, now, thread),
            final(self).model().wf(),
    {
        let ghost m = self.model();
        let took = now.since(g.start);
        let n: u64 = thread.0.saturating_sub(g.allocs_start.0);
        let bytes: u64 = thread.1.saturating_sub(g.allocs_start.1);
        self.durations.sample(g.label, took.nanos);
        self.alloc_counts.sample(g.label, n as u128);
        self.alloc_bytes.sample(g.label, bytes as u128);
        proof {
            lemma_alike_sampled(m.alloc_counts, m.alloc_bytes, g.label@, n as u128, bytes as u128);
        }
    }
}

/// A guard counts what its own thread allocated from its beginning to its end,
/// and nothing else; the samples of other labels stay as they are.
pub proof fn guards_count_their_thread(
    m: RecorderModel,
    g: Guard,
    now: Span,
    allocs: u64,
    bytes: u64,
)
    requires
        m.wf(),
        g.allocs_start.0 + allocs <= u64::MAX,
        g.allocs_start.1 + bytes <= u64::MAX,
    ensures
        ({
            let thread = (
                (g.allocs_start.0 + allocs) as u64,
                (g.allocs_start.1 + bytes) as u64,
            );
            let r = m.finished(g, now, thread);
            &&& r.alloc_counts == sampled(m.alloc_counts, g.label@, allocs as u128)
            &&& r.alloc_bytes == sampled(m.alloc_bytes, g.label@, bytes as u128)
            &&& forall|i: int|
                0 <= i < m.alloc_counts.len() && (#[trigger] m.alloc_counts[i]).0 != g.label@
                    ==> r.alloc_counts[i] == m.alloc_counts[i]
            &&& forall|i: int|
                0 <= i < m.alloc_bytes.len() && (#[trigger] m.alloc_bytes[i]).0 != g.label@
                    ==> r.alloc_bytes[i] == m.alloc_bytes[i]
            &&& forall|i: int|
                0 <= i < m.durations.len() && (#[trigger] m.durations[i]).0 != g.label@
                    ==> r.durations[i] == m.durations[i]
        }),
{
    lemma_label_at(m.alloc_counts, g.label@, 0);
    lemma_label_at(m.alloc_bytes, g.label@, 0);
    lemma_label_at(m.durations, g.label@, 0);
}

/// Measuring a part adds one sample of its time and of its memory, and leaves
/// the values alone; while recording is off there is no part to measure.
pub proof fn parts_are_measured_once(m: RecorderModel, g: Guard, now: Span, end: (u64, u64))
    requires
        m.wf(),
    ensures
        m.finished(g, now, end).wf(),
        m.finished(g, now, end).values == m.values,
        samples_in(m.finished(g, now, end).durations) == samples_in(m.durations) + 1,
        samples_in(m.finished(g, now, end).alloc_counts) == samples_in(m.alloc_counts) + 1,
        samples_in(m.finished(g, now, end).alloc_bytes) == samples_in(m.alloc_bytes) + 1,
{
    let n = alloc_track::excess(end.0, g.allocs_start.0) as u128;
    let bytes = alloc_track::excess(end.1, g.allocs_start.1) as u128;
    let now_ = m.finished(g, now, end);
    let took = if now.nanos > g.start.nanos {
        (now.nanos - g.start.nanos) as u128
    } else {
        0
    };
    lemma_alike_sampled(m.alloc_counts, m.alloc_bytes, g.label@, n, bytes);
    lemma_samples_in(m.durations, g.label@, took);
    lemma_samples_in(m.alloc_counts, g.label@, n);
    lemma_samples_in(m.alloc_bytes, g.label@, bytes);
}

/// How many samples there are.
pub open spec fn samples_in(g: Seq<(Seq<char>, Seq<u128>)>) -> nat
    decreases g.len(),
{
    if g.len() == 0 {
        0
    } else {
        samples_in(g.drop_last()) + g.last().1.len()
    }
}

proof fn lemma_samples_update(
    g: Seq<(Seq<char>, Seq<u128>)>,
    i: int,
    e: (Seq<char>, Seq<u128>),
)
    requires
        0 <= i < g.len(),
    ensures
        samples_in(g.update(i, e)) + g[i].1.len() == samples_in(g) + e.1.len(),
    decreases g.len(),
{
    if i == g.len() - 1 {
        assert(g.update(i, e).drop_last() =~= g.drop_last());
    } else {
        assert(g.update(i, e).drop_last() =~= g.drop_last().update(i, e));
        lemma_samples_update(g.drop_last(), i, e);
    }
}

proof fn lemma_samples_in(g: Seq<(Seq<char>, Seq<u128>)>, label: Seq<char>, v: u128)
    requires
        none_empty(g),
    ensures
        samples_in(sampled(g, label, v)) == samples_in(g) + 1,
        none_empty(sampled(g, label, v)),
{
    let i = label_at(g, label, 0);
    lemma_label_at(g, label, 0);
    if i < g.len() {
        lemma_samples_update(g, i, (label, g[i].1.push(v)));
    } else {
        assert(g.push((label, seq![v])).drop_last() =~= g);
    }
}

// ── summary ─────────────────────────────────────────────────────────────────

/// What samples are.
#[derive(Debug, Clone, Copy, PartialEq, Eq, Structural)]
pub enum Unit {
    Nanos,
    Number,
    Bytes,
}

/// A time, in the unit that suits it.
pub open spec fn dur_text(nanos: nat) -> Seq<char> {
    let us = nanos / 1000;
    if us < 1_000 {
        text::digits(us) + "µs"@
    } else if us < 1_000_000 {
        crate::format::fixed_text(
            double::quotient_of(double::of_int(us), double::of_int(1000)),
            1,
        ) + "ms"@
    } else {
        crate::format::fixed_text(time::secs_of(Span { nanos: nanos as u128 }), 2) + "s"@
    }
}

/// A number of bytes, in the unit that suits it.
pub open spec fn size_text(n: nat) -> Seq<char> {
    if n < 1024 {
        text::digits(n) + "B"@
    } else if n < 1_048_576 {
        crate::format::fixed_text(
            double::quotient_of(double::of_int(n), double::of_int(1024)),
            1,
        ) + "KB"@
    } else {
        crate::format::fixed_text(
            double::quotient_of(double::of_int(n), double::of_int(1_048_576)),
            2,
        ) + "MB"@
    }
}

/// A sample as text.
pub open spec fn unit_text(v: nat, unit: Unit) -> Seq<char> {
    match unit {
        Unit::Nanos => dur_text(v),
        Unit::Number => text::digits(v),
        Unit::Bytes => size_text(v),
    }
}

/// The largest sample that can be shown.
pub open spec fn limit(unit: Unit) -> int {
    match unit {
        Unit::Nanos => MAX_NANOS as int,
        _ => u64::MAX as int,
    }
}

/// The sum of samples.
pub open spec fn total(s: Seq<u128>) -> int
    decreases s.len(),
{
    if s.len() == 0 {
        0
    } else {
        total(s.drop_last()) + s.last()
    }
}

/// The sample below which `p` of a hundred lie, of samples from the smallest up.
pub open spec fn percentile(sorted: Seq<u128>, p: int) -> u128 {
    let i = sorted.len() * p / 100;
    if i < sorted.len() {
        sorted[i]
    } else {
        sorted[sorted.len() - 1]
    }
}

/// A row of a table: a wide first column, and narrow ones that are flush right.
pub open spec fn table_row(
    first: Seq<char>,
    count: Seq<char>,
    all: Seq<char>,
    avg: Seq<char>,
    p50: Seq<char>,
    p95: Seq<char>,
    p99: Seq<char>,
    max: Seq<char>,
) -> Seq<char> {
    text::padded_right(first, 40) + " "@ + text::padded_left(count, 8) + " "@ + text::padded_left(
        all,
        10,
    ) + " "@ + text::padded_left(avg, 10) + " "@ + text::padded_left(p50, 10) + " "@
        + text::padded_left(p95, 10) + " "@ + text::padded_left(p99, 10) + " "@
        + text::padded_left(max, 10)
}

/// The row of a label.
pub open spec fn sample_row(label: Seq<char>, samples: Seq<u128>, unit: Unit) -> Seq<char> {
    let sorted = order::ascending(samples);
    let all = total(samples);
    let n = samples.len() as int;
    table_row(
        label,
        text::digits(n as nat),
        unit_text(all as nat, unit),
        unit_text((all / n) as nat, unit),
        unit_text(percentile(sorted, 50) as nat, unit),
        unit_text(percentile(sorted, 95) as nat, unit),
        unit_text(percentile(sorted, 99) as nat, unit),
        unit_text(sorted[n - 1] as nat, unit),
    )
}

/// The first row of a table.
pub open spec fn head_row(first: Seq<char>) -> Seq<char> {
    table_row(first, "count"@, "total"@, "avg"@, "p50"@, "p95"@, "p99"@, "max"@)
}

/// A horizontal line.
pub open spec fn dashes(n: nat) -> Seq<char>
    decreases n,
{
    if n == 0 {
        seq![]
    } else {
        dashes((n - 1) as nat).push('─')
    }
}

/// The colour of a row, as the terminal is told it: the more a part weighs, the
/// stronger. The weight is a number up to one.
pub open spec fn severity(weight: Double) -> Seq<char> {
    if double::at_most(double::fraction(85, 100), weight) {
        "1;91"@
    } else if double::at_most(double::fraction(65, 100), weight) {
        "91"@
    } else if double::at_most(double::fraction(45, 100), weight) {
        "33"@
    } else if double::at_most(double::fraction(25, 100), weight) {
        "36"@
    } else if double::at_most(double::fraction(10, 100), weight) {
        "37"@
    } else {
        "2;37"@
    }
}

/// A row in its colour.
pub open spec fn colored_row(row: Seq<char>, weight: Double) -> Seq<char> {
    "\u{1b}["@ + severity(weight) + "m"@ + row + "\u{1b}[0m"@
}

/// The totals of the labels.
pub open spec fn totals(g: Seq<(Seq<char>, Seq<u128>)>) -> Seq<u128> {
    g.map_values(|e: (Seq<char>, Seq<u128>)| total(e.1) as u128)
}

/// Whether the totals can be shown.
pub open spec fn fit(g: Seq<(Seq<char>, Seq<u128>)>, unit: Unit) -> bool {
    forall|i: int| 0 <= i < g.len() ==> total((#[trigger] g[i]).1) <= limit(unit)
}

/// The first `k` rows of durations, the largest total first.
pub open spec fn duration_rows(g: Seq<(Seq<char>, Seq<u128>)>, weights: Seq<Double>, k: int) -> Seq<
    Seq<char>,
>
    decreases k,
{
    if k <= 0 {
        seq![]
    } else {
        let e = g[order::ranking(totals(g))[k - 1] as int];
        duration_rows(g, weights, k - 1).push(
            colored_row(sample_row(e.0, e.1, Unit::Nanos), weights[k - 1]),
        )
    }
}

/// The rows of the first `k` labels that used memory, the most bytes first.
pub open spec fn alloc_rows(
    counts: Seq<(Seq<char>, Seq<u128>)>,
    bytes: Seq<(Seq<char>, Seq<u128>)>,
    k: int,
) -> Seq<Seq<char>>
    decreases k,
{
    if k <= 0 {
        seq![]
    } else {
        let i = order::ranking(totals(bytes))[k - 1] as int;
        alloc_rows(counts, bytes, k - 1).push(
            sample_row(counts[i].0 + "  (n)"@, counts[i].1, Unit::Number),
        ).push(sample_row(bytes[i].0 + "  (bytes)"@, bytes[i].1, Unit::Bytes))
    }
}

/// The first place from `i` on whose label stands behind another, or the end.
pub open spec fn place_of(
    g: Seq<(Seq<char>, Seq<u128>)>,
    p: Seq<usize>,
    label: Seq<char>,
    i: int,
) -> int
    decreases p.len() - i,
{
    if i >= p.len() || text::before(label, g[p[i] as int].0) {
        i
    } else {
        place_of(g, p, label, i + 1)
    }
}

/// The places of the first `n` labels, by label.
pub open spec fn label_order(g: Seq<(Seq<char>, Seq<u128>)>, n: int) -> Seq<usize>
    decreases n,
{
    if n <= 0 {
        seq![]
    } else {
        let before = label_order(g, n - 1);
        before.insert(place_of(g, before, g[n - 1].0, 0), (n - 1) as usize)
    }
}

/// The first `k` rows of values, by label.
pub open spec fn value_rows(g: Seq<(Seq<char>, Seq<u128>)>, k: int) -> Seq<Seq<char>>
    decreases k,
{
    if k <= 0 {
        seq![]
    } else {
        let e = g[label_order(g, g.len() as int)[k - 1] as int];
        value_rows(g, k - 1).push(sample_row(e.0, e.1, Unit::Number))
    }
}

/// A table with its first row and its last line.
pub open spec fn table(first: Seq<char>, rows: Seq<Seq<char>>) -> Seq<Seq<char>> {
    seq![head_row(first), dashes(TABLE_WIDTH as nat)] + rows + seq![dashes(TABLE_WIDTH as nat)]
}

/// The lines above the first table.
pub open spec fn title() -> Seq<Seq<char>> {
    seq![""@, "── perf "@ + dashes((TABLE_WIDTH - 8) as nat)]
}

/// The tables of what was measured, line by line. Nothing, where recording is
/// off or no part was measured.
pub open spec fn summary(m: RecorderModel, weights: Seq<Double>) -> Seq<Seq<char>> {
    if !m.on || m.durations.len() == 0 {
        seq![]
    } else {
        title() + table(
            "function"@,
            duration_rows(m.durations, weights, m.durations.len() as int),
        ) + (if m.alloc_bytes.len() > 0 {
            table(
                "allocs"@,
                alloc_rows(m.alloc_counts, m.alloc_bytes, m.alloc_bytes.len() as int),
            )
        } else {
            seq![]
        }) + (if m.values.len() > 0 {
            table("value (µs)"@, value_rows(m.values, m.values.len() as int))
        } else {
            seq![]
        })
    }
}

proof fn lemma_total_prefix(s: Seq<u128>, i: int)
    requires
        0 <= i <= s.len(),
    ensures
        0 <= total(s.take(i)) <= total(s),
    decreases s.len(),
{
    if i == s.len() {
        assert(s.take(i) =~= s);
        if i > 0 {
            lemma_total_prefix(s.drop_last(), i - 1);
        }
    } else {
        assert(s.take(i) =~= s.drop_last().take(i));
        lemma_total_prefix(s.drop_last(), i);
    }
}

proof fn lemma_total_bounds(s: Seq<u128>, i: int)
    requires
        0 <= i < s.len(),
    ensures
        s[i] <= total(s),
{
    lemma_total_prefix(s, i + 1);
    lemma_total_prefix(s, i);
    assert(s.take(i + 1).drop_last() =~= s.take(i));
}

/// A time as text.
fn fmt_dur(d: Span) -> (r: String)
    requires
        d.wf(),
    ensures
        r@ == dur_text(d.nanos as nat),
{
    let us: u128 = d.nanos / 1000;
    if us < 1_000 {
        let t = text::decimal(us);
        text::join(t.as_str(), "µs")
    } else if us < 1_000_000 {
        let x = Double::of(us as u64);
        let k = Double::of(1000);
        proof {
            double::lemma_of_within(us as u64);
            double::lemma_of_within(1000);
            double::lemma_quotient_within(x, k, 64, 0);
            double::lemma_within_weaken(double::quotient_of(x, k), 64, 100);
        }
        let t = crate::format::fixed(x.over(k), 1);
        text::join(t.as_str(), "ms")
    } else {
        let secs = d.secs();
        proof {
            double::lemma_within_weaken(secs, 65, 100);
        }
        let t = crate::format::fixed(secs, 2);
        text::join(t.as_str(), "s")
    }
}

/// A number of bytes as text.
fn fmt_bytes(n: u64) -> (r: String)
    ensures
        r@ == size_text(n as nat),
{
    if n < 1024 {
        let t = text::decimal(n as u128);
        return text::join(t.as_str(), "B");
    }
    let x = Double::of(n);
    let kilo = Double::of(1024);
    let mega = Double::of(1_048_576);
    proof {
        double::lemma_of_within(n);
        double::lemma_of_within(1024);
        double::lemma_of_within(1_048_576);
        double::lemma_quotient_within(x, kilo, 64, 0);
        double::lemma_quotient_within(x, mega, 64, 0);
        double::lemma_within_weaken(double::quotient_of(x, kilo), 64, 100);
        double::lemma_within_weaken(double::quotient_of(x, mega), 64, 100);
    }
    if n < 1_048_576 {
        let t = crate::format::fixed(x.over(kilo), 1);
        text::join(t.as_str(), "KB")
    } else {
        let t = crate::format::fixed(x.over(mega), 2);
        text::join(t.as_str(), "MB")
    }
}

fn fmt_unit(v: u128, unit: Unit) -> (r: String)
    requires
        v <= limit(unit),
    ensures
        r@ == unit_text(v as nat, unit),
{
    match unit {
        Unit::Nanos => fmt_dur(Span { nanos: v }),
        Unit::Number => text::decimal(v),
        Unit::Bytes => fmt_bytes(v as u64),
    }
}

fn format_cells(
    first: &str,
    count: &str,
    all: &str,
    avg: &str,
    p50: &str,
    p95: &str,
    p99: &str,
    max: &str,
) -> (s: String)
    ensures
        s@ == table_row(first@, count@, all@, avg@, p50@, p95@, p99@, max@),
{
    let mut s = text::pad_right(first, 40);
    s.append(" ");
    let t = text::pad_left(count, 8);
    s.append(t.as_str());
    s.append(" ");
    let t = text::pad_left(all, 10);
    s.append(t.as_str());
    s.append(" ");
    let t = text::pad_left(avg, 10);
    s.append(t.as_str());
    s.append(" ");
    let t = text::pad_left(p50, 10);
    s.append(t.as_str());
    s.append(" ");
    let t = text::pad_left(p95, 10);
    s.append(t.as_str());
    s.append(" ");
    let t = text::pad_left(p99, 10);
    s.append(t.as_str());
    s.append(" ");
    let t = text::pad_left(max, 10);
    s.append(t.as_str());
    s
}

fn total_of(s: &Vec<u128>) -> (r: u128)
    requires
        total(s@) <= u128::MAX,
    ensures
        r == total(s@),
{
    let mut sum: u128 = 0;
    let mut i: usize = 0;
    proof {
        assert(s@.take(0) =~= seq![]);
    }
    while i < s.len()
        invariant
            i <= s@.len(),
            sum == total(s@.take(i as int)),
            total(s@) <= u128::MAX,
        decreases s@.len() - i,
    {
        proof {
            lemma_total_prefix(s@, i + 1);
            assert(s@.take(i + 1).drop_last() =~= s@.take(i as int));
        }
        sum = sum + s[i];
        i = i + 1;
    }
    proof {
        assert(s@.take(s@.len() as int) =~= s@);
    }
    sum
}

/// Whether samples add up to no more than a bound.
fn adds_up_to(s: &Vec<u128>, most: u128) -> (r: bool)
    ensures
        r == (total(s@) <= most),
{
    let mut left: u128 = most;
    let mut i: usize = 0;
    proof {
        assert(s@.take(0) =~= seq![]);
    }
    while i < s.len()
        invariant
            i <= s@.len(),
            left == most - total(s@.take(i as int)),
        decreases s@.len() - i,
    {
        proof {
            lemma_total_prefix(s@, i + 1);
            assert(s@.take(i + 1).drop_last() =~= s@.take(i as int));
        }
        if s[i] > left {
            return false;
        }
        left = left - s[i];
        i = i + 1;
    }
    proof {
        assert(s@.take(s@.len() as int) =~= s@);
    }
    true
}

fn percentile_of(sorted: &Vec<u128>, p: u8) -> (r: u128)
    requires
        sorted@.len() > 0,
        p <= 100,
    ensures
        r == percentile(sorted@, p as int),
{
    let n: usize = sorted.len();
    proof {
        assert(n * p <= n * 100) by (nonlinear_arith)
            requires
                p <= 100,
        ;
    }
    let i: u128 = n as u128 * p as u128 / 100;
    if i < n as u128 {
        sorted[i as usize]
    } else {
        sorted[n - 1]
    }
}

/// The row of a label.
fn format_row(label: &str, samples: &Vec<u128>, unit: Unit) -> (r: String)
    requires
        samples@.len() > 0,
        total(samples@) <= limit(unit),
    ensures
        r@ == sample_row(label@, samples@, unit),
{
    let sorted = order::sort_ascending(samples);
    let all = total_of(samples);
    let n: usize = samples.len();
    let avg: u128 = all / n as u128;
    let p50 = percentile_of(&sorted, 50);
    let p95 = percentile_of(&sorted, 95);
    let p99 = percentile_of(&sorted, 99);
    let max: u128 = sorted[n - 1];
    proof {
        assert(avg <= all) by (nonlinear_arith)
            requires
                avg == all / n as u128,
                n > 0,
        ;
        order::lemma_ranking_exists(samples@);
        assert forall|i: int| 0 <= i < n implies sorted@[i] <= limit(unit) by {
            let k = order::ranking(samples@)[n - 1 - i] as int;
            assert(sorted@[i] == samples@[k]);
            lemma_total_bounds(samples@, k);
        }
    }
    let c = text::decimal(n as u128);
    let t = fmt_unit(all, unit);
    let a = fmt_unit(avg, unit);
    let b = fmt_unit(p50, unit);
    let d = fmt_unit(p95, unit);
    let e = fmt_unit(p99, unit);
    let m = fmt_unit(max, unit);
    format_cells(
        label,
        c.as_str(),
        t.as_str(),
        a.as_str(),
        b.as_str(),
        d.as_str(),
        e.as_str(),
        m.as_str(),
    )
}

fn print_header(first: &str) -> (r: String)
    ensures
        r@ == head_row(first@),
{
    format_cells(first, "count", "total", "avg", "p50", "p95", "p99", "max")
}

fn bar(n: usize) -> (s: String)
    ensures
        s@ == dashes(n as nat),
{
    let mut s = String::new();
    let mut i: usize = 0;
    while i < n
        invariant
            i <= n,
            s@ =~= dashes(i as nat),
        decreases n - i,
    {
        s.push('─');
        i = i + 1;
    }
    s
}

/// The colour of a row.
pub fn severity_color(weight: Double) -> (r: &'static str)
    requires
        weight.wf(),
    ensures
        r@ == severity(weight),
{
    if Double::fraction(85, 100).le(weight) {
        "1;91"
    } else if Double::fraction(65, 100).le(weight) {
        "91"
    } else if Double::fraction(45, 100).le(weight) {
        "33"
    } else if Double::fraction(25, 100).le(weight) {
        "36"
    } else if Double::fraction(10, 100).le(weight) {
        "37"
    } else {
        "2;37"
    }
}

fn colorize_row(row: &str, weight: Double) -> (s: String)
    requires
        weight.wf(),
    ensures
        s@ == colored_row(row@, weight),
{
    let mut s = "\u{1b}[".to_string();
    s.append(severity_color(weight));
    s.append("m");
    s.append(row);
    s.append("\u{1b}[0m");
    s
}

impl Groups {
    /// Whether the totals can be shown.
    fn can_sum(&self, unit: Unit) -> (r: bool)
        ensures
            r == fit(self.model(), unit),
    {
        let ghost g = self.model();
        let most: u128 = match unit {
            Unit::Nanos => MAX_NANOS,
            _ => u64::MAX as u128,
        };
        let mut i: usize = 0;
        while i < self.entries.len()
            invariant
                i <= self.entries@.len() == g.len(),
                g == self.model(),
                most == limit(unit),
                forall|k: int| 0 <= k < i ==> total((#[trigger] g[k]).1) <= limit(unit),
            decreases self.entries@.len() - i,
        {
            proof {
                assert(g[i as int].1 == self.entries@[i as int].1@);
            }
            if !adds_up_to(&self.entries[i].1, most) {
                return false;
            }
            i = i + 1;
        }
        true
    }

    /// The total of each label.
    fn sums(&self, Ghost(unit): Ghost<Unit>) -> (r: Vec<u128>)
        requires
            fit(self.model(), unit),
        ensures
            r@ == totals(self.model()),
    {
        let ghost g = self.model();
        let mut r: Vec<u128> = Vec::new();
        let mut i: usize = 0;
        while i < self.entries.len()
            invariant
                i <= self.entries@.len() == g.len(),
                g == self.model(),
                fit(g, unit),
                r@ =~= totals(g).take(i as int),
            decreases self.entries@.len() - i,
        {
            proof {
                assert(g[i as int].1 == self.entries@[i as int].1@);
                assert(totals(g)[i as int] == total(g[i as int].1) as u128);
            }
            r.push(total_of(&self.entries[i].1));
            i = i + 1;
        }
        proof {
            assert(totals(g).take(g.len() as int) =~= totals(g));
        }
        r
    }
}

/// The places of the labels, by label.
fn order_labels(g: &Groups) -> (p: Vec<usize>)
    ensures
        p@ == label_order(g.model(), g.model().len() as int),
        p@.len() == g.model().len(),
        forall|i: int| 0 <= i < p@.len() ==> (#[trigger] p@[i]) < g.model().len(),
{
    let ghost m = g.model();
    let mut p: Vec<usize> = Vec::new();
    let mut n: usize = 0;
    while n < g.entries.len()
        invariant
            n <= g.entries@.len() == m.len(),
            m == g.model(),
            p@ == label_order(m, n as int),
            p@.len() == n,
            forall|i: int| 0 <= i < p@.len() ==> (#[trigger] p@[i]) < n,
        decreases g.entries@.len() - n,
    {
        let label = g.entries[n].0;
        let ghost before = p@;
        let mut at: usize = 0;
        while at < p.len() && !text::is_before(label, g.entries[p[at]].0)
            invariant
                at <= p@.len() == n,
                n < g.entries@.len() == m.len(),
                m == g.model(),
                p@ == before,
                forall|i: int| 0 <= i < p@.len() ==> (#[trigger] p@[i]) < n,
                place_of(m, before, label@, 0) == place_of(m, before, label@, at as int),
            decreases p@.len() - at,
        {
            at = at + 1;
        }
        proof {
            assert(place_of(m, before, label@, 0) == at);
            assert(m[n as int].0 == label@);
        }
        p.insert(at, n);
        proof {
            assert forall|i: int| 0 <= i < p@.len() implies (#[trigger] p@[i]) < n + 1 by {
                if i < at {
                    assert(p@[i] == before[i]);
                } else if i > at {
                    assert(p@[i] == before[i - 1]);
                }
            }
        }
        n = n + 1;
    }
    p
}

fn push_table_head(out: &mut Vec<String>, first: &str)
    ensures
        tree::texts(final(out)@) == tree::texts(old(out)@) + seq![
            head_row(first@),
            dashes(TABLE_WIDTH as nat),
        ],
{
    let ghost before = tree::texts(out@);
    text::push_line(out, print_header(first));
    text::push_line(out, bar(TABLE_WIDTH));
    proof {
        assert(tree::texts(out@) =~= before + seq![head_row(first@), dashes(TABLE_WIDTH as nat)]);
    }
}

fn push_durations(out: &mut Vec<String>, g: &Groups, weights: &Vec<Double>)
    requires
        none_empty(g.model()),
        fit(g.model(), Unit::Nanos),
        weights@.len() == g.model().len(),
        forall|i: int| 0 <= i < weights@.len() ==> (#[trigger] weights@[i]).wf(),
    ensures
        tree::texts(final(out)@) == tree::texts(old(out)@) + table(
            "function"@,
            duration_rows(g.model(), weights@, g.model().len() as int),
        ),
{
    let ghost before = tree::texts(out@);
    let ghost m = g.model();
    let keys = g.sums(Ghost(Unit::Nanos));
    let p = order::rank(&keys);
    push_table_head(out, "function");
    let ghost head = tree::texts(out@);
    let mut k: usize = 0;
    proof {
        assert(head + duration_rows(m, weights@, 0) =~= head);
    }
    while k < p.len()
        invariant
            k <= p@.len() == m.len() == g.entries@.len() == weights@.len(),
            m == g.model(),
            keys@ == totals(m),
            order::is_ranking(keys@, p@),
            p@ == order::ranking(totals(m)),
            none_empty(m),
            fit(m, Unit::Nanos),
            forall|i: int| 0 <= i < weights@.len() ==> (#[trigger] weights@[i]).wf(),
            tree::texts(out@) == head + duration_rows(m, weights@, k as int),
        decreases p@.len() - k,
    {
        let e = &g.entries[p[k]];
        let ghost rows = duration_rows(m, weights@, k as int);
        proof {
            assert(m[p@[k as int] as int] == (e.0@, e.1@));
        }
        let row = format_row(e.0, &e.1, Unit::Nanos);
        let line = colorize_row(row.as_str(), weights[k]);
        let ghost added = line@;
        text::push_line(out, line);
        proof {
            assert(head + rows.push(added) =~= (head + rows).push(added));
        }
        k = k + 1;
    }
    text::push_line(out, bar(TABLE_WIDTH));
    proof {
        assert(tree::texts(out@) =~= before + table(
            "function"@,
            duration_rows(m, weights@, m.len() as int),
        ));
    }
}

fn push_allocs(out: &mut Vec<String>, counts: &Groups, bytes: &Groups)
    requires
        none_empty(counts.model()),
        none_empty(bytes.model()),
        alike(counts.model(), bytes.model()),
        fit(counts.model(), Unit::Number),
        fit(bytes.model(), Unit::Bytes),
    ensures
        tree::texts(final(out)@) == tree::texts(old(out)@) + table(
            "allocs"@,
            alloc_rows(counts.model(), bytes.model(), bytes.model().len() as int),
        ),
{
    let ghost before = tree::texts(out@);
    let ghost cs = counts.model();
    let ghost bs = bytes.model();
    let keys = bytes.sums(Ghost(Unit::Bytes));
    let p = order::rank(&keys);
    push_table_head(out, "allocs");
    let ghost head = tree::texts(out@);
    let mut k: usize = 0;
    proof {
        assert(head + alloc_rows(cs, bs, 0) =~= head);
    }
    while k < p.len()
        invariant
            k <= p@.len() == bs.len() == cs.len(),
            bs.len() == bytes.entries@.len(),
            cs.len() == counts.entries@.len(),
            cs == counts.model(),
            bs == bytes.model(),
            keys@ == totals(bs),
            order::is_ranking(keys@, p@),
            p@ == order::ranking(totals(bs)),
            none_empty(cs),
            none_empty(bs),
            fit(cs, Unit::Number),
            fit(bs, Unit::Bytes),
            tree::texts(out@) == head + alloc_rows(cs, bs, k as int),
        decreases p@.len() - k,
    {
        let i: usize = p[k];
        let c = &counts.entries[i];
        let b = &bytes.entries[i];
        let ghost rows = alloc_rows(cs, bs, k as int);
        proof {
            assert(cs[i as int] == (c.0@, c.1@));
            assert(bs[i as int] == (b.0@, b.1@));
        }
        let name = text::join(c.0, "  (n)");
        let first = format_row(name.as_str(), &c.1, Unit::Number);
        let name = text::join(b.0, "  (bytes)");
        let second = format_row(name.as_str(), &b.1, Unit::Bytes);
        let ghost one = first@;
        let ghost two = second@;
        text::push_line(out, first);
        text::push_line(out, second);
        proof {
            assert(head + rows.push(one).push(two) =~= (head + rows).push(one).push(two));
        }
        k = k + 1;
    }
    text::push_line(out, bar(TABLE_WIDTH));
    proof {
        assert(tree::texts(out@) =~= before + table("allocs"@, alloc_rows(cs, bs, bs.len() as int)));
    }
}

fn push_values(out: &mut Vec<String>, g: &Groups)
    requires
        none_empty(g.model()),
        fit(g.model(), Unit::Number),
    ensures
        tree::texts(final(out)@) == tree::texts(old(out)@) + table(
            "value (µs)"@,
            value_rows(g.model(), g.model().len() as int),
        ),
{
    let ghost before = tree::texts(out@);
    let ghost m = g.model();
    let p = order_labels(g);
    push_table_head(out, "value (µs)");
    let ghost head = tree::texts(out@);
    let mut k: usize = 0;
    proof {
        assert(head + value_rows(m, 0) =~= head);
    }
    while k < p.len()
        invariant
            k <= p@.len() == m.len() == g.entries@.len(),
            m == g.model(),
            p@ == label_order(m, m.len() as int),
            forall|i: int| 0 <= i < p@.len() ==> (#[trigger] p@[i]) < m.len(),
            none_empty(m),
            fit(m, Unit::Number),
            tree::texts(out@) == head + value_rows(m, k as int),
        decreases p@.len() - k,
    {
        let e = &g.entries[p[k]];
        let ghost rows = value_rows(m, k as int);
        proof {
            assert(m[p@[k as int] as int] == (e.0@, e.1@));
        }
        let row = format_row(e.0, &e.1, Unit::Number);
        let ghost added = row@;
        text::push_line(out, row);
        proof {
            assert(head + rows.push(added) =~= (head + rows).push(added));
        }
        k = k + 1;
    }
    text::push_line(out, bar(TABLE_WIDTH));
    proof {
        assert(tree::texts(out@) =~= before + table("value (µs)"@, value_rows(m, m.len() as int)));
    }
}

/// Whether all totals can be shown.
pub open spec fn all_fit(m: RecorderModel) -> bool {
    &&& fit(m.durations, Unit::Nanos)
    &&& fit(m.alloc_counts, Unit::Number)
    &&& fit(m.alloc_bytes, Unit::Bytes)
    &&& fit(m.values, Unit::Number)
}

impl Recorder {
    /// Whether all totals can be shown.
    pub fn can_sum(&self) -> (r: bool)
        ensures
            r == all_fit(self.model()),
    {
        self.durations.can_sum(Unit::Nanos) && self.alloc_counts.can_sum(Unit::Number)
            && self.alloc_bytes.can_sum(Unit::Bytes) && self.values.can_sum(Unit::Number)
    }

    /// The total time of each part, the largest first: the order of the rows.
    pub fn duration_totals(&self) -> (r: Vec<u128>)
        requires
            fit(self.model().durations, Unit::Nanos),
        ensures
            r@.len() == self.model().durations.len(),
            forall|i: int|
                0 <= i < r@.len() ==> #[trigger] r@[i] == totals(
                    self.model().durations,
                )[order::ranking(totals(self.model().durations))[i] as int],
    {
        let keys = self.durations.sums(Ghost(Unit::Nanos));
        let p = order::rank(&keys);
        let mut r: Vec<u128> = Vec::new();
        let mut i: usize = 0;
        while i < p.len()
            invariant
                i <= p@.len() == keys@.len(),
                order::is_ranking(keys@, p@),
                r@.len() == i,
                forall|k: int| 0 <= k < i ==> #[trigger] r@[k] == keys@[p@[k] as int],
            decreases p@.len() - i,
        {
            r.push(keys[p[i]]);
            i = i + 1;
        }
        r
    }

    /// The tables of what was measured, line by line. `weights` says of each
    /// part, in the order of the rows, how much it weighs beside the one with
    /// the largest total.
    pub fn print_summary(&self, weights: &Vec<Double>) -> (out: Vec<String>)
        requires
            self.model().wf(),
            all_fit(self.model()),
            weights@.len() == self.model().durations.len(),
            forall|i: int| 0 <= i < weights@.len() ==> (#[trigger] weights@[i]).wf(),
        ensures
            tree::texts(out@) == summary(self.model(), weights@),
    {
        let ghost m = self.model();
        let mut out: Vec<String> = Vec::new();
        proof {
            assert(tree::texts(out@) =~= seq![]);
        }
        if !self.on || self.durations.entries.len() == 0 {
            return out;
        }
        text::push_line(&mut out, "".to_string());
        let line = bar(TABLE_WIDTH - 8);
        text::push_line(&mut out, text::join("── perf ", line.as_str()));
        proof {
            assert(tree::texts(out@) =~= title());
        }
        push_durations(&mut out, &self.durations, weights);
        let ghost first = title() + table(
            "function"@,
            duration_rows(m.durations, weights@, m.durations.len() as int),
        );
        if self.alloc_bytes.entries.len() > 0 {
            push_allocs(&mut out, &self.alloc_counts, &self.alloc_bytes);
        } else {
            proof {
                assert(first + Seq::<Seq<char>>::empty() =~= first);
            }
        }
        let ghost second = tree::texts(out@);
        if self.values.entries.len() > 0 {
            push_values(&mut out, &self.values);
        } else {
            proof {
                assert(second + Seq::<Seq<char>>::empty() =~= second);
            }
        }
        out
    }
}

/// The parts stand in the order of their totals, the largest first.
pub proof fn slowest_first(g: Seq<(Seq<char>, Seq<u128>)>, i: int, j: int)
    requires
        g.len() <= usize::MAX,
        fit(g, Unit::Nanos),
        0 <= i <= j < g.len(),
    ensures
        ({
            let p = order::ranking(totals(g));
            total(g[p[i] as int].1) >= total(g[p[j] as int].1)
        }),
{
    let keys = totals(g);
    order::lemma_ranking_exists(keys);
    let p = order::ranking(keys);
    let a = p[i] as int;
    let b = p[j] as int;
    lemma_total_prefix(g[a].1, 0);
    lemma_total_prefix(g[b].1, 0);
    assert(g[a].1.take(0) =~= seq![]);
    assert(g[b].1.take(0) =~= seq![]);
    assert(keys[a] == total(g[a].1) && keys[b] == total(g[b].1));
    if i < j {
        assert(order::before(keys, p[i] as int, p[j] as int));
    }
}

proof fn lemma_place_of(
    g: Seq<(Seq<char>, Seq<u128>)>,
    p: Seq<usize>,
    label: Seq<char>,
    i: int,
)
    requires
        0 <= i <= p.len(),
    ensures
        i <= place_of(g, p, label, i) <= p.len(),
        place_of(g, p, label, i) < p.len() ==> text::before(
            label,
            g[p[place_of(g, p, label, i)] as int].0,
        ),
        forall|k: int|
            i <= k < place_of(g, p, label, i) ==> !text::before(
                label,
                g[#[trigger] p[k] as int].0,
            ),
    decreases p.len() - i,
{
    if i < p.len() && !text::before(label, g[p[i] as int].0) {
        lemma_place_of(g, p, label, i + 1);
    }
}

/// The values stand in the order of their labels, and none is left out.
pub proof fn values_are_in_order(g: Seq<(Seq<char>, Seq<u128>)>, n: int)
    requires
        0 <= n <= g.len() <= usize::MAX,
    ensures
        label_order(g, n).len() == n,
        forall|i: int| 0 <= i < n ==> (#[trigger] label_order(g, n)[i]) < n,
        forall|a: usize| a < n ==> #[trigger] label_order(g, n).contains(a),
        forall|i: int, j: int|
            0 <= i < j < n ==> !text::before(
                g[#[trigger] label_order(g, n)[j] as int].0,
                g[#[trigger] label_order(g, n)[i] as int].0,
            ),
    decreases n,
{
    if n > 0 {
        values_are_in_order(g, n - 1);
        let q = label_order(g, n - 1);
        let label = g[n - 1].0;
        let at = place_of(g, q, label, 0);
        lemma_place_of(g, q, label, 0);
        let p = label_order(g, n);
        assert(p == q.insert(at, (n - 1) as usize));
        assert(p[at] == n - 1);
        assert forall|i: int| 0 <= i < n implies (#[trigger] p[i]) < n by {
            if i < at {
                assert(p[i] == q[i]);
            } else if i > at {
                assert(p[i] == q[i - 1]);
            }
        }
        assert forall|a: usize| a < n implies #[trigger] p.contains(a) by {
            if a < n - 1 {
                assert(q.contains(a));
                let k = q.index_of(a);
                if k < at {
                    assert(p[k] == a);
                } else {
                    assert(p[k + 1] == a);
                }
            } else {
                assert(p[at] == a);
            }
        }
        assert forall|i: int, j: int| 0 <= i < j < n implies !text::before(
            g[#[trigger] p[j] as int].0,
            g[#[trigger] p[i] as int].0,
        ) by {
            let x = if i < at { i } else { i - 1 };
            let y = if j < at { j } else { j - 1 };
            if i != at && j != at {
                assert(p[i] == q[x] && p[j] == q[y]);
            } else if j == at {
                assert(p[i] == q[i]);
                assert(!text::before(label, g[q[i] as int].0));
            } else {
                assert(p[j] == q[y]);
                let b = g[q[y] as int].0;
                if text::before(b, label) {
                    let a = g[q[at] as int].0;
                    assert(text::before(label, a));
                    text::lemma_before_chain(b, label, a);
                    if y == at {
                        text::lemma_before_one_way(label, a);
                    }
                }
            }
        }
    }
}

/// A sample comes after those of its label, and a label that is new comes after
/// the others; the samples of other labels stay.
pub proof fn samples_follow_each_other(
    g: Seq<(Seq<char>, Seq<u128>)>,
    label: Seq<char>,
    v: u128,
    k: int,
)
    requires
        forall|i: int, j: int|
            0 <= i < j < g.len() ==> (#[trigger] g[i]).0 != (#[trigger] g[j]).0,
        0 <= k < g.len(),
    ensures
        ({
            let now = sampled(g, label, v);
            &&& g[k].0 == label ==> now.len() == g.len() && now[k] == (label, g[k].1.push(v))
            &&& g[k].0 != label ==> now[k] == g[k]
            &&& (forall|i: int| 0 <= i < g.len() ==> (#[trigger] g[i]).0 != label) ==> now.len()
                == g.len() + 1 && now[g.len() as int] == (label, seq![v])
        }),
{
    lemma_label_at(g, label, 0);
    let i = label_at(g, label, 0);
    if i < g.len() {
        assert(g[i].0 == label);
        if i < k {
            assert(g[i].0 != g[k].0);
        } else if k < i {
            assert(g[k].0 != g[i].0);
        }
    }
}

/// What is measured of a part is the time between its beginning and its end, and
/// what its thread took meanwhile; a value is only kept while recording is on.
pub proof fn parts_are_measured_from_end_to_end(
    m: RecorderModel,
    g: Guard,
    took: u128,
    allocs: u64,
    bytes: u64,
    label: Seq<char>,
    v: u64,
)
    requires
        g.start.nanos + took <= u128::MAX,
        g.allocs_start.0 + allocs <= u64::MAX,
        g.allocs_start.1 + bytes <= u64::MAX,
    ensures
        ({
            let now = Span { nanos: (g.start.nanos + took) as u128 };
            let thread = (
                (g.allocs_start.0 + allocs) as u64,
                (g.allocs_start.1 + bytes) as u64,
            );
            let r = m.finished(g, now, thread);
            &&& r.durations == sampled(m.durations, g.label@, took)
            &&& r.alloc_counts == sampled(m.alloc_counts, g.label@, allocs as u128)
            &&& r.alloc_bytes == sampled(m.alloc_bytes, g.label@, bytes as u128)
            &&& r.values == m.values && r.on == m.on
        }),
        m.on ==> m.valued(label, v) == (RecorderModel {
            values: sampled(m.values, label, v as u128),
            ..m
        }),
        !m.on ==> m.valued(label, v) == m,
{
}

/// Times are shown in whole microseconds, in milliseconds with one decimal, or
/// in seconds.
pub proof fn times_are_shown_in_their_unit(nanos: nat)
    requires
        nanos <= MAX_NANOS,
    ensures
        nanos < 1_000_000 ==> dur_text(nanos) == text::digits(nanos / 1000) + seq!['µ', 's'],
        1_000_000 <= nanos < 1_000_000_000 ==> exists|p: nat|
            #[trigger] crate::format::shows_ratio(
                dur_text(nanos).take(dur_text(nanos).len() - 2),
                nanos / 1000,
                1000,
                1,
                p,
            ) && dur_text(nanos) == crate::format::decimals(p, 1) + seq!['m', 's'],
        nanos >= 1_000_000_000 ==> dur_text(nanos) == crate::format::fixed_text(
            time::secs_of(Span { nanos: nanos as u128 }),
            2,
        ).push('s'),
{
    reveal_strlit("µs");
    reveal_strlit("ms");
    reveal_strlit("s");
    let t = dur_text(nanos);
    let us = nanos / 1000;
    if nanos < 1_000_000 {
        assert(t =~= text::digits(us) + seq!['µ', 's']);
    } else if nanos < 1_000_000_000 {
        assert(crate::format::ten_to(1) == 10) by {
            reveal_with_fuel(crate::format::ten_to, 3);
        }
        assert(us * crate::format::ten_to(1) == 10 * us) by (nonlinear_arith)
            requires
                crate::format::ten_to(1) == 10,
        ;
        crate::format::lemma_shown_ratio(us, 1000, 1);
        let p = double::parts_of(
            double::quotient_of(double::of_int(us), double::of_int(1000)),
            10,
        );
        assert(t =~= crate::format::decimals(p, 1) + seq!['m', 's']);
        assert(t.take(t.len() - 2) =~= crate::format::decimals(p, 1));
        assert(crate::format::shows_ratio(t.take(t.len() - 2), us, 1000, 1, p));
    } else {
        assert(t =~= crate::format::fixed_text(
            time::secs_of(Span { nanos: nanos as u128 }),
            2,
        ).push('s'));
    }
}

/// Sizes are shown in bytes, in kilobytes with one decimal, or in megabytes with
/// two.
pub proof fn sizes_are_shown_in_their_unit(n: nat)
    requires
        n < 0x1000_0000_0000_0000,
    ensures
        n < 1024 ==> size_text(n) == text::digits(n).push('B'),
        1024 <= n < 1_048_576 ==> exists|p: nat|
            #[trigger] crate::format::shows_ratio(
                size_text(n).take(size_text(n).len() - 2),
                n,
                1024,
                1,
                p,
            ) && size_text(n) == crate::format::decimals(p, 1) + seq!['K', 'B'],
        1_048_576 <= n ==> exists|p: nat|
            #[trigger] crate::format::shows_ratio(
                size_text(n).take(size_text(n).len() - 2),
                n,
                1_048_576,
                2,
                p,
            ) && size_text(n) == crate::format::decimals(p, 2) + seq!['M', 'B'],
{
    reveal_strlit("B");
    reveal_strlit("KB");
    reveal_strlit("MB");
    let t = size_text(n);
    assert(crate::format::ten_to(1) == 10 && crate::format::ten_to(2) == 100) by {
        reveal_with_fuel(crate::format::ten_to, 4);
    }
    if n < 1024 {
        assert(t =~= text::digits(n).push('B'));
    } else {
        let (d, k) = if n < 1_048_576 {
            (1024nat, 1nat)
        } else {
            (1_048_576nat, 2nat)
        };
        assert(n * crate::format::ten_to(k) <= n * 100) by (nonlinear_arith)
            requires
                crate::format::ten_to(k) <= 100,
        ;
        crate::format::lemma_shown_ratio(n, d, k);
        let p = double::parts_of(
            double::quotient_of(double::of_int(n), double::of_int(d)),
            crate::format::ten_to(k),
        );
        if n < 1_048_576 {
            assert(t =~= crate::format::decimals(p, 1) + seq!['K', 'B']);
        } else {
            assert(t =~= crate::format::decimals(p, 2) + seq!['M', 'B']);
        }
        assert(t.take(t.len() - 2) =~= crate::format::decimals(p, k));
        assert(crate::format::shows_ratio(t.take(t.len() - 2), n, d, k, p));
    }
}

/// The columns of a table stand below each other: the first is flush left, the
/// others are flush right.
pub proof fn columns_line_up(
    first: Seq<char>,
    count: Seq<char>,
    all: Seq<char>,
    avg: Seq<char>,
    p50: Seq<char>,
    p95: Seq<char>,
    p99: Seq<char>,
    max: Seq<char>,
)
    requires
        first.len() <= 40,
        count.len() <= 8,
        all.len() <= 10,
        avg.len() <= 10,
        p50.len() <= 10,
        p95.len() <= 10,
        p99.len() <= 10,
        max.len() <= 10,
    ensures
        ({
            let r = table_row(first, count, all, avg, p50, p95, p99, max);
            &&& r.len() == 115
            &&& r.subrange(0, first.len() as int) == first
            &&& r.subrange(49 - count.len(), 49) == count
            &&& r.subrange(60 - all.len(), 60) == all
            &&& r.subrange(71 - avg.len(), 71) == avg
            &&& r.subrange(82 - p50.len(), 82) == p50
            &&& r.subrange(93 - p95.len(), 93) == p95
            &&& r.subrange(104 - p99.len(), 104) == p99
            &&& r.subrange(115 - max.len(), 115) == max
        }),
{
    reveal_strlit(" ");
    let r = table_row(first, count, all, avg, p50, p95, p99, max);
    assert(r.len() == 115);
    assert(r.subrange(0, first.len() as int) =~= first);
    assert(r.subrange(49 - count.len(), 49) =~= count);
    assert(r.subrange(60 - all.len(), 60) =~= all);
    assert(r.subrange(71 - avg.len(), 71) =~= avg);
    assert(r.subrange(82 - p50.len(), 82) =~= p50);
    assert(r.subrange(93 - p95.len(), 93) =~= p95);
    assert(r.subrange(104 - p99.len(), 104) =~= p99);
    assert(r.subrange(115 - max.len(), 115) =~= max);
}

/// The total of samples is that of one part and of the other.
pub proof fn totals_add_up(a: Seq<u128>, b: Seq<u128>, v: u128)
    ensures
        total(a + b) == total(a) + total(b),
        total(seq![v]) == v,
    decreases b.len(),
{
    reveal_with_fuel(total, 2);
    assert(seq![v].drop_last() =~= seq![]);
    if b.len() == 0 {
        assert(a + b =~= a);
    } else {
        totals_add_up(a, b.drop_last(), v);
        assert((a + b).drop_last() =~= a + b.drop_last());
    }
}

/// Of the samples, in any order, more than `p` in a hundred are no larger than
/// the percentile, and the rest and it are no smaller.
pub proof fn percentiles_part_the_samples(samples: Seq<u128>, p: int) -> (at: int)
    requires
        0 < samples.len() <= usize::MAX,
        0 <= p < 100,
    ensures
        0 <= at < samples.len(),
        100 * at <= p * samples.len(),
        p * samples.len() < 100 * (at + 1),
        ({
            let s = order::ascending(samples);
            let v = percentile(s, p);
            let q = order::ranking(samples);
            let n = samples.len();
            &&& forall|i: int|
                0 <= i < n ==> s[i] == samples[#[trigger] q[n - 1 - i] as int] && (i <= at ==> s[i]
                    <= v) && (i >= at ==> s[i] >= v)
            &&& forall|i: int, j: int|
                0 <= i < j < n ==> #[trigger] q[i] != #[trigger] q[j] && q[i] < n
        }),
{
    let n = samples.len() as int;
    let s = order::ascending(samples);
    let q = order::ranking(samples);
    order::lemma_ranking_exists(samples);
    let at = n * p / 100;
    assert(n * p == p * n && 0 <= n * p < n * 100) by (nonlinear_arith)
        requires
            0 <= p < 100,
            n > 0,
    ;
    assert forall|i: int| 0 <= i < n implies s[i] == samples[#[trigger] q[n - 1 - i] as int] && (i
        <= at ==> s[i] <= s[at]) && (i >= at ==> s[i] >= s[at]) by {
        if i <= at {
            order::lemma_ascending(samples, i, at);
        } else {
            order::lemma_ascending(samples, at, i);
        }
    }
    assert forall|i: int, j: int| 0 <= i < j < n implies #[trigger] q[i] != #[trigger] q[j] && q[i]
        < n by {
        assert(order::before(samples, q[i] as int, q[j] as int));
    }
    at
}

/// The heavier a part, the stronger its colour: from 85, 65, 45, 25 and 10
/// hundredths on, but for a thousandth.
pub proof fn heavy_parts_stand_out(weight: Double)
    requires
        weight is Finite,
    ensures
        ({
            let w = 1000 * weight.units();
            let one = double::one_units();
            let s = severity(weight);
            &&& w >= 851 * one ==> s == "1;91"@
            &&& 651 * one <= w <= 849 * one ==> s == "91"@
            &&& 451 * one <= w <= 649 * one ==> s == "33"@
            &&& 251 * one <= w <= 449 * one ==> s == "36"@
            &&& 101 * one <= w <= 249 * one ==> s == "37"@
            &&& w <= 99 * one ==> s == "2;37"@
        }),
{
    let one = double::one_units();
    double::lemma_one_is_many();
    lemma_hundredths(85);
    lemma_hundredths(65);
    lemma_hundredths(45);
    lemma_hundredths(25);
    lemma_hundredths(10);
    reveal(double::less);
}

proof fn lemma_hundredths(n: nat)
    requires
        n <= 100,
    ensures
        ({
            let f = double::fraction(n, 100);
            let one = double::one_units();
            &&& f is Finite
            &&& 1000 * f.units() < 10 * (n * one) + one
            &&& 10 * (n * one) < 1000 * f.units() + one
        }),
{
    let one = double::one_units();
    double::lemma_one_is_many();
    color::lemma_parts(100 * n);
    double::lemma_nearest_scale(n * one, 100, 100);
    assert((n * one) * 100 == (100 * n) * one) by (nonlinear_arith);
}

} // verus!
