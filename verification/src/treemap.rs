//! The squarified treemap: values laid out as tiles whose areas are in
//! proportion, each as near to a square as its row allows.

use vstd::prelude::*;

use crate::double;
use crate::double::Double;
use crate::grid::Rect;
use crate::order;

verus! {

/// A value to lay out.
#[derive(Clone, Debug)]
pub struct Item<T> {
    pub value: Double,
    pub data: T,
}

/// Where a value was laid out.
#[derive(Clone, Debug)]
pub struct Tile<T> {
    pub rect: Rect,
    pub data: T,
}

/// The area that is still free.
#[derive(Clone, Copy)]
pub struct FRect {
    pub x: Double,
    pub y: Double,
    pub w: Double,
    pub h: Double,
}

impl FRect {
    /// Whether all four numbers are in their canonical form.
    pub open spec fn wf(self) -> bool {
        self.x.wf() && self.y.wf() && self.w.wf() && self.h.wf()
    }
}

/// Whether all numbers are in their canonical form.
pub open spec fn all_wf(vs: Seq<Double>) -> bool {
    forall|i: int| 0 <= i < vs.len() ==> (#[trigger] vs[i]).wf()
}

/// The sum of the values from `i` up to `j`, added from left to right.
pub open spec fn total(vs: Seq<Double>, i: int, j: int) -> Double
    decreases j - i,
{
    if j <= i {
        double::zero()
    } else {
        double::sum_of(total(vs, i, j - 1), vs[j - 1])
    }
}

/// The largest of the values from `i` up to `j`.
pub open spec fn largest(vs: Seq<Double>, i: int, j: int) -> Double
    decreases j - i,
{
    if j <= i + 1 {
        vs[i]
    } else {
        let m = largest(vs, i, j - 1);
        if double::less(m, vs[j - 1]) {
            vs[j - 1]
        } else {
            m
        }
    }
}

/// The smallest of the values from `i` up to `j`.
pub open spec fn smallest(vs: Seq<Double>, i: int, j: int) -> Double
    decreases j - i,
{
    if j <= i + 1 {
        vs[i]
    } else {
        let m = smallest(vs, i, j - 1);
        if double::less(vs[j - 1], m) {
            vs[j - 1]
        } else {
            m
        }
    }
}

/// The worst aspect ratio in a row along a side of length `short` whose areas
/// have this sum, maximum and minimum.
pub open spec fn ratio(sum: Double, max: Double, min: Double, short: Double) -> Double {
    if double::at_most(sum, double::zero()) {
        Double::Infinity
    } else {
        let s2 = double::product_of(short, short);
        let sum2 = double::product_of(sum, sum);
        double::larger(
            double::quotient_of(double::product_of(s2, max), sum2),
            double::quotient_of(sum2, double::product_of(s2, min)),
        )
    }
}

/// The worst aspect ratio when the values from `i` up to `j` share a row.
pub open spec fn row_ratio(vs: Seq<Double>, i: int, j: int, short: Double) -> Double {
    ratio(total(vs, i, j), largest(vs, i, j), smallest(vs, i, j), short)
}

/// How far the row that starts at `i` and holds the values up to `e` grows:
/// as long as one more value makes the worst aspect ratio no worse.
pub open spec fn row_end(vs: Seq<Double>, i: int, e: int, short: Double) -> int
    decreases vs.len() - e,
{
    if e < vs.len() && double::at_most(
        row_ratio(vs, i, e + 1, short),
        row_ratio(vs, i, e, short),
    ) {
        row_end(vs, i, e + 1, short)
    } else {
        e
    }
}

/// Whether the row runs along the top of the free area.
pub open spec fn along_top(b: FRect) -> bool {
    double::at_most(b.w, b.h)
}

/// How thick a row of this total area is.
pub open spec fn thickness(b: FRect, sum: Double) -> Double {
    if along_top(b) {
        double::smaller(double::quotient_of(sum, b.w), b.h)
    } else {
        double::smaller(double::quotient_of(sum, b.h), b.w)
    }
}

/// What a row of this total area leaves free.
pub open spec fn after_row(b: FRect, sum: Double) -> FRect {
    let t = thickness(b, sum);
    if along_top(b) {
        FRect { y: double::sum_of(b.y, t), h: double::difference_of(b.h, t), ..b }
    } else {
        FRect { x: double::sum_of(b.x, t), w: double::difference_of(b.w, t), ..b }
    }
}

/// The low 16 bits of a number.
pub open spec fn narrow(n: int) -> u16 {
    (n % 0x10000) as u16
}

/// A tile by its edges, and the position of its value.
#[derive(Clone, Copy)]
pub struct Placed {
    pub x0: i32,
    pub y0: i32,
    pub x1: i32,
    pub y1: i32,
    pub at: usize,
}

impl Placed {
    /// Whether the edges span anything that a screen can hold.
    pub open spec fn shows(self) -> bool {
        &&& self.x0 < self.x1 && narrow(self.x1 - self.x0) != 0
        &&& self.y0 < self.y1 && narrow(self.y1 - self.y0) != 0
    }

    /// The edges as a rectangle of the screen.
    pub open spec fn rect(self) -> Rect {
        Rect {
            top: narrow(self.y0 as int),
            left: narrow(self.x0 as int),
            width: narrow(self.x1 - self.x0),
            height: narrow(self.y1 - self.y0),
        }
    }
}

/// The whole sub-cells nearest to a rectangle; none where nothing shows.
pub open spec fn snapped(x: Double, y: Double, w: Double, h: Double, at: usize) -> Seq<Placed> {
    let placed = Placed {
        x0: double::rounded(x),
        y0: double::rounded(y),
        x1: double::rounded(double::sum_of(x, w)),
        y1: double::rounded(double::sum_of(y, h)),
        at,
    };
    if placed.shows() {
        seq![placed]
    } else {
        seq![]
    }
}

/// Where the value `k` starts in a row that starts with value `i` at `start`.
pub open spec fn offset(vs: Seq<Double>, i: int, k: int, start: Double, t: Double) -> Double
    decreases k - i,
{
    if k <= i {
        start
    } else {
        double::sum_of(offset(vs, i, k - 1, start, t), double::quotient_of(vs[k - 1], t))
    }
}

/// The tiles of the values from `i` up to `k` in a row of thickness `t`.
pub open spec fn row_tiles(vs: Seq<Double>, i: int, k: int, b: FRect, t: Double) -> Seq<Placed>
    decreases k - i,
{
    if k <= i {
        seq![]
    } else {
        let len = double::quotient_of(vs[k - 1], t);
        row_tiles(vs, i, k - 1, b, t) + if along_top(b) {
            snapped(offset(vs, i, k - 1, b.x, t), b.y, len, t, (k - 1) as usize)
        } else {
            snapped(b.x, offset(vs, i, k - 1, b.y, t), t, len, (k - 1) as usize)
        }
    }
}

/// A row ends no earlier than it has grown, and within the values.
pub proof fn lemma_row_end(vs: Seq<Double>, i: int, e: int, short: Double)
    requires
        e <= vs.len(),
    ensures
        e <= row_end(vs, i, e, short) <= vs.len(),
    decreases vs.len() - e,
{
    if e < vs.len() && double::at_most(
        row_ratio(vs, i, e + 1, short),
        row_ratio(vs, i, e, short),
    ) {
        lemma_row_end(vs, i, e + 1, short);
    }
}

/// The tiles of the values from `i` on, row after row in the free area.
pub open spec fn laid_out(vs: Seq<Double>, i: int, b: FRect) -> Seq<Placed>
    decreases vs.len() - i,
{
    let short = double::smaller(b.w, b.h);
    if i >= vs.len() || double::at_most(short, double::zero()) {
        seq![]
    } else {
        let e = row_end(vs, i, i + 1, short);
        let sum = total(vs, i, e);
        proof {
            lemma_row_end(vs, i, i + 1, short);
        }
        if double::at_most(sum, double::zero()) {
            laid_out(vs, e, b)
        } else {
            row_tiles(vs, i, e, b, thickness(b, sum)) + laid_out(vs, e, after_row(b, sum))
        }
    }
}

/// The worst aspect ratio in a row along a side of length `short`.
fn worst_ratio(sum: Double, max: Double, min: Double, short: Double) -> (r: Double)
    requires
        sum.wf(),
        max.wf(),
        min.wf(),
        short.wf(),
    ensures
        r == ratio(sum, max, min, short),
        r.wf(),
{
    if sum.le(Double::zero()) {
        return Double::Infinity;
    }
    let s2 = short.times(short);
    let sum2 = sum.times(sum);
    s2.times(max).over(sum2).max(sum2.over(s2.times(min)))
}

/// Appends the tile nearest to a rectangle, unless it is empty.
fn push_tile(out: &mut Vec<Placed>, x: Double, y: Double, w: Double, h: Double, at: usize)
    requires
        x.wf(),
        y.wf(),
        w.wf(),
        h.wf(),
    ensures
        final(out)@ == old(out)@ + snapped(x, y, w, h, at),
{
    let x0: i32 = x.round();
    let y0: i32 = y.round();
    let x1: i32 = x.plus(w).round();
    let y1: i32 = y.plus(h).round();
    proof {
        double::lemma_rounded_nonnegative(x);
        double::lemma_rounded_nonnegative(y);
    }
    if x0 < x1 && y0 < y1 {
        let dx: u32 = (x1 - x0) as u32;
        let dy: u32 = (y1 - y0) as u32;
        if dx % 0x10000 != 0 && dy % 0x10000 != 0 {
            out.push(Placed { x0, y0, x1, y1, at });
        }
    }
    proof {
        assert(out@ =~= old(out)@ + snapped(x, y, w, h, at));
    }
}

/// Lays out the values from `i` up to `e` as one row, and takes the row off
/// the free area.
fn place_row(
    vs: &Vec<Double>,
    i: usize,
    e: usize,
    sum: Double,
    bounds: &mut FRect,
    out: &mut Vec<Placed>,
)
    requires
        i < e <= vs@.len(),
        all_wf(vs@),
        sum.wf(),
        old(bounds).wf(),
        !double::at_most(sum, double::zero()),
    ensures
        final(bounds).wf(),
        *final(bounds) == after_row(*old(bounds), sum),
        final(out)@ == old(out)@ + row_tiles(
            vs@,
            i as int,
            e as int,
            *old(bounds),
            thickness(*old(bounds), sum),
        ),
{
    let b = *bounds;
    let horizontal = b.w.le(b.h);
    let t = if horizontal {
        sum.over(b.w).min(b.h)
    } else {
        sum.over(b.h).min(b.w)
    };
    let start = if horizontal {
        b.x
    } else {
        b.y
    };
    let mut pos = start;
    let mut k: usize = i;
    while k < e
        invariant
            i <= k <= e <= vs@.len(),
            all_wf(vs@),
            b.wf(),
            t.wf(),
            pos.wf(),
            t == thickness(b, sum),
            horizontal == along_top(b),
            start == (if horizontal {
                b.x
            } else {
                b.y
            }),
            pos == offset(vs@, i as int, k as int, start, t),
            out@ =~= old(out)@ + row_tiles(vs@, i as int, k as int, b, t),
        decreases e - k,
    {
        let len = vs[k].over(t);
        if horizontal {
            push_tile(out, pos, b.y, len, t, k);
        } else {
            push_tile(out, b.x, pos, t, len, k);
        }
        pos = pos.plus(len);
        k = k + 1;
    }
    proof {
        reveal(double::less);
    }
    if horizontal {
        bounds.y = b.y.plus(t);
        bounds.h = b.h.minus(t);
    } else {
        bounds.x = b.x.plus(t);
        bounds.w = b.w.minus(t);
    }
}

/// Lays out all values, row after row.
fn layout(vs: &Vec<Double>, area: FRect) -> (out: Vec<Placed>)
    requires
        all_wf(vs@),
        area.wf(),
    ensures
        out@ == laid_out(vs@, 0, area),
{
    let mut bounds = area;
    let mut out: Vec<Placed> = Vec::new();
    let mut i: usize = 0;
    proof {
        assert(out@ + laid_out(vs@, 0, area) =~= laid_out(vs@, 0, area));
    }
    while i < vs.len()
        invariant
            i <= vs@.len(),
            all_wf(vs@),
            bounds.wf(),
            out@ + laid_out(vs@, i as int, bounds) == laid_out(vs@, 0, area),
        decreases vs@.len() - i,
    {
        let short = bounds.w.min(bounds.h);
        if short.le(Double::zero()) {
            proof {
                assert(out@ + laid_out(vs@, i as int, bounds) =~= out@);
            }
            return out;
        }
        let mut e: usize = i + 1;
        let mut sum = Double::zero().plus(vs[i]);
        let mut max = vs[i];
        let mut min = vs[i];
        let mut best = worst_ratio(sum, max, min, short);
        proof {
            assert(total(vs@, i as int, i as int) == double::zero());
        }
        let mut growing = true;
        while growing && e < vs.len()
            invariant
                i < e <= vs@.len(),
                all_wf(vs@),
                short.wf(),
                sum.wf(),
                max.wf(),
                min.wf(),
                best.wf(),
                sum == total(vs@, i as int, e as int),
                max == largest(vs@, i as int, e as int),
                min == smallest(vs@, i as int, e as int),
                best == row_ratio(vs@, i as int, e as int, short),
                row_end(vs@, i as int, i + 1, short) == if growing {
                    row_end(vs@, i as int, e as int, short)
                } else {
                    e as int
                },
            decreases vs@.len() - e + (if growing { 1int } else { 0int }),
        {
            let v = vs[e];
            let sum1 = sum.plus(v);
            let max1 = if max.lt(v) {
                v
            } else {
                max
            };
            let min1 = if v.lt(min) {
                v
            } else {
                min
            };
            let cand = worst_ratio(sum1, max1, min1, short);
            if cand.le(best) {
                best = cand;
                sum = sum1;
                max = max1;
                min = min1;
                e = e + 1;
            } else {
                growing = false;
            }
        }
        let ghost b0 = bounds;
        let ghost out0 = out@;
        let ghost rest = laid_out(vs@, i as int, b0);
        if !sum.le(Double::zero()) {
            place_row(vs, i, e, sum, &mut bounds, &mut out);
            proof {
                assert(out@ + laid_out(vs@, e as int, bounds) =~= out0 + rest);
            }
        }
        i = e;
    }
    proof {
        assert(out@ + laid_out(vs@, i as int, bounds) =~= out@);
    }
    out
}

/// The factor from values to areas.
pub open spec fn scale_of(values: Seq<Double>, area: Rect) -> Double {
    double::quotient_of(
        double::product_of(double::of_int(area.width as nat), double::of_int(area.height as nat)),
        total(values, 0, values.len() as int),
    )
}

/// The areas of the values.
pub open spec fn areas(values: Seq<Double>, area: Rect) -> Seq<Double> {
    Seq::new(values.len(), |i: int| double::product_of(values[i], scale_of(values, area)))
}

/// The encodings of numbers, which order as the numbers do.
pub open spec fn codes(vs: Seq<Double>) -> Seq<u64> {
    Seq::new(vs.len(), |i: int| double::code(vs[i]))
}

/// The values at the positions of `p`.
pub open spec fn picked(vs: Seq<Double>, p: Seq<usize>) -> Seq<Double> {
    Seq::new(p.len(), |i: int| vs[p[i] as int])
}

/// The free area at the start.
pub open spec fn bounds_of(area: Rect) -> FRect {
    FRect {
        x: double::of_int(area.left as nat),
        y: double::of_int(area.top as nat),
        w: double::of_int(area.width as nat),
        h: double::of_int(area.height as nat),
    }
}

/// Whether there is nothing to lay out, or nowhere.
pub open spec fn nothing_to_lay_out(values: Seq<Double>, area: Rect) -> bool {
    ||| values.len() == 0
    ||| area.width == 0
    ||| area.height == 0
    ||| double::at_most(total(values, 0, values.len() as int), double::zero())
}

/// The tiles of positions in `p`, by what stands there.
pub open spec fn renamed(placed: Seq<Placed>, p: Seq<usize>) -> Seq<Tile<usize>> {
    Seq::new(
        placed.len(),
        |i: int| Tile { rect: placed[i].rect(), data: p[placed[i].at as int] },
    )
}

/// The tiles of `values` in `area`, largest first; the data of a tile is the
/// position of its value.
pub open spec fn squarified(values: Seq<Double>, area: Rect) -> Seq<Tile<usize>> {
    if nothing_to_lay_out(values, area) {
        seq![]
    } else {
        let vs = areas(values, area);
        let p = order::ranking(codes(vs));
        renamed(laid_out(picked(vs, p), 0, bounds_of(area)), p)
    }
}

/// Whether each value, and each area that it is scaled to, is a number.
pub open spec fn comparable(values: Seq<Double>, area: Rect) -> bool {
    &&& all_wf(values)
    &&& forall|i: int| 0 <= i < values.len() ==> !((#[trigger] values[i]) is Nan)
    &&& !nothing_to_lay_out(values, area) ==> forall|i: int|
        0 <= i < values.len() ==> !((#[trigger] areas(values, area)[i]) is Nan)
}

/// The values of items.
pub open spec fn values_of<T>(items: Seq<Item<T>>) -> Seq<Double> {
    Seq::new(items.len(), |i: int| items[i].value)
}

/// Whether the positions of tiles rise from `lo` on and stay below `hi`, and
/// each tile shows.
pub open spec fn rising(tiles: Seq<Placed>, lo: int, hi: int) -> bool {
    &&& forall|j: int| 0 <= j < tiles.len() ==> lo <= (#[trigger] tiles[j]).at < hi
    &&& forall|j: int| 0 <= j < tiles.len() ==> (#[trigger] tiles[j]).shows()
    &&& forall|j: int| 0 <= j < tiles.len() ==> 0 <= (#[trigger] tiles[j]).x0 && 0 <= tiles[j].y0
    &&& forall|j: int, l: int|
        0 <= j < l < tiles.len() ==> (#[trigger] tiles[j]).at < (#[trigger] tiles[l]).at
}

proof fn lemma_rising_joined(a: Seq<Placed>, b: Seq<Placed>, lo: int, mid: int, hi: int)
    requires
        rising(a, lo, mid),
        rising(b, mid, hi),
        lo <= mid <= hi,
    ensures
        rising(a + b, lo, hi),
{
    let c = a + b;
    assert forall|j: int, l: int| 0 <= j < l < c.len() implies (#[trigger] c[j]).at < (
    #[trigger] c[l]).at by {
        if j < a.len() && l >= a.len() {
            assert(a[j].at < mid);
            assert(b[l - a.len()].at >= mid);
        } else if j >= a.len() {
            assert(b[j - a.len()].at < b[l - a.len()].at);
        }
    }
    assert forall|j: int| 0 <= j < c.len() implies lo <= (#[trigger] c[j]).at < hi && c[j].shows()
        && 0 <= c[j].x0 && 0 <= c[j].y0 by {
        if j < a.len() {
            assert(a[j].at < mid);
        } else {
            assert(b[j - a.len()].at >= mid);
        }
    }
}

/// The tiles of a row stand in the order of its values, and none is empty.
pub proof fn lemma_row_tiles_rise(vs: Seq<Double>, i: int, k: int, b: FRect, t: Double)
    requires
        0 <= i <= k <= vs.len() <= usize::MAX,
    ensures
        rising(row_tiles(vs, i, k, b, t), i, k),
    decreases k - i,
{
    if k > i {
        lemma_row_tiles_rise(vs, i, k - 1, b, t);
        let len = double::quotient_of(vs[k - 1], t);
        let last = if along_top(b) {
            snapped(offset(vs, i, k - 1, b.x, t), b.y, len, t, (k - 1) as usize)
        } else {
            snapped(b.x, offset(vs, i, k - 1, b.y, t), t, len, (k - 1) as usize)
        };
        assert forall|j: int| 0 <= j < last.len() implies 0 <= (#[trigger] last[j]).x0 && 0
            <= last[j].y0 by {
            double::lemma_rounded_nonnegative(offset(vs, i, k - 1, b.x, t));
            double::lemma_rounded_nonnegative(offset(vs, i, k - 1, b.y, t));
            double::lemma_rounded_nonnegative(b.x);
            double::lemma_rounded_nonnegative(b.y);
        }
        lemma_rising_joined(row_tiles(vs, i, k - 1, b, t), last, i, k - 1, k);
    }
}

/// The tiles stand in the order of the values, each value at most once, and
/// none is empty.
pub proof fn lemma_laid_out_rises(vs: Seq<Double>, i: int, b: FRect)
    requires
        0 <= i <= vs.len() <= usize::MAX,
    ensures
        rising(laid_out(vs, i, b), i, vs.len() as int),
    decreases vs.len() - i,
{
    let short = double::smaller(b.w, b.h);
    if i < vs.len() && !double::at_most(short, double::zero()) {
        let e = row_end(vs, i, i + 1, short);
        let sum = total(vs, i, e);
        lemma_row_end(vs, i, i + 1, short);
        if double::at_most(sum, double::zero()) {
            lemma_laid_out_rises(vs, e, b);
        } else {
            let t = thickness(b, sum);
            let rest = after_row(b, sum);
            lemma_row_tiles_rise(vs, i, e, b, t);
            lemma_laid_out_rises(vs, e, rest);
            lemma_rising_joined(
                row_tiles(vs, i, e, b, t),
                laid_out(vs, e, rest),
                i,
                e,
                vs.len() as int,
            );
        }
    }
}

/// Whether two tiles have no sub-cell in common.
pub open spec fn apart(a: Placed, b: Placed) -> bool {
    a.x1 <= b.x0 || b.x1 <= a.x0 || a.y1 <= b.y0 || b.y1 <= a.y0
}

/// Whether no two tiles have a sub-cell in common, and each starts at or after
/// the corner of `b`.
pub open spec fn disjoint_in(tiles: Seq<Placed>, b: FRect) -> bool {
    &&& forall|j: int|
        0 <= j < tiles.len() ==> double::rounded(b.x) <= (#[trigger] tiles[j]).x0
            && double::rounded(b.y) <= tiles[j].y0
    &&& forall|j: int, l: int|
        0 <= j < l < tiles.len() ==> apart(#[trigger] tiles[j], #[trigger] tiles[l])
}

/// Whether the free area has a corner and a size.
pub open spec fn solid(b: FRect) -> bool {
    &&& b.wf()
    &&& !(b.x is Nan)
    &&& !(b.y is Nan)
    &&& b.w is Finite
    &&& b.h is Finite
}

proof fn lemma_after_row_solid(b: FRect, sum: Double)
    requires
        solid(b),
    ensures
        solid(after_row(b, sum)),
        !(thickness(b, sum) is Nan),
        double::at_most(b.x, after_row(b, sum).x),
        double::at_most(b.y, after_row(b, sum).y),
{
    reveal(double::less);
    let t = thickness(b, sum);
    assert(t is Finite);
    double::lemma_sum_number(b.x, t);
    double::lemma_sum_number(b.y, t);
    double::lemma_sum_wf(b.x, t);
    double::lemma_sum_wf(b.y, t);
    double::lemma_sum_at_least(b.x, t);
    double::lemma_sum_at_least(b.y, t);
    double::lemma_difference_finite(b.w, t);
    double::lemma_difference_finite(b.h, t);
}

proof fn lemma_offset_rises(vs: Seq<Double>, i: int, j: int, k: int, start: Double, t: Double)
    requires
        i <= j <= k,
        start.wf(),
        !(offset(vs, i, k, start, t) is Nan),
    ensures
        offset(vs, i, k, start, t).wf(),
        double::at_most(offset(vs, i, j, start, t), offset(vs, i, k, start, t)),
    decreases k - j,
{
    reveal(double::less);
    if k > i {
        let x = offset(vs, i, k - 1, start, t);
        let len = double::quotient_of(vs[k - 1], t);
        double::lemma_sum_wf(x, len);
        if j < k {
            double::lemma_sum_number(x, len);
            lemma_offset_rises(vs, i, j, k - 1, start, t);
            double::lemma_sum_at_least(x, len);
            double::lemma_at_most_chain(
                offset(vs, i, j, start, t),
                x,
                offset(vs, i, k, start, t),
            );
        }
    }
}

/// Whether a tile of a row spans the row, and starts and ends where its value
/// does.
pub open spec fn in_row(tile: Placed, vs: Seq<Double>, i: int, b: FRect, t: Double) -> bool {
    let start = if along_top(b) {
        b.x
    } else {
        b.y
    };
    let from = offset(vs, i, tile.at as int, start, t);
    let to = offset(vs, i, tile.at + 1, start, t);
    &&& !(to is Nan)
    &&& if along_top(b) {
        &&& tile.x0 == double::rounded(from)
        &&& tile.x1 == double::rounded(to)
        &&& tile.y0 == double::rounded(b.y)
        &&& tile.y1 == double::rounded(double::sum_of(b.y, t))
    } else {
        &&& tile.y0 == double::rounded(from)
        &&& tile.y1 == double::rounded(to)
        &&& tile.x0 == double::rounded(b.x)
        &&& tile.x1 == double::rounded(double::sum_of(b.x, t))
    }
}

/// Each tile of a row starts and ends where its value does.
pub proof fn lemma_row_tiles_in_row(vs: Seq<Double>, i: int, k: int, b: FRect, t: Double)
    requires
        0 <= i <= k <= vs.len() <= usize::MAX,
    ensures
        forall|j: int|
            0 <= j < row_tiles(vs, i, k, b, t).len() ==> in_row(
                #[trigger] row_tiles(vs, i, k, b, t)[j],
                vs,
                i,
                b,
                t,
            ),
    decreases k - i,
{
    if k > i {
        lemma_row_tiles_in_row(vs, i, k - 1, b, t);
        let x = offset(vs, i, k - 1, b.x, t);
        let y = offset(vs, i, k - 1, b.y, t);
        let len = double::quotient_of(vs[k - 1], t);
        let before = row_tiles(vs, i, k - 1, b, t);
        let last = if along_top(b) {
            snapped(x, b.y, len, t, (k - 1) as usize)
        } else {
            snapped(b.x, y, t, len, (k - 1) as usize)
        };
        assert(row_tiles(vs, i, k, b, t) == before + last);
        double::lemma_rounded_nonnegative(x);
        double::lemma_rounded_nonnegative(y);
        reveal(double::rounded);
        assert forall|j: int| 0 <= j < (before + last).len() implies in_row(
            #[trigger] (before + last)[j],
            vs,
            i,
            b,
            t,
        ) by {
            if j < before.len() {
                assert(in_row(before[j], vs, i, b, t));
            }
        }
    }
}

proof fn lemma_row_disjoint(vs: Seq<Double>, i: int, k: int, b: FRect, t: Double)
    requires
        0 <= i <= k <= vs.len() <= usize::MAX,
        b.wf(),
    ensures
        disjoint_in(row_tiles(vs, i, k, b, t), b),
{
    let tiles = row_tiles(vs, i, k, b, t);
    let start = if along_top(b) {
        b.x
    } else {
        b.y
    };
    lemma_row_tiles_in_row(vs, i, k, b, t);
    lemma_row_tiles_rise(vs, i, k, b, t);
    assert forall|j: int| 0 <= j < tiles.len() implies double::rounded(b.x) <= (
    #[trigger] tiles[j]).x0 && double::rounded(b.y) <= tiles[j].y0 by {
        let at = tiles[j].at as int;
        lemma_offset_rises(vs, i, i, at + 1, start, t);
        lemma_offset_rises(vs, i, at, at + 1, start, t);
        lemma_offset_rises(vs, i, i, at, start, t);
        double::lemma_rounded_monotone(start, offset(vs, i, at, start, t));
    }
    assert forall|j: int, l: int| 0 <= j < l < tiles.len() implies apart(
        #[trigger] tiles[j],
        #[trigger] tiles[l],
    ) by {
        let a = tiles[j].at as int;
        let c = tiles[l].at as int;
        lemma_offset_rises(vs, i, c, c + 1, start, t);
        lemma_offset_rises(vs, i, a + 1, c, start, t);
        double::lemma_rounded_monotone(offset(vs, i, a + 1, start, t), offset(vs, i, c, start, t));
    }
}

/// No two tiles have a sub-cell in common, and each starts at or after the
/// corner of the area.
pub proof fn lemma_laid_out_disjoint(vs: Seq<Double>, i: int, b: FRect)
    requires
        0 <= i <= vs.len() <= usize::MAX,
        solid(b),
    ensures
        disjoint_in(laid_out(vs, i, b), b),
    decreases vs.len() - i,
{
    let short = double::smaller(b.w, b.h);
    if i < vs.len() && !double::at_most(short, double::zero()) {
        let e = row_end(vs, i, i + 1, short);
        let sum = total(vs, i, e);
        lemma_row_end(vs, i, i + 1, short);
        if double::at_most(sum, double::zero()) {
            lemma_laid_out_disjoint(vs, e, b);
        } else {
            let t = thickness(b, sum);
            let rest = after_row(b, sum);
            let row = row_tiles(vs, i, e, b, t);
            let later = laid_out(vs, e, rest);
            lemma_after_row_solid(b, sum);
            lemma_row_disjoint(vs, i, e, b, t);
            lemma_row_tiles_in_row(vs, i, e, b, t);
            lemma_laid_out_disjoint(vs, e, rest);
            double::lemma_rounded_monotone(b.x, rest.x);
            double::lemma_rounded_monotone(b.y, rest.y);
            let all = row + later;
            assert forall|j: int, l: int| 0 <= j < l < all.len() implies apart(
                #[trigger] all[j],
                #[trigger] all[l],
            ) by {
                if l < row.len() {
                    assert(apart(row[j], row[l]));
                } else if j >= row.len() {
                    assert(apart(later[j - row.len()], later[l - row.len()]));
                } else {
                    assert(in_row(row[j], vs, i, b, t));
                    assert(double::rounded(rest.x) <= later[l - row.len()].x0);
                }
            }
            assert forall|j: int| 0 <= j < all.len() implies double::rounded(b.x) <= (
            #[trigger] all[j]).x0 && double::rounded(b.y) <= all[j].y0 by {
                if j < row.len() {
                    assert(double::rounded(b.x) <= row[j].x0);
                } else {
                    assert(double::rounded(rest.x) <= later[j - row.len()].x0);
                }
            }
        }
    }
}

/// Whether the edges of a tile fit the screen's coordinates.
pub open spec fn on_screen(tile: Placed) -> bool {
    tile.x1 <= u16::MAX && tile.y1 <= u16::MAX
}

/// The tiles of [`squarified`] by their edges.
pub open spec fn edges(values: Seq<Double>, area: Rect) -> Seq<Placed> {
    let vs = areas(values, area);
    laid_out(picked(vs, order::ranking(codes(vs))), 0, bounds_of(area))
}

/// A treemap: no tile is empty, no value has two tiles, a larger value comes
/// no later than a smaller one, and no cell belongs to two tiles that fit the
/// screen's coordinates.
#[verifier::rlimit(40)]
pub proof fn squarified_is_a_treemap(values: Seq<Double>, area: Rect, j: int, l: int)
    requires
        comparable(values, area),
        values.len() <= usize::MAX,
        0 <= j < l < squarified(values, area).len(),
    ensures
        ({
            let a = squarified(values, area)[j];
            let b = squarified(values, area)[l];
            &&& a.rect.width > 0 && a.rect.height > 0
            &&& a.data < values.len() && b.data < values.len() && a.data != b.data
            &&& !double::less(
                areas(values, area)[a.data as int],
                areas(values, area)[b.data as int],
            )
            &&& on_screen(edges(values, area)[j]) && on_screen(edges(values, area)[l]) ==> forall|
                row: int,
                col: int,
            |
                !(#[trigger] a.rect.covers(row, col) && #[trigger] b.rect.covers(row, col))
        }),
{
    let vs = areas(values, area);
    let p = order::ranking(codes(vs));
    let sorted = picked(vs, p);
    let bounds = bounds_of(area);
    let tiles = laid_out(sorted, 0, bounds);
    order::lemma_ranking_exists(codes(vs));
    double::lemma_of_within(area.left as u64);
    double::lemma_of_within(area.top as u64);
    double::lemma_of_within(area.width as u64);
    double::lemma_of_within(area.height as u64);
    lemma_laid_out_rises(sorted, 0, bounds);
    lemma_laid_out_disjoint(sorted, 0, bounds);
    let x = tiles[j];
    let y = tiles[l];
    assert(x.shows() && y.shows());
    assert(x.at < y.at);
    assert(order::before(codes(vs), p[x.at as int] as int, p[y.at as int] as int));
    assert(apart(x, y));
    let a = p[x.at as int] as int;
    let b = p[y.at as int] as int;
    assert(a < values.len() && b < values.len());
    double::lemma_product_wf(values[a], scale_of(values, area));
    double::lemma_product_wf(values[b], scale_of(values, area));
    double::lemma_code_order(vs[a], vs[b]);
}

/// Lays out `items` in `area`. `out` gets the tiles, largest first.
pub fn squarify_into<T: Clone>(items: &[Item<T>], area: Rect, out: &mut Vec<Tile<T>>)
    requires
        comparable(values_of(items@), area),
    ensures
        final(out)@.len() == squarified(values_of(items@), area).len(),
        forall|k: int|
            0 <= k < final(out)@.len() ==> {
                let tile = #[trigger] squarified(values_of(items@), area)[k];
                &&& final(out)@[k].rect == tile.rect
                &&& 0 <= tile.data < items@.len()
                &&& cloned(items@[tile.data as int].data, final(out)@[k].data)
            },
{
    out.clear();
    if items.len() == 0 || area.width == 0 || area.height == 0 {
        return;
    }
    let n: usize = items.len();
    let ghost values = values_of(items@);
    let mut sum = Double::zero();
    let mut i: usize = 0;
    while i < n
        invariant
            i <= n == items@.len(),
            values == values_of(items@),
            comparable(values, area),
            sum.wf(),
            sum == total(values, 0, i as int),
        decreases n - i,
    {
        proof {
            assert(values[i as int].wf());
        }
        sum = sum.plus(items[i].value);
        i = i + 1;
    }
    if sum.le(Double::zero()) {
        return;
    }
    let w = Double::of(area.width as u64);
    let h = Double::of(area.height as u64);
    let scale = w.times(h).over(sum);
    let ghost vs = areas(values, area);
    let mut scaled: Vec<Double> = Vec::new();
    let mut keys: Vec<u64> = Vec::new();
    i = 0;
    while i < n
        invariant
            i <= n == items@.len(),
            values == values_of(items@),
            vs == areas(values, area),
            comparable(values, area),
            scale.wf(),
            scale == scale_of(values, area),
            scaled@.len() == i,
            keys@.len() == i,
            all_wf(scaled@),
            forall|k: int| 0 <= k < i ==> scaled@[k] == vs[k],
            forall|k: int| 0 <= k < i ==> keys@[k] == codes(vs)[k],
        decreases n - i,
    {
        proof {
            assert(values[i as int].wf());
        }
        let v = items[i].value.times(scale);
        keys.push(v.to_bits());
        scaled.push(v);
        i = i + 1;
    }
    proof {
        assert(scaled@ =~= vs);
        assert(keys@ =~= codes(vs));
    }
    let p = order::rank(&keys);
    let mut sorted: Vec<Double> = Vec::new();
    i = 0;
    while i < n
        invariant
            i <= n == scaled@.len() == p@.len(),
            scaled@ == vs,
            all_wf(vs),
            order::is_ranking(codes(vs), p@),
            sorted@.len() == i,
            all_wf(sorted@),
            forall|k: int| 0 <= k < i ==> sorted@[k] == picked(vs, p@)[k],
        decreases n - i,
    {
        sorted.push(scaled[p[i]]);
        i = i + 1;
    }
    proof {
        assert(sorted@ =~= picked(vs, p@));
    }
    let bounds = FRect {
        x: Double::of(area.left as u64),
        y: Double::of(area.top as u64),
        w,
        h,
    };
    let tiles = layout(&sorted, bounds);
    proof {
        lemma_laid_out_rises(sorted@, 0, bounds);
    }
    let mut k: usize = 0;
    while k < tiles.len()
        invariant
            k <= tiles@.len(),
            n == items@.len() == p@.len() == sorted@.len(),
            order::is_ranking(codes(vs), p@),
            vs.len() == n,
            tiles@ == laid_out(sorted@, 0, bounds),
            squarified(values, area) == renamed(tiles@, p@),
            rising(tiles@, 0, n as int),
            out@.len() == k,
            forall|j: int|
                0 <= j < k ==> {
                    let tile = #[trigger] renamed(tiles@, p@)[j];
                    &&& out@[j].rect == tile.rect
                    &&& 0 <= tile.data < items@.len()
                    &&& cloned(items@[tile.data as int].data, out@[j].data)
                },
        decreases tiles@.len() - k,
    {
        let tile = tiles[k];
        proof {
            assert(tiles@[k as int].shows());
        }
        let at: usize = p[tile.at];
        let data = items[at].data.clone();
        let rect = Rect {
            top: (tile.y0 as u32 % 0x10000) as u16,
            left: (tile.x0 as u32 % 0x10000) as u16,
            width: ((tile.x1 - tile.x0) as u32 % 0x10000) as u16,
            height: ((tile.y1 - tile.y0) as u32 % 0x10000) as u16,
        };
        out.push(Tile { rect, data });
        k = k + 1;
    }
}

/// The numbers nearest to integers.
pub open spec fn of_ints(ns: Seq<u64>) -> Seq<Double> {
    ns.map_values(|n: u64| double::of_int(n as nat))
}

/// The sum of integers is zero, or at least one.
pub proof fn lemma_total_of_ints(ns: Seq<u64>, k: int)
    requires
        0 <= k <= ns.len(),
    ensures
        ({
            let t = total(of_ints(ns), 0, k);
            t.wf() && (t == double::zero() || double::beyond(t, 0))
        }),
    decreases k,
{
    if k > 0 {
        lemma_total_of_ints(ns, k - 1);
        let t = total(of_ints(ns), 0, k - 1);
        let v = double::of_int(ns[k - 1] as nat);
        assert(of_ints(ns)[k - 1] == v);
        double::lemma_of_within(ns[k - 1]);
        double::lemma_sum_wf(t, v);
        double::lemma_sum_beyond(t, v, ns[k - 1]);
    }
}

/// Integers can be laid out in every area.
pub proof fn lemma_integers_comparable(ns: Seq<u64>, area: Rect)
    ensures
        comparable(of_ints(ns), area),
{
    let values = of_ints(ns);
    assert forall|i: int| 0 <= i < values.len() implies (#[trigger] values[i]).wf()
        && !(values[i] is Nan) by {
        double::lemma_of_within(ns[i]);
    }
    if !nothing_to_lay_out(values, area) {
        let t = total(values, 0, values.len() as int);
        let w = double::of_int(area.width as nat);
        let h = double::of_int(area.height as nat);
        lemma_total_of_ints(ns, ns.len() as int);
        assert(t != double::zero()) by {
            reveal(double::less);
        }
        double::lemma_of_within(area.width as u64);
        double::lemma_of_within(area.height as u64);
        double::lemma_product_within(w, h, 64, 64);
        double::lemma_quotient_within(double::product_of(w, h), t, 128, 0);
        assert forall|i: int| 0 <= i < values.len() implies !((#[trigger] areas(
            values,
            area,
        )[i]) is Nan) by {
            double::lemma_of_within(ns[i]);
            double::lemma_product_within(values[i], scale_of(values, area), 64, 128);
        }
    }
}

} // verus!
