//! Tiles stand in rows that make them as near to squares as can be.
//!
//! A row runs along the shorter side of what is free. It takes values as long as
//! one more makes no tile narrower than the narrowest one was.

use vstd::arithmetic::power2::*;
use vstd::prelude::*;

use crate::double;
use crate::double::Double;
use crate::grid::Rect;
use crate::order;
use crate::tile_bounds;
use crate::tile_bounds::{exact, grained, short, MOST_VALUES};
use crate::treemap;
use crate::treemap::{FRect, Placed};

verus! {

/// A row: which values it holds, what was free before it, how thick it is, and
/// where its tiles begin and end along it.
#[verifier::ext_equal]
pub struct Row {
    pub from: int,
    pub to: int,
    pub free: FRect,
    pub thick: Double,
    pub ends: Seq<Double>,
}

/// How long a tile is for its width, or how wide for its length: a tile of area
/// `v` in a row of area `sum` along a side is `v * side / sum` long and
/// `sum / side` wide.
pub open spec fn aspect(v: Double, sum: Double, side: Double) -> Double {
    let a = double::product_of(double::product_of(side, side), v);
    let b = double::product_of(sum, sum);
    double::larger(double::quotient_of(a, b), double::quotient_of(b, a))
}

/// The aspect of the tile of value `k` in a row of the values from `i` up to `j`.
pub open spec fn aspect_in(vs: Seq<Double>, i: int, j: int, k: int, side: Double) -> Double {
    aspect(vs[k], treemap::total(vs, i, j), side)
}

/// Whether each tile of the row up to `j + 1` is at least as near to a square as
/// some tile of the row up to `j`.
pub open spec fn no_worse(vs: Seq<Double>, i: int, j: int, side: Double) -> bool {
    forall|k: int|
        i <= k <= j ==> exists|l: int|
            i <= l < j && double::at_most(
                #[trigger] aspect_in(vs, i, j + 1, k, side),
                #[trigger] aspect_in(vs, i, j, l, side),
            )
}

/// Whether some tile of the row up to `j + 1` is farther from a square than
/// every tile of the row up to `j`.
pub open spec fn worse(vs: Seq<Double>, i: int, j: int, side: Double) -> bool {
    exists|k: int|
        i <= k <= j && forall|l: int|
            i <= l < j ==> double::less(
                #[trigger] aspect_in(vs, i, j, l, side),
                #[trigger] aspect_in(vs, i, j + 1, k, side),
            )
}

impl Row {
    /// Whether the row runs along the top: the free area is no wider than high.
    pub open spec fn along(self) -> bool {
        self.free.w.units() <= self.free.h.units()
    }

    /// The side that the row runs along: the shorter one.
    pub open spec fn side(self) -> Double {
        if self.along() {
            self.free.w
        } else {
            self.free.h
        }
    }

    /// The other side.
    pub open spec fn deep(self) -> Double {
        if self.along() {
            self.free.h
        } else {
            self.free.w
        }
    }

    /// What is free after the row.
    pub open spec fn left(self) -> FRect {
        if self.along() {
            FRect {
                x: self.free.x,
                w: self.free.w,
                y: double::sum_of(self.free.y, self.thick),
                h: double::difference_of(self.free.h, self.thick),
            }
        } else {
            FRect {
                y: self.free.y,
                h: self.free.h,
                x: double::sum_of(self.free.x, self.thick),
                w: double::difference_of(self.free.w, self.thick),
            }
        }
    }

    /// Whether the row is as thick as its area asks for, its tiles follow each
    /// other along the side in the order of their values, and it ends with the
    /// last value or where one more would make the worst tile worse, and not
    /// before.
    pub open spec fn is_row(self, vs: Seq<Double>) -> bool {
        let sum = treemap::total(vs, self.from, self.to);
        &&& 0 <= self.from < self.to <= vs.len()
        &&& self.side().units() > 0
        &&& sum.units() > 0
        &&& self.thick == double::smaller(double::quotient_of(sum, self.side()), self.deep())
        &&& self.ends.len() == self.to - self.from + 1
        &&& self.ends[0] == if self.along() {
            self.free.x
        } else {
            self.free.y
        }
        &&& forall|j: int|
            0 <= j < self.to - self.from ==> #[trigger] self.ends[j + 1] == double::sum_of(
                self.ends[j],
                double::quotient_of(vs[self.from + j], self.thick),
            )
        &&& forall|j: int|
            self.from < j < self.to ==> #[trigger] no_worse(vs, self.from, j, self.side())
        &&& self.to == vs.len() || worse(vs, self.from, self.to, self.side())
    }

    /// The edges of the tile of value `k`, in whole sub-cells.
    pub open spec fn spot(self, k: int) -> Placed {
        let from = double::rounded(self.ends[k - self.from]);
        let to = double::rounded(self.ends[k - self.from + 1]);
        if self.along() {
            Placed {
                x0: from,
                x1: to,
                y0: double::rounded(self.free.y),
                y1: double::rounded(double::sum_of(self.free.y, self.thick)),
                at: k as usize,
            }
        } else {
            Placed {
                y0: from,
                y1: to,
                x0: double::rounded(self.free.x),
                x1: double::rounded(double::sum_of(self.free.x, self.thick)),
                at: k as usize,
            }
        }
    }
}

/// What is free after the first `k` rows.
pub open spec fn free_after(rows: Seq<Row>, k: int, b: FRect) -> FRect {
    if k <= 0 {
        b
    } else {
        rows[k - 1].left()
    }
}

/// How many values stand before row `k`.
pub open spec fn value_after(rows: Seq<Row>, k: int, i: int) -> int {
    if k <= 0 {
        i
    } else {
        rows[k - 1].to
    }
}

/// Whether rows follow each other from value `i` on, each in what the one before
/// leaves free, until all values that are not zero have a row or nothing is free.
pub open spec fn in_rows(vs: Seq<Double>, i: int, b: FRect, rows: Seq<Row>) -> bool {
    let n = rows.len() as int;
    let end = free_after(rows, n, b);
    &&& forall|k: int|
        0 <= k < n ==> {
            &&& (#[trigger] rows[k]).is_row(vs)
            &&& rows[k].free == free_after(rows, k, b)
            &&& rows[k].from == value_after(rows, k, i)
        }
    &&& end.w.units() == 0 || end.h.units() == 0 || forall|j: int|
        value_after(rows, n, i) <= j < vs.len() ==> (#[trigger] vs[j]).units() == 0
}

/// Whether a tile stands where one of the rows has it.
pub open spec fn has_spot(rows: Seq<Row>, tile: Placed) -> bool {
    exists|k: int|
        0 <= k < rows.len() && (#[trigger] rows[k]).from <= tile.at < rows[k].to && tile
            == rows[k].spot(tile.at as int)
}

/// Whether the edges of a tile hold something, and not more than a screen.
pub open spec fn spans_cells(t: Placed) -> bool {
    t.x0 < t.x1 < t.x0 + 0x10000 && t.y0 < t.y1 < t.y0 + 0x10000
}

/// Whether tiles are those of the rows: each stands where its row has it, and
/// none that holds something is missing.
pub open spec fn are_those_of(tiles: Seq<Placed>, rows: Seq<Row>) -> bool {
    &&& forall|j: int| 0 <= j < tiles.len() ==> has_spot(rows, #[trigger] tiles[j])
    &&& forall|k: int, v: int|
        0 <= k < rows.len() && rows[k].from <= v < rows[k].to && spans_cells(rows[k].spot(v))
            ==> tiles.contains(#[trigger] rows[k].spot(v))
}

// ── aspects ─────────────────────────────────────────────────────────────────

proof fn lemma_zero_units()
    ensures
        double::zero().units() == 0,
        double::zero().wf(),
{
    assert(0 * pow2(0) == 0) by (nonlinear_arith);
}

proof fn lemma_is_zero(x: Double)
    requires
        x is Finite,
        x.wf(),
        x.units() == 0,
    ensures
        x == double::zero(),
{
    if let Double::Finite { mant, exp } = x {
        lemma_pow2_pos((exp + 1074) as nat);
        let p = pow2((exp + 1074) as nat);
        assert(mant == 0) by (nonlinear_arith)
            requires
                mant as nat * p == 0,
                p > 0,
        ;
    }
}

/// A larger number has a larger quotient.
pub proof fn lemma_quotient_rises(x1: Double, x2: Double, y: Double)
    requires
        x1 is Finite,
        x2 is Finite,
        y is Finite,
        y.units() > 0,
        x1.units() <= x2.units(),
    ensures
        double::at_most(double::quotient_of(x1, y), double::quotient_of(x2, y)),
{
    reveal(double::quotient_of);
    lemma_zero_units();
    let p = double::one_units();
    let a = x1.units();
    let b = x2.units();
    assert(a * p <= b * p) by (nonlinear_arith)
        requires
            a <= b,
            p >= 0,
    ;
    double::lemma_nearest_monotone(a * p, b * p, y.units());
}

/// A larger divisor gives a smaller quotient.
pub proof fn lemma_quotient_falls(x: Double, y1: Double, y2: Double)
    requires
        x is Finite,
        x.units() > 0,
        y1 is Finite,
        y1.wf(),
        y2 is Finite,
        y2.wf(),
        y1.units() <= y2.units(),
    ensures
        double::at_most(double::quotient_of(x, y2), double::quotient_of(x, y1)),
{
    reveal(double::quotient_of);
    reveal(double::less);
    lemma_zero_units();
    let a = y1.units();
    let b = y2.units();
    let n = x.units() * double::one_units();
    if a == 0 {
        lemma_is_zero(y1);
        if b == 0 {
            lemma_is_zero(y2);
        } else {
            double::lemma_nearest_wf(n, b);
        }
    } else {
        double::lemma_nearest_scale(n, a, b);
        double::lemma_nearest_scale(n, b, a);
        assert(a * b == b * a) by (nonlinear_arith);
        assert(a * b > 0) by (nonlinear_arith)
            requires
                a > 0,
                b > 0,
        ;
        assert(n * a <= n * b) by (nonlinear_arith)
            requires
                a <= b,
                n >= 0,
        ;
        double::lemma_nearest_monotone(n * a, n * b, a * b);
    }
}

proof fn lemma_largest(vs: Seq<Double>, i: int, j: int)
    requires
        0 <= i < j <= vs.len(),
        tile_bounds::all_finite(vs),
    ensures
        exists|l: int| i <= l < j && #[trigger] vs[l] == treemap::largest(vs, i, j),
        exists|l: int| i <= l < j && #[trigger] vs[l] == treemap::smallest(vs, i, j),
        forall|l: int|
            i <= l < j ==> treemap::smallest(vs, i, j).units() <= (#[trigger] vs[l]).units()
                <= treemap::largest(vs, i, j).units(),
    decreases j - i,
{
    reveal(double::less);
    if j > i + 1 {
        lemma_largest(vs, i, j - 1);
        let a = choose|l: int| i <= l < j - 1 && #[trigger] vs[l] == treemap::largest(vs, i, j - 1);
        let b = choose|l: int| i <= l < j - 1 && #[trigger] vs[l] == treemap::smallest(vs, i, j - 1);
        assert(vs[a] is Finite && vs[b] is Finite && vs[j - 1] is Finite);
        let x = if double::less(vs[a], vs[j - 1]) {
            j - 1
        } else {
            a
        };
        let y = if double::less(vs[j - 1], vs[b]) {
            j - 1
        } else {
            b
        };
        assert(vs[x] == treemap::largest(vs, i, j));
        assert(vs[y] == treemap::smallest(vs, i, j));
    } else {
        assert(vs[i] == treemap::largest(vs, i, j));
    }
}

/// What the aspects of a row are made of can be compared.
proof fn lemma_scale(vs: Seq<Double>, i: int, j: int, side: Double)
    requires
        0 <= i < j <= vs.len() <= MOST_VALUES,
        grained(vs),
        short(side),
        treemap::total(vs, i, j).units() > 0,
    ensures
        ({
            let sum = treemap::total(vs, i, j);
            let b = double::product_of(sum, sum);
            let s2 = double::product_of(side, side);
            &&& sum is Finite
            &&& b is Finite
            &&& b.wf()
            &&& b.units() > 0
            &&& s2 is Finite
            &&& forall|l: int|
                i <= l < j ==> (#[trigger] double::product_of(s2, vs[l])) is Finite
                    && double::product_of(s2, vs[l]).wf()
        }),
{
    let sum = treemap::total(vs, i, j);
    let b = double::product_of(sum, sum);
    let s2 = double::product_of(side, side);
    let u = sum.units();
    tile_bounds::lemma_exact_bounds(vs, i, j);
    tile_bounds::lemma_total_error(vs, i, j);
    tile_bounds::lemma_total_thick(vs, i, j);
    tile_bounds::lemma_speck();
    lemma2_to64();
    lemma_pow2_adds(2, 1174);
    lemma_pow2_adds(64, 1110);
    lemma_pow2_pos(1110);
    assert(pow2(1174) >= 0x1_0000_0000_0000_0000) by (nonlinear_arith)
        requires
            pow2(1174) == 0x1_0000_0000_0000_0000 * pow2(1110),
            pow2(1110) >= 1,
    ;
    assert(double::within(sum, 102));
    double::lemma_product_within(sum, sum, 102, 102);
    lemma_pow2_adds(17, 1074);
    assert(double::within(side, 17));
    double::lemma_product_within(side, side, 17, 17);
    assert forall|l: int| i <= l < j implies (#[trigger] double::product_of(s2, vs[l])) is Finite
        && double::product_of(s2, vs[l]).wf() by {
        assert(vs[l].units() <= pow2(1114));
        assert(double::within(vs[l], 40));
        double::lemma_product_within(s2, vs[l], 34, 40);
    }
    assert(b.units() > 0) by {
        reveal(double::product_of);
        let p = double::one_units();
        lemma_pow2_adds(860, 860);
        lemma_pow2_adds(1074, 646);
        lemma_pow2_pos(646);
        lemma_pow2_pos(1074);
        let k = pow2(860);
        assert(u * u >= k * k) by (nonlinear_arith)
            requires
                u >= k,
                k >= 0,
        ;
        double::lemma_nearest_at_least(u * u, p, 646);
    }
}

/// The worst aspect of a row is the one that the layout compares.
proof fn lemma_worst(vs: Seq<Double>, i: int, j: int, side: Double)
    requires
        0 <= i < j <= vs.len() <= MOST_VALUES,
        grained(vs),
        short(side),
        treemap::total(vs, i, j).units() > 0,
    ensures
        forall|l: int|
            i <= l < j ==> double::at_most(
                #[trigger] aspect_in(vs, i, j, l, side),
                treemap::row_ratio(vs, i, j, side),
            ),
        exists|l: int|
            i <= l < j && double::at_most(
                treemap::row_ratio(vs, i, j, side),
                #[trigger] aspect_in(vs, i, j, l, side),
            ),
{
    let sum = treemap::total(vs, i, j);
    let b = double::product_of(sum, sum);
    let s2 = double::product_of(side, side);
    let max = treemap::largest(vs, i, j);
    let min = treemap::smallest(vs, i, j);
    let ratio = treemap::row_ratio(vs, i, j, side);
    lemma_zero_units();
    lemma_scale(vs, i, j, side);
    lemma_largest(vs, i, j);
    reveal(double::less);
    let x = choose|l: int| i <= l < j && #[trigger] vs[l] == max;
    let y = choose|l: int| i <= l < j && #[trigger] vs[l] == min;
    assert(double::product_of(s2, vs[x]) is Finite && double::product_of(s2, vs[y]) is Finite);
    assert forall|l: int| i <= l < j implies double::at_most(
        #[trigger] aspect_in(vs, i, j, l, side),
        ratio,
    ) by {
        let a = double::product_of(s2, vs[l]);
        assert(a is Finite);
        lemma_product_rises(s2, vs[l], max);
        lemma_product_rises(s2, min, vs[l]);
        lemma_quotient_rises(a, double::product_of(s2, max), b);
        lemma_quotient_falls(b, double::product_of(s2, min), a);
    }
    let first = double::quotient_of(double::product_of(s2, max), b);
    let second = double::quotient_of(b, double::product_of(s2, min));
    lemma_quotient_rises(double::product_of(s2, max), double::product_of(s2, max), b);
    lemma_quotient_falls(b, double::product_of(s2, min), double::product_of(s2, min));
    lemma_quotient_rises(double::product_of(s2, min), double::product_of(s2, min), b);
    lemma_quotient_falls(b, double::product_of(s2, max), double::product_of(s2, max));
    if double::less(first, second) {
        assert(double::at_most(ratio, aspect_in(vs, i, j, y, side)));
    } else {
        assert(double::at_most(ratio, aspect_in(vs, i, j, x, side)));
    }
}

proof fn lemma_product_rises(s: Double, v: Double, w: Double)
    requires
        s is Finite,
        v is Finite,
        w is Finite,
        v.units() <= w.units(),
        double::product_of(s, v) is Finite,
        double::product_of(s, w) is Finite,
    ensures
        double::product_of(s, v).units() <= double::product_of(s, w).units(),
{
    reveal(double::product_of);
    reveal(double::less);
    let x = s.units();
    let a = v.units();
    let b = w.units();
    lemma_pow2_pos(1074);
    assert(x * a <= x * b) by (nonlinear_arith)
        requires
            a <= b,
            x >= 0,
    ;
    double::lemma_nearest_monotone(x * a, x * b, double::one_units());
}

/// A total only grows.
proof fn lemma_total_grows(vs: Seq<Double>, i: int, j: int)
    requires
        0 <= i < j < vs.len() <= MOST_VALUES,
        grained(vs),
        treemap::total(vs, i, j).units() > 0,
    ensures
        treemap::total(vs, i, j + 1).units() > 0,
{
    tile_bounds::lemma_exact_bounds(vs, i, j);
    tile_bounds::lemma_exact_bounds(vs, i, j + 1);
    tile_bounds::lemma_total_error(vs, i, j);
    tile_bounds::lemma_total_error(vs, i, j + 1);
    reveal(double::less);
    double::lemma_sum_at_least(treemap::total(vs, i, j), vs[j]);
}

/// One more value makes the row no worse exactly if the layout takes it.
proof fn lemma_one_more(vs: Seq<Double>, i: int, j: int, side: Double)
    requires
        0 <= i < j < vs.len() <= MOST_VALUES,
        grained(vs),
        short(side),
        treemap::total(vs, i, j).units() > 0,
    ensures
        double::at_most(
            treemap::row_ratio(vs, i, j + 1, side),
            treemap::row_ratio(vs, i, j, side),
        ) ==> no_worse(vs, i, j, side),
        !double::at_most(
            treemap::row_ratio(vs, i, j + 1, side),
            treemap::row_ratio(vs, i, j, side),
        ) ==> worse(vs, i, j, side),
{
    let new = treemap::row_ratio(vs, i, j + 1, side);
    let old_ratio = treemap::row_ratio(vs, i, j, side);
    lemma_total_grows(vs, i, j);
    lemma_worst(vs, i, j, side);
    lemma_worst(vs, i, j + 1, side);
    reveal(double::less);
    let y = choose|l: int|
        i <= l < j && double::at_most(old_ratio, #[trigger] aspect_in(vs, i, j, l, side));
    let x = choose|l: int|
        i <= l < j + 1 && double::at_most(new, #[trigger] aspect_in(vs, i, j + 1, l, side));
    if double::at_most(new, old_ratio) {
        assert forall|k: int| i <= k <= j implies exists|l: int|
            i <= l < j && double::at_most(
                #[trigger] aspect_in(vs, i, j + 1, k, side),
                #[trigger] aspect_in(vs, i, j, l, side),
            ) by {
            assert(double::at_most(
                aspect_in(vs, i, j + 1, k, side),
                aspect_in(vs, i, j, y, side),
            ));
        }
    } else {
        assert forall|l: int| i <= l < j implies double::less(
            #[trigger] aspect_in(vs, i, j, l, side),
            #[trigger] aspect_in(vs, i, j + 1, x, side),
        ) by {
            assert(double::at_most(aspect_in(vs, i, j, l, side), old_ratio));
        }
    }
}

/// The layout takes values as long as they make the row no worse.
proof fn lemma_row_end_greedy(vs: Seq<Double>, i: int, e: int, side: Double)
    requires
        0 <= i < e <= vs.len() <= MOST_VALUES,
        grained(vs),
        short(side),
        treemap::total(vs, i, e).units() > 0,
    ensures
        ({
            let end = treemap::row_end(vs, i, e, side);
            &&& e <= end <= vs.len()
            &&& forall|j: int| e <= j < end ==> #[trigger] no_worse(vs, i, j, side)
            &&& end == vs.len() || worse(vs, i, end, side)
            &&& treemap::total(vs, i, end).units() > 0
        }),
    decreases vs.len() - e,
{
    if e < vs.len() {
        lemma_one_more(vs, i, e, side);
        if double::at_most(
            treemap::row_ratio(vs, i, e + 1, side),
            treemap::row_ratio(vs, i, e, side),
        ) {
            lemma_total_grows(vs, i, e);
            lemma_row_end_greedy(vs, i, e + 1, side);
        }
    }
}

// ── rows ────────────────────────────────────────────────────────────────────

/// Where the tiles of a row begin and end along it.
pub open spec fn ends_of(vs: Seq<Double>, i: int, e: int, start: Double, t: Double) -> Seq<Double> {
    Seq::new((e - i + 1) as nat, |j: int| treemap::offset(vs, i, i + j, start, t))
}

proof fn lemma_row_spots(vs: Seq<Double>, i: int, k: int, b: FRect, t: Double, r: Row)
    requires
        0 <= i <= k <= r.to <= vs.len() <= usize::MAX,
        r.from == i,
        r.free == b,
        r.thick == t,
        r.along() == treemap::along_top(b),
        r.ends == ends_of(
            vs,
            i,
            r.to,
            if r.along() {
                b.x
            } else {
                b.y
            },
            t,
        ),
    ensures
        forall|j: int|
            0 <= j < treemap::row_tiles(vs, i, k, b, t).len() ==> {
                let tile = #[trigger] treemap::row_tiles(vs, i, k, b, t)[j];
                i <= tile.at < k && tile == r.spot(tile.at as int)
            },
        forall|v: int|
            i <= v < k && spans_cells(r.spot(v)) ==> treemap::row_tiles(vs, i, k, b, t).contains(
                #[trigger] r.spot(v),
            ),
    decreases k - i,
{
    if k > i {
        lemma_row_spots(vs, i, k - 1, b, t, r);
        let start = if r.along() {
            b.x
        } else {
            b.y
        };
        let before = treemap::row_tiles(vs, i, k - 1, b, t);
        let now = treemap::row_tiles(vs, i, k, b, t);
        let from = treemap::offset(vs, i, k - 1, start, t);
        let len = double::quotient_of(vs[k - 1], t);
        let last = if treemap::along_top(b) {
            treemap::snapped(from, b.y, len, t, (k - 1) as usize)
        } else {
            treemap::snapped(b.x, from, t, len, (k - 1) as usize)
        };
        assert(now == before + last);
        assert(r.ends[k - 1 - i] == from);
        assert(r.ends[k - i] == double::sum_of(from, len));
        let own = r.spot(k - 1);
        assert(last =~= seq![own] || last =~= seq![]);
        assert forall|j: int| 0 <= j < now.len() implies {
            let tile = #[trigger] now[j];
            i <= tile.at < k && tile == r.spot(tile.at as int)
        } by {
            if j < before.len() {
                assert(now[j] == before[j]);
            }
        }
        assert forall|v: int| i <= v < k && spans_cells(r.spot(v)) implies now.contains(
            #[trigger] r.spot(v),
        ) by {
            if v < k - 1 {
                assert(before.contains(r.spot(v)));
                let j = choose|j: int| 0 <= j < before.len() && before[j] == r.spot(v);
                assert(now[j] == r.spot(v));
            } else {
                assert(own.shows());
                assert(now[before.len() as int] == own);
            }
        }
    }
}

/// Whether no value is larger than one before it.
pub open spec fn falling(vs: Seq<Double>) -> bool {
    forall|i: int, j: int|
        0 <= i <= j < vs.len() ==> (#[trigger] vs[j]).units() <= (#[trigger] vs[i]).units()
}

proof fn lemma_zeros_have_no_tiles(vs: Seq<Double>, i: int, b: FRect)
    requires
        0 <= i <= vs.len() <= MOST_VALUES,
        grained(vs),
        forall|j: int| i <= j < vs.len() ==> (#[trigger] vs[j]).units() == 0,
    ensures
        treemap::laid_out(vs, i, b) == Seq::<Placed>::empty(),
    decreases vs.len() - i,
{
    let side = double::smaller(b.w, b.h);
    if i < vs.len() && !double::at_most(side, double::zero()) {
        let e = treemap::row_end(vs, i, i + 1, side);
        treemap::lemma_row_end(vs, i, i + 1, side);
        lemma_exact_zeros(vs, i, e);
        tile_bounds::lemma_exact_bounds(vs, i, e);
        reveal(double::less);
        lemma_zeros_have_no_tiles(vs, e, b);
    }
}

proof fn lemma_exact_zeros(vs: Seq<Double>, i: int, j: int)
    requires
        0 <= i <= j <= vs.len(),
        forall|k: int| i <= k < j ==> (#[trigger] vs[k]).units() == 0,
    ensures
        exact(vs, i, j) == 0,
    decreases j - i,
{
    if j > i {
        lemma_exact_zeros(vs, i, j - 1);
    }
}

/// The layout is made of rows.
#[verifier::rlimit(60)]
#[verifier::spinoff_prover]
proof fn lemma_laid_out_in_rows(vs: Seq<Double>, i: int, b: FRect) -> (rows: Seq<Row>)
    requires
        0 <= i <= vs.len() <= MOST_VALUES,
        vs.len() <= usize::MAX,
        grained(vs),
        falling(vs),
        short(b.w),
        short(b.h),
    ensures
        in_rows(vs, i, b, rows),
        are_those_of(treemap::laid_out(vs, i, b), rows),
        rows.len() > 0 ==> rows[0].from == i,
        forall|k: int| 0 <= k < rows.len() ==> i <= (#[trigger] rows[k]).from,
    decreases vs.len() - i,
{
    let n = vs.len() as int;
    let side = double::smaller(b.w, b.h);
    let zero = double::zero();
    lemma_zero_units();
    reveal(double::less);
    if i >= n || double::at_most(side, zero) {
        let rows = Seq::<Row>::empty();
        assert(free_after(rows, 0, b) == b);
        assert(in_rows(vs, i, b, rows));
        rows
    } else if vs[i].units() == 0 {
        let rows = Seq::<Row>::empty();
        assert forall|j: int| i <= j < n implies (#[trigger] vs[j]).units() == 0 by {
            assert(vs[j].units() <= vs[i].units());
        }
        lemma_zeros_have_no_tiles(vs, i, b);
        rows
    } else {
        let e = treemap::row_end(vs, i, i + 1, side);
        let sum = treemap::total(vs, i, e);
        let t = treemap::thickness(b, sum);
        let rest = treemap::after_row(b, sum);
        treemap::lemma_row_end(vs, i, i + 1, side);
        assert(treemap::total(vs, i, i + 1).units() > 0) by {
            tile_bounds::lemma_exact_bounds(vs, i, i + 1);
            assert(exact(vs, i, i) == 0);
            assert(exact(vs, i, i + 1) > 0);
            tile_bounds::lemma_some_total(vs, i, i + 1);
            lemma_pow2_pos(860);
        }
        lemma_row_end_greedy(vs, i, i + 1, side);
        let start = if treemap::along_top(b) {
            b.x
        } else {
            b.y
        };
        let row = Row { from: i, to: e, free: b, thick: t, ends: ends_of(vs, i, e, start, t) };
        assert(row.along() == treemap::along_top(b));
        assert(row.side() == side);
        tile_bounds::lemma_exact_bounds(vs, i, e);
        tile_bounds::lemma_total_error(vs, i, e);
        assert(row.is_row(vs)) by {
            assert forall|j: int| 0 <= j < e - i implies #[trigger] row.ends[j + 1]
                == double::sum_of(
                row.ends[j],
                double::quotient_of(vs[i + j], t),
            ) by {
                assert(row.ends[j] == treemap::offset(vs, i, i + j, start, t));
                assert(row.ends[j + 1] == treemap::offset(vs, i, i + j + 1, start, t));
            }
            assert forall|j: int| row.from < j < row.to implies #[trigger] no_worse(
                vs,
                row.from,
                j,
                row.side(),
            ) by {
                assert(no_worse(vs, i, j, side));
            }
        }
        assert(rest == row.left());
        lemma_rest_short(b, sum);
        let later = lemma_laid_out_in_rows(vs, e, rest);
        let rows = seq![row] + later;
        let tiles = treemap::row_tiles(vs, i, e, b, t);
        let more = treemap::laid_out(vs, e, rest);
        let all = treemap::laid_out(vs, i, b);
        assert(all == tiles + more);
        lemma_row_spots(vs, i, e, b, t, row);
        assert(rows.drop_first() =~= later);
        lemma_rows_joined(vs, i, b, row, later);
        assert(are_those_of(all, rows)) by {
            assert forall|j: int| 0 <= j < all.len() implies has_spot(rows, #[trigger] all[j]) by {
                if j < tiles.len() {
                    assert(all[j] == tiles[j]);
                    assert(rows[0] == row);
                } else {
                    let tile = more[j - tiles.len()];
                    assert(all[j] == tile);
                    assert(has_spot(later, tile));
                    let k = choose|k: int|
                        0 <= k < later.len() && (#[trigger] later[k]).from <= tile.at
                            < later[k].to && tile == later[k].spot(tile.at as int);
                    assert(rows[k + 1] == later[k]);
                }
            }
            assert forall|k: int, v: int|
                0 <= k < rows.len() && rows[k].from <= v < rows[k].to && spans_cells(
                    rows[k].spot(v),
                ) implies all.contains(#[trigger] rows[k].spot(v)) by {
                if k == 0 {
                    assert(tiles.contains(row.spot(v)));
                    let j = choose|j: int| 0 <= j < tiles.len() && tiles[j] == row.spot(v);
                    assert(all[j] == row.spot(v));
                } else {
                    assert(rows[k] == later[k - 1]);
                    assert(more.contains(later[k - 1].spot(v)));
                    let j = choose|j: int| 0 <= j < more.len() && more[j] == later[k - 1].spot(v);
                    assert(all[j + tiles.len()] == later[k - 1].spot(v));
                }
            }
        }
        assert forall|k: int| 0 <= k < rows.len() implies i <= (#[trigger] rows[k]).from by {
            if k > 0 {
                assert(rows[k] == later[k - 1]);
            }
        }
        rows
    }
}

proof fn lemma_rest_short(b: FRect, sum: Double)
    requires
        short(b.w),
        short(b.h),
        sum is Finite,
    ensures
        short(treemap::after_row(b, sum).w),
        short(treemap::after_row(b, sum).h),
{
    let t = treemap::thickness(b, sum);
    tile_bounds::lemma_speck();
    reveal(double::less);
    if treemap::along_top(b) {
        assert(double::at_most(t, b.h));
        tile_bounds::lemma_near_difference(b.h, t);
    } else {
        assert(double::at_most(t, b.w));
        tile_bounds::lemma_near_difference(b.w, t);
    }
}

proof fn lemma_rows_joined(vs: Seq<Double>, i: int, b: FRect, row: Row, later: Seq<Row>)
    requires
        row.is_row(vs),
        row.from == i,
        row.free == b,
        in_rows(vs, row.to, row.left(), later),
    ensures
        in_rows(vs, i, b, seq![row] + later),
{
    let rows = seq![row] + later;
    let n = rows.len() as int;
    assert forall|k: int| 0 <= k < n implies {
        &&& (#[trigger] rows[k]).is_row(vs)
        &&& rows[k].free == free_after(rows, k, b)
        &&& rows[k].from == value_after(rows, k, i)
    } by {
        if k > 0 {
            assert(rows[k] == later[k - 1]);
            if k > 1 {
                assert(rows[k - 1] == later[k - 2]);
            }
        }
    }
    if later.len() > 0 {
        assert(rows[n - 1] == later[n - 2]);
    }
    assert(free_after(rows, n, b) == free_after(later, n - 1, row.left()));
    assert(value_after(rows, n, i) == value_after(later, n - 1, row.to));
}

// ── the law ─────────────────────────────────────────────────────────────────

proof fn lemma_some_ints(ns: Seq<u64>, k: int, j: int)
    requires
        0 <= k < j <= ns.len(),
        ns[k] > 0,
    ensures
        ({
            let t = treemap::total(treemap::of_ints(ns), 0, j);
            t.wf() && (t is Infinity || t.units() > 0) && !(t is Nan)
        }),
    decreases j,
{
    let us = treemap::of_ints(ns);
    let t = treemap::total(us, 0, j - 1);
    let v = double::of_int(ns[j - 1] as nat);
    assert(us[j - 1] == v);
    treemap::lemma_total_of_ints(ns, j - 1);
    treemap::lemma_total_of_ints(ns, j);
    double::lemma_of_within(ns[j - 1]);
    double::lemma_sum_number(t, v);
    lemma_zero_units();
    reveal(double::less);
    assert(double::sum_of(t, v) is Infinity || double::sum_of(t, v) is Finite);
    if j - 1 == k {
        lemma_pow2_pos(1074);
        lemma2_to64();
        let u = v.units();
        assert(u * pow2(0) == u) by (nonlinear_arith)
            requires
                pow2(0) == 1,
        ;
        reveal(double::sum_of);
        if t is Finite {
            double::lemma_nearest_exact(v);
            double::lemma_nearest_monotone(v.units(), t.units() + v.units(), 1);
        }
    } else {
        lemma_some_ints(ns, k, j - 1);
        double::lemma_sum_at_least(t, v);
    }
}

/// Where an area has cells and a value is not zero, there is something to lay
/// out.
pub proof fn something_is_laid_out(ns: Seq<u64>, area: Rect, k: int)
    requires
        area.width > 0,
        area.height > 0,
        0 <= k < ns.len(),
        ns[k] > 0,
    ensures
        !treemap::nothing_to_lay_out(treemap::of_ints(ns), area),
{
    lemma_some_ints(ns, k, ns.len() as int);
    lemma_zero_units();
    reveal(double::less);
    assert(treemap::of_ints(ns).len() == ns.len());
}

proof fn lemma_sorted_falls(ns: Seq<u64>, area: Rect)
    requires
        tile_bounds::bounded(ns.len(), area),
        !treemap::nothing_to_lay_out(treemap::of_ints(ns), area),
        ns.len() <= usize::MAX,
    ensures
        falling(tile_bounds::sorted_areas(ns, area)),
{
    let vs = treemap::areas(treemap::of_ints(ns), area);
    let keys = treemap::codes(vs);
    let p = order::ranking(keys);
    let sorted = tile_bounds::sorted_areas(ns, area);
    tile_bounds::lemma_areas(ns, area);
    order::lemma_ranking_exists(keys);
    assert forall|i: int, j: int| 0 <= i <= j < sorted.len() implies (#[trigger] sorted[j]).units()
        <= (#[trigger] sorted[i]).units() by {
        if i < j {
            let a = p[i] as int;
            let b = p[j] as int;
            assert(order::before(keys, p[i] as int, p[j] as int));
            assert(vs[a] is Finite && vs[b] is Finite);
            double::lemma_code_order(vs[a], vs[b]);
            reveal(double::less);
        }
    }
}

/// Whether a tile is the one that a row has for value `v`, at the edges given
/// there.
pub open spec fn is_spot(tile: treemap::Tile<usize>, r: Row, v: int, p: Seq<usize>) -> bool {
    &&& r.from <= v < r.to
    &&& tile.data == p[v]
    &&& tile.rect.left == r.spot(v).x0
    &&& tile.rect.top == r.spot(v).y0
    &&& tile.rect.left + tile.rect.width == r.spot(v).x1
    &&& tile.rect.top + tile.rect.height == r.spot(v).y1
}

/// Whether a tile is one that a row has.
pub open spec fn is_in_rows(tile: treemap::Tile<usize>, rows: Seq<Row>, p: Seq<usize>) -> bool {
    exists|k: int, v: int| 0 <= k < rows.len() && is_spot(tile, #[trigger] rows[k], v, p)
        && #[trigger] in_row(rows[k], v)
}

/// Whether a row holds a value.
pub open spec fn in_row(r: Row, v: int) -> bool {
    r.from <= v < r.to
}

/// The tiles of a treemap stand in rows, the largest values first: each row runs
/// along the shorter side of what the rows before it leave free, starts at its
/// corner, and takes values up to the last one or as long as one more makes the
/// worst tile no worse. No row ends before that, however many values there are.
/// Every tile stands where its row has it, and none is missing.
pub proof fn tiles_stand_in_greedy_rows(ns: Seq<u64>, area: Rect, k: int) -> (rows: Seq<Row>)
    requires
        tile_bounds::bounded(ns.len(), area),
        ns.len() <= usize::MAX,
        area.addressable(),
        area.width > 0,
        area.height > 0,
        0 <= k < ns.len(),
        ns[k] > 0,
    ensures
        ({
            let vs = tile_bounds::sorted_areas(ns, area);
            let p = order::ranking(treemap::codes(treemap::areas(treemap::of_ints(ns), area)));
            let tiles = treemap::squarified(treemap::of_ints(ns), area);
            let whole = FRect {
                x: double::of_int(area.left as nat),
                y: double::of_int(area.top as nat),
                w: double::of_int(area.width as nat),
                h: double::of_int(area.height as nat),
            };
            &&& vs.len() == ns.len()
            &&& falling(vs)
            &&& in_rows(vs, 0, whole, rows)
            &&& forall|j: int| 0 <= j < tiles.len() ==> is_in_rows(#[trigger] tiles[j], rows, p)
            &&& forall|r: int, v: int|
                0 <= r < rows.len() && #[trigger] in_row(rows[r], v) && spans_cells(rows[r].spot(v))
                    ==> exists|j: int|
                    0 <= j < tiles.len() && is_spot(#[trigger] tiles[j], rows[r], v, p)
        }),
{
    let us = treemap::of_ints(ns);
    let vs = tile_bounds::sorted_areas(ns, area);
    let p = order::ranking(treemap::codes(treemap::areas(us, area)));
    let tiles = treemap::squarified(us, area);
    let b = treemap::bounds_of(area);
    let placed = treemap::edges(us, area);
    something_is_laid_out(ns, area, k);
    tile_bounds::lemma_start(ns, area);
    lemma_sorted_falls(ns, area);
    let rows = lemma_laid_out_in_rows(vs, 0, b);
    assert(placed == treemap::laid_out(vs, 0, b));
    tile_bounds::lemma_edges(us, area);
    assert(tiles == treemap::renamed(placed, p));
    assert forall|j: int| 0 <= j < tiles.len() implies is_in_rows(#[trigger] tiles[j], rows, p) by {
        let t = placed[j];
        assert(has_spot(rows, t));
        let k = choose|k: int|
            0 <= k < rows.len() && (#[trigger] rows[k]).from <= t.at < rows[k].to && t
                == rows[k].spot(t.at as int);
        tile_bounds::tiles_stay_inside(ns, area, j);
        assert(t.shows());
        tile_bounds::lemma_rect_edges(t);
        assert(in_row(rows[k], t.at as int));
        assert(is_spot(tiles[j], rows[k], t.at as int, p));
    }
    assert forall|r: int, v: int|
        0 <= r < rows.len() && #[trigger] in_row(rows[r], v) && spans_cells(
            rows[r].spot(v),
        ) implies exists|j: int|
        0 <= j < tiles.len() && is_spot(#[trigger] tiles[j], rows[r], v, p) by {
        let t = rows[r].spot(v);
        assert(placed.contains(t));
        let j = choose|j: int| 0 <= j < placed.len() && placed[j] == t;
        assert(rows[r].is_row(vs));
        assert(t.at == v);
        tile_bounds::tiles_stay_inside(ns, area, j);
        assert(placed[j].shows());
        tile_bounds::lemma_rect_edges(t);
        assert(is_spot(tiles[j], rows[r], v, p));
    }
    rows
}

} // verus!
