//! Tiles cover the area that they are laid out in: rows meet each other and the
//! edges, and what rounding leaves over is too thin to show.

use vstd::arithmetic::power2::*;
use vstd::prelude::*;

use crate::double;
use crate::double::{Double, MANT_END, MANT_MIN};
use crate::grid::Rect;
use crate::order;
use crate::tile_bounds;
use crate::tile_bounds::{exact, grained, lens, speck, MOST_VALUES};
use crate::treemap;
use crate::treemap::{FRect, Placed};

verus! {

// ── a row is as long as its side ────────────────────────────────────────────

/// The length of a value is hardly less than its area by the row's thickness.
proof fn lemma_length_low(v: Double, t: Double)
    requires
        v is Finite,
        v.units() <= pow2(1114),
        t is Finite,
        t.wf(),
        t.units() >= pow2(800),
    ensures
        ({
            let e = v.units() * double::one_units();
            MANT_END * e <= MANT_END * (double::quotient_of(v, t).units() * t.units()) + e
                + MANT_MIN * t.units()
        }),
{
    tile_bounds::lemma_length(v, t);
    lemma_pow2_pos(800);
    double::lemma_quotient_error(v, t);
}

/// The lengths of values are hardly less than their areas by the thickness.
proof fn lemma_lens_low(vs: Seq<Double>, i: int, k: int, t: Double)
    requires
        0 <= i <= k <= vs.len(),
        tile_bounds::moderate(vs),
        t is Finite,
        t.wf(),
        t.units() >= pow2(800),
    ensures
        ({
            let m = k - i;
            let e = exact(vs, i, k) * double::one_units();
            MANT_END * e <= MANT_END * (lens(vs, i, k, t) * t.units()) + e + MANT_MIN * (m
                * t.units())
        }),
    decreases k - i,
{
    let p = double::one_units();
    let u = t.units();
    let m = k - i;
    if k > i {
        let v = vs[k - 1];
        let q = double::quotient_of(v, t).units();
        let l0 = lens(vs, i, k - 1, t);
        let e0 = exact(vs, i, k - 1);
        lemma_lens_low(vs, i, k - 1, t);
        lemma_length_low(v, t);
        assert((l0 + q) * u == l0 * u + q * u) by (nonlinear_arith);
        assert((e0 + v.units()) * p == e0 * p + v.units() * p) by (nonlinear_arith);
        assert(m * u == (m - 1) * u + u) by (nonlinear_arith);
    } else {
        assert(0 * u == 0) by (nonlinear_arith);
        assert(0 * p == 0) by (nonlinear_arith);
        assert(m * u == 0) by (nonlinear_arith)
            requires
                m == 0,
        ;
    }
}

/// A row that is no thicker than its area by its side is hardly shorter than
/// the side.
proof fn lemma_long_row(m: int, s: nat, e: nat, w: nat, t: nat, l: nat)
    requires
        0 < m <= MOST_VALUES,
        t >= pow2(800),
        w <= 0x2_0000 * double::one_units(),
        ({
            let p = double::one_units();
            &&& MANT_END * (e * p) <= MANT_END * (l * t) + e * p + MANT_MIN * (m * t)
            &&& MANT_END * (t * w) <= MANT_END * (s * p) + s * p + MANT_MIN * w
            &&& MANT_END * s <= MANT_END * e + 2 * (m * e) + m * MANT_END
        }),
    ensures
        w <= l + 0x4000_0000 * speck() + speck(),
{
    let p = double::one_units();
    let g = s * p;
    let b = e * p;
    let a = t * w;
    let c = speck();
    tile_bounds::lemma_speck();
    if w > l + 0x4000_0000 * c + c {
        let mp = m * p;
        assert(MANT_END * g <= MANT_END * b + 2 * (m * b) + MANT_END * mp) by (nonlinear_arith)
            requires
                MANT_END * s <= MANT_END * e + 2 * (m * e) + m * MANT_END,
                b == e * p,
                g == s * p,
                mp == m * p,
        ;
        let mb = m * b;
        assert(2 * mb <= 0x2000_0000 * b) by (nonlinear_arith)
            requires
                m <= 0x1000_0000,
                b >= 0,
                mb == m * b,
        ;
        let mt = m * t;
        assert(mt <= 0x1000_0000 * t) by (nonlinear_arith)
            requires
                m <= 0x1000_0000,
                mt == m * t,
                t >= 0,
        ;
        let lt = l * t;
        let d = 0x4000_0000 * c + c;
        assert(lt + d * t <= a) by (nonlinear_arith)
            requires
                w >= l + d,
                lt == l * t,
                a == t * w,
        ;
        let ct = c * t;
        assert(d * t == 0x4000_0001 * ct) by (nonlinear_arith)
            requires
                d == 0x4000_0001 * c,
                ct == c * t,
        ;
        assert(0x4000_0000_0000_0000_0000_0000 * t <= ct) by (nonlinear_arith)
            requires
                c >= 0x4000_0000_0000_0000_0000_0000,
                ct == c * t,
        ;
        // The values cannot be much more than the row.
        assert(b <= 2 * a);
        let ma = m * a;
        assert(mb <= 2 * ma) by (nonlinear_arith)
            requires
                b <= 2 * a,
                mb == m * b,
                ma == m * a,
                m > 0,
        ;
        assert(g <= 2 * b + 2 * mp);
        assert(mp <= 0x1000_0000 * p && mp >= 0) by (nonlinear_arith)
            requires
                0 < m <= 0x1000_0000,
                mp == m * p,
                p >= 0,
        ;
        let rest = MANT_END * mp + 2 * mp + MANT_MIN * w;
        assert(rest <= 0x80_0000_0000_0000_0000_0000 * p);
        assert(rest <= ct) by {
            lemma_pow2_adds(87, 1074);
            lemma_pow2_adds(1040, 800);
            lemma_pow2_adds(64, 23);
            lemma2_to64();
            lemma_pow2_adds(1161, 679);
            lemma_pow2_pos(679);
            let k = pow2(679);
            assert(pow2(1161) * k >= pow2(1161)) by (nonlinear_arith)
                requires
                    k >= 1,
            ;
            assert(c * t >= c * pow2(800)) by (nonlinear_arith)
                requires
                    t >= pow2(800),
            ;
        }
        assert(MANT_END * a <= MANT_END * lt + 4 * ma + 6 * a + 2 * ct);
        let q = 4 * m + 6;
        assert(4 * ma + 6 * a == (q * w) * t) by (nonlinear_arith)
            requires
                ma == m * a,
                a == t * w,
                q == 4 * m + 6,
        ;
        assert(q * w <= 0x1_0000_0000 * w) by (nonlinear_arith)
            requires
                q <= 0x1_0000_0000,
                w >= 0,
        ;
        assert(q * w <= MANT_END * (0x4000_0000 * c));
        assert((q * w) * t <= (MANT_END * (0x4000_0000 * c)) * t) by (nonlinear_arith)
            requires
                q * w <= MANT_END * (0x4000_0000 * c),
                t >= 0,
        ;
        assert((MANT_END * (0x4000_0000 * c)) * t == MANT_END * (0x4000_0000 * ct))
            by (nonlinear_arith)
            requires
                ct == c * t,
        ;
        assert(t > 0) by {
            lemma_pow2_pos(800);
        }
        assert(ct > 0) by (nonlinear_arith)
            requires
                c > 0,
                t > 0,
                ct == c * t,
        ;
        assert(false);
    }
}

/// A row is no thicker than its area by its side, rounded.
proof fn lemma_not_thicker(sum: Double, side: Double, deep: Double)
    requires
        sum is Finite,
        tile_bounds::short(side),
        tile_bounds::short(deep),
        side.units() > 0,
    ensures
        ({
            let t = double::smaller(double::quotient_of(sum, side), deep);
            let g = sum.units() * double::one_units();
            MANT_END * (t.units() * side.units()) <= MANT_END * g + g + MANT_MIN * side.units()
        }),
{
    let p = double::one_units();
    let w = side.units();
    let g = sum.units() * p;
    let q = double::quotient_of(sum, side);
    let t = double::smaller(q, deep);
    tile_bounds::lemma_speck();
    reveal(double::less);
    assert(double::zero().units() == 0) by {
        assert(0 * pow2(0) == 0) by (nonlinear_arith);
    }
    if q is Finite {
        double::lemma_quotient_error(sum, side);
        assert(t.units() <= q.units());
        assert(t.units() * w <= q.units() * w) by (nonlinear_arith)
            requires
                t.units() <= q.units(),
                w >= 0,
        ;
    } else {
        // Only an area that is far larger gives no number.
        reveal(double::quotient_of);
        assert(q is Infinity);
        assert(t == deep);
        let k = pow2(1100);
        if g <= w * k {
            double::lemma_nearest_at_most(g, w, 1100);
            assert(false);
        }
        assert(deep.units() <= k) by {
            lemma2_to64();
            lemma_pow2_adds(26, 1074);
        }
        assert(t.units() * w <= w * k) by (nonlinear_arith)
            requires
                t.units() <= k,
                w >= 0,
        ;
    }
}

/// A row is hardly shorter than its side, unless it shows nothing.
proof fn lemma_row_long(
    vs: Seq<Double>,
    i: int,
    e: int,
    side: Double,
    deep: Double,
    f: nat,
)
    requires
        0 <= i < e <= vs.len() <= MOST_VALUES,
        grained(vs),
        tile_bounds::short(side),
        tile_bounds::short(deep),
        side.units() > 0,
        treemap::total(vs, i, e).units() > 0,
        tile_bounds::room(vs, i, side, deep, f),
        8 * f <= MANT_END * (double::one_units() * double::one_units()),
    ensures
        ({
            let t = double::smaller(
                double::quotient_of(treemap::total(vs, i, e), side),
                deep,
            );
            (t == deep && 8 * deep.units() < 3 * double::one_units()) || (t.units() >= pow2(800)
                && side.units() <= lens(vs, i, e, t) + 0x4000_0000 * speck() + speck())
        }),
{
    let sum = treemap::total(vs, i, e);
    let t = double::smaller(double::quotient_of(sum, side), deep);
    tile_bounds::lemma_row_length(vs, i, e, side, deep, f);
    if !(t == deep && 8 * deep.units() < 3 * double::one_units()) {
        tile_bounds::lemma_exact_bounds(vs, i, e);
        tile_bounds::lemma_total_error(vs, i, e);
        lemma_not_thicker(sum, side, deep);
        lemma_lens_low(vs, i, e, t);
        lemma_long_row(
            e - i,
            sum.units(),
            exact(vs, i, e),
            side.units(),
            t.units(),
            lens(vs, i, e, t),
        );
    }
}

/// Offsets are hardly less than the lengths before them.
proof fn lemma_offset_low(vs: Seq<Double>, i: int, k: int, start: Double, t: Double)
    requires
        0 <= i <= k <= vs.len(),
        tile_bounds::moderate(vs),
        start is Finite,
        t is Finite,
        t.wf(),
        t.units() >= pow2(800),
        start.units() + lens(vs, i, k, t) + (k - i) * speck() <= 0x4_0000 * double::one_units(),
    ensures
        start.units() + lens(vs, i, k, t) <= treemap::offset(vs, i, k, start, t).units() + (k - i)
            * speck(),
    decreases k - i,
{
    let m = k - i;
    let c = speck();
    if k > i {
        let v = vs[k - 1];
        assert(m * c == (m - 1) * c + c) by (nonlinear_arith);
        lemma_offset_low(vs, i, k - 1, start, t);
        tile_bounds::lemma_offset(vs, i, k - 1, start, t);
        tile_bounds::lemma_length(v, t);
        tile_bounds::lemma_near_sum(
            treemap::offset(vs, i, k - 1, start, t),
            double::quotient_of(v, t),
        );
    } else {
        assert(m * c == 0) by (nonlinear_arith)
            requires
                m == 0,
        ;
    }
}

/// A row reaches the edge of the area.
proof fn lemma_row_reaches(
    vs: Seq<Double>,
    i: int,
    e: int,
    start: Double,
    side: Double,
    t: Double,
    edge: int,
)
    requires
        0 <= i <= e <= vs.len() <= MOST_VALUES,
        grained(vs),
        0 <= edge < 0x2_0000,
        tile_bounds::ends_at(start, side, edge, 2 * i),
        t is Finite,
        t.wf(),
        t.units() >= pow2(800),
        lens(vs, i, e, t) <= side.units() + 0x1_8000_0000 * speck(),
        side.units() <= lens(vs, i, e, t) + 0x4000_0000 * speck() + speck(),
    ensures
        double::rounded(treemap::offset(vs, i, e, start, t)) >= edge,
{
    let p = double::one_units();
    tile_bounds::lemma_speck();
    tile_bounds::lemma_specks(2 * i, 0x2000_0000);
    tile_bounds::lemma_specks(e - i, 0x1000_0000);
    assert(edge * p <= 0x2_0000 * p) by (nonlinear_arith)
        requires
            edge <= 0x2_0000,
            p >= 0,
    ;
    tile_bounds::lemma_offset(vs, i, e, start, t);
    lemma_offset_low(vs, i, e, start, t);
    assert((2 * edge - 1) * p == 2 * (edge * p) - p) by (nonlinear_arith);
    tile_bounds::lemma_rounds_up(treemap::offset(vs, i, e, start, t), edge);
}

// ── what a row leaves ───────────────────────────────────────────────────────

/// Whether a free area is no larger than the values from `i` on, but for `f`.
pub open spec fn tight(vs: Seq<Double>, i: int, side: Double, deep: Double, f: nat) -> bool {
    MANT_END * (side.units() * deep.units()) <= MANT_END * (exact(vs, i, vs.len() as int)
        * double::one_units()) + f
}

/// What a row leaves free is hardly larger than the values that are left.
proof fn lemma_no_more_left(
    m: int,
    s: nat,
    e: nat,
    r: nat,
    w: nat,
    h: nat,
    t: nat,
    left: nat,
    f: nat,
    g: nat,
)
    requires
        0 < m <= MOST_VALUES,
        t <= h,
        w <= 0x2_0000 * double::one_units(),
        e <= r,
        w * h <= g,
        8 * f <= MANT_END * g,
        ({
            let p = double::one_units();
            &&& p * p <= g
            &&& MANT_END * (s * p) <= MANT_END * (t * w) + s * p + MANT_MIN * w
            &&& MANT_END * e <= MANT_END * s + 2 * (m * e) + m * MANT_END
            &&& s <= 2 * e + m
            &&& MANT_END * left <= MANT_END * (h - t) + (h - t) + MANT_MIN
            &&& MANT_END * (r * p) <= MANT_END * (w * h) + f
            &&& MANT_END * (w * h) <= MANT_END * (r * p) + f
        }),
    ensures
        MANT_END * (w * left) <= MANT_END * ((r - e) * double::one_units()) + f + 5 * (m * g),
{
    let p = double::one_units();
    let a = t * w;
    let gs = s * p;
    let b = e * p;
    let wh = w * h;
    let rp = r * p;
    tile_bounds::lemma_speck();
    let mp = m * p;
    assert(mp <= 0x1000_0000 * p && mp >= 0) by (nonlinear_arith)
        requires
            0 < m <= 0x1000_0000,
            mp == m * p,
            p >= 0,
    ;
    let mb = m * b;
    assert(MANT_END * b <= MANT_END * gs + 2 * mb + MANT_END * mp) by (nonlinear_arith)
        requires
            MANT_END * e <= MANT_END * s + 2 * (m * e) + m * MANT_END,
            gs == s * p,
            b == e * p,
            mb == m * b,
            mp == m * p,
    ;
    assert(gs <= 2 * b + mp) by (nonlinear_arith)
        requires
            s <= 2 * e + m,
            gs == s * p,
            b == e * p,
            mp == m * p,
            p >= 0,
    ;
    assert(b <= rp) by (nonlinear_arith)
        requires
            e <= r,
            b == e * p,
            rp == r * p,
            p >= 0,
    ;
    assert(8 * rp <= 9 * g);
    let mg = m * g;
    assert(8 * mb <= 9 * mg) by (nonlinear_arith)
        requires
            8 * b <= 9 * g,
            mb == m * b,
            mg == m * g,
            m > 0,
    ;
    assert(mg >= g) by (nonlinear_arith)
        requires
            m >= 1,
            mg == m * g,
            g >= 0,
    ;
    let d = h - t;
    let wd = w * d;
    let wl = w * left;
    assert(MANT_END * wl <= MANT_END * wd + wd + MANT_MIN * w) by (nonlinear_arith)
        requires
            MANT_END * left <= MANT_END * d + d + MANT_MIN,
            wd == w * d,
            wl == w * left,
            w >= 0,
    ;
    assert(wd == wh - a) by (nonlinear_arith)
        requires
            wd == w * d,
            d == h - t,
            wh == w * h,
            a == t * w,
    ;
    assert(a >= 0) by (nonlinear_arith)
        requires
            a == t * w,
            t >= 0,
            w >= 0,
    ;
    assert((r - e) * p == rp - b) by (nonlinear_arith)
        requires
            rp == r * p,
            b == e * p,
    ;
    assert(0x4000_0000_0000_0000_0000_0000 * p <= p * p) by (nonlinear_arith)
        requires
            p >= 0x4000_0000_0000_0000_0000_0000,
    ;
}

/// What a row leaves free is no larger than the values that are left, but for a
/// little more, unless nothing is left free.
proof fn lemma_row_leaves_no_more(
    vs: Seq<Double>,
    i: int,
    e: int,
    side: Double,
    deep: Double,
    f: nat,
    g: nat,
)
    requires
        0 <= i < e <= vs.len() <= MOST_VALUES,
        grained(vs),
        tile_bounds::short(side),
        tile_bounds::short(deep),
        side.units() > 0,
        treemap::total(vs, i, e).units() > 0,
        tile_bounds::room(vs, i, side, deep, f),
        tight(vs, i, side, deep, f),
        8 * f <= MANT_END * (double::one_units() * double::one_units()),
        double::one_units() * double::one_units() <= g,
        side.units() * deep.units() <= g,
    ensures
        ({
            let t = double::smaller(
                double::quotient_of(treemap::total(vs, i, e), side),
                deep,
            );
            let left = double::difference_of(deep, t);
            left.units() == 0 || tight(vs, e, side, left, f + 5 * ((e - i) as nat * g))
        }),
{
    let sum = treemap::total(vs, i, e);
    let q = double::quotient_of(sum, side);
    let t = double::smaller(q, deep);
    let left = double::difference_of(deep, t);
    let n = vs.len() as int;
    tile_bounds::lemma_speck();
    tile_bounds::lemma_row_length(vs, i, e, side, deep, f);
    assert(double::at_most(t, deep)) by {
        reveal(double::less);
    }
    if t == deep {
        assert(left.units() == 0) by {
            reveal(double::difference_of);
            let z = double::zero();
            assert(z.units() == 0) by {
                assert(0 * pow2(0) == 0) by (nonlinear_arith);
            }
            double::lemma_nearest_exact(z);
        }
    } else {
        tile_bounds::lemma_exact_bounds(vs, i, e);
        tile_bounds::lemma_total_error(vs, i, e);
        tile_bounds::lemma_exact_split(vs, i, e, n);
        double::lemma_difference_error(deep, t);
        double::lemma_quotient_error(sum, side);
        lemma_no_more_left(
            e - i,
            sum.units(),
            exact(vs, i, e),
            exact(vs, i, n),
            side.units(),
            deep.units(),
            t.units(),
            left.units(),
            f,
            g,
        );
        assert(exact(vs, i, n) - exact(vs, i, e) == exact(vs, e, n));
    }
}

// ── cells ───────────────────────────────────────────────────────────────────

/// Whether a sub-cell belongs to a tile.
pub open spec fn holds(tile: Placed, x: int, y: int) -> bool {
    tile.x0 <= x < tile.x1 && tile.y0 <= y < tile.y1
}

/// Whether a sub-cell belongs to one of some tiles.
pub open spec fn covered(tiles: Seq<Placed>, x: int, y: int) -> bool {
    exists|j: int| 0 <= j < tiles.len() && holds(#[trigger] tiles[j], x, y)
}

proof fn lemma_covered_first(a: Seq<Placed>, b: Seq<Placed>, x: int, y: int)
    requires
        covered(a, x, y),
    ensures
        covered(a + b, x, y),
{
    let j = choose|j: int| 0 <= j < a.len() && holds(#[trigger] a[j], x, y);
    assert(holds((a + b)[j], x, y));
}

proof fn lemma_covered_second(a: Seq<Placed>, b: Seq<Placed>, x: int, y: int)
    requires
        covered(b, x, y),
    ensures
        covered(a + b, x, y),
{
    let j = choose|j: int| 0 <= j < b.len() && holds(#[trigger] b[j], x, y);
    assert(holds((a + b)[a.len() + j], x, y));
}

/// Where a row starts along its side.
pub open spec fn row_start(b: FRect) -> Double {
    if treemap::along_top(b) {
        b.x
    } else {
        b.y
    }
}

/// Where a row starts across its side.
pub open spec fn row_cross(b: FRect) -> Double {
    if treemap::along_top(b) {
        b.y
    } else {
        b.x
    }
}

/// The tiles of a row cover it from its start to the end of its last value.
/// `along` and `across` are the coordinates of a sub-cell in the row's direction
/// and across it.
proof fn lemma_row_covers(
    vs: Seq<Double>,
    i: int,
    k: int,
    b: FRect,
    t: Double,
    start: Double,
    along: int,
    across: int,
)
    requires
        0 <= i <= k <= vs.len() <= usize::MAX,
        start == row_start(b),
        double::rounded(start) <= along < double::rounded(treemap::offset(vs, i, k, start, t)),
        double::rounded(row_cross(b)) <= across < double::rounded(
            double::sum_of(row_cross(b), t),
        ),
        double::rounded(double::sum_of(row_cross(b), t)) <= u16::MAX,
        forall|j: int|
            i <= j <= k ==> double::rounded(#[trigger] treemap::offset(vs, i, j, start, t))
                <= u16::MAX,
    ensures
        treemap::along_top(b) ==> covered(treemap::row_tiles(vs, i, k, b, t), along, across),
        !treemap::along_top(b) ==> covered(treemap::row_tiles(vs, i, k, b, t), across, along),
    decreases k - i,
{
    let top = treemap::along_top(b);
    let x = if top {
        along
    } else {
        across
    };
    let y = if top {
        across
    } else {
        along
    };
    if k > i {
        let from = treemap::offset(vs, i, k - 1, start, t);
        let to = treemap::offset(vs, i, k, start, t);
        let len = double::quotient_of(vs[k - 1], t);
        let before = treemap::row_tiles(vs, i, k - 1, b, t);
        let last = if top {
            treemap::snapped(from, b.y, len, t, (k - 1) as usize)
        } else {
            treemap::snapped(b.x, from, t, len, (k - 1) as usize)
        };
        assert(treemap::row_tiles(vs, i, k, b, t) == before + last);
        double::lemma_rounded_nonnegative(from);
        double::lemma_rounded_nonnegative(row_cross(b));
        if along < double::rounded(from) {
            lemma_row_covers(vs, i, k - 1, b, t, start, along, across);
            lemma_covered_first(before, last, x, y);
        } else {
            assert(double::rounded(to) <= u16::MAX);
            assert(last.len() == 1);
            assert(holds(last[0], x, y));
            lemma_covered_second(before, last, x, y);
        }
    }
}

/// What is left of an area that has no more than an eighth of a sub-cell is
/// too thin to show.
proof fn lemma_thin(b: FRect, xr: int, yb: int, k: int, f: nat)
    requires
        0 <= xr < 0x2_0000,
        0 <= yb < 0x2_0000,
        0 <= k <= 0x2000_0000,
        tile_bounds::ends_at(b.x, b.w, xr, k),
        tile_bounds::ends_at(b.y, b.h, yb, k),
        MANT_END * (b.w.units() * b.h.units()) <= f,
        8 * f <= MANT_END * (double::one_units() * double::one_units()),
    ensures
        double::rounded(b.x) >= xr || double::rounded(b.y) >= yb,
{
    let p = double::one_units();
    let w = b.w.units();
    let h = b.h.units();
    tile_bounds::lemma_speck();
    tile_bounds::lemma_specks(k, 0x2000_0000);
    assert((2 * xr - 1) * p == 2 * (xr * p) - p) by (nonlinear_arith);
    assert((2 * yb - 1) * p == 2 * (yb * p) - p) by (nonlinear_arith);
    if 8 * w > 3 * p && 8 * h > 3 * p {
        assert(64 * (w * h) > 9 * (p * p)) by (nonlinear_arith)
            requires
                8 * w > 3 * p,
                8 * h > 3 * p,
                p >= 0,
        ;
        assert(false);
    }
    if 8 * w <= 3 * p {
        tile_bounds::lemma_rounds_up(b.x, xr);
    } else {
        tile_bounds::lemma_rounds_up(b.y, yb);
    }
}

/// A row covers what is beside it up to the edge.
proof fn lemma_row_fills(
    vs: Seq<Double>,
    i: int,
    e: int,
    b: FRect,
    xr: int,
    yb: int,
    f: nat,
    x: int,
    y: int,
)
    requires
        0 <= i < e <= vs.len() <= MOST_VALUES,
        grained(vs),
        0 <= xr <= u16::MAX,
        0 <= yb <= u16::MAX,
        tile_bounds::ends_at(b.x, b.w, xr, 2 * i),
        tile_bounds::ends_at(b.y, b.h, yb, 2 * i),
        b.w.units() > 0,
        b.h.units() > 0,
        treemap::total(vs, i, e).units() > 0,
        tile_bounds::room(vs, i, b.w, b.h, f),
        8 * f <= MANT_END * (double::one_units() * double::one_units()),
        double::rounded(b.x) <= x < xr,
        double::rounded(b.y) <= y < yb,
        ({
            let rest = treemap::after_row(b, treemap::total(vs, i, e));
            if treemap::along_top(b) {
                y < double::rounded(rest.y)
            } else {
                x < double::rounded(rest.x)
            }
        }),
    ensures
        covered(
            treemap::row_tiles(vs, i, e, b, treemap::thickness(b, treemap::total(vs, i, e))),
            x,
            y,
        ),
{
    let sum = treemap::total(vs, i, e);
    let t = treemap::thickness(b, sum);
    let top = treemap::along_top(b);
    let start = row_start(b);
    let (side, deep, edge) = if top {
        (b.w, b.h, xr)
    } else {
        (b.h, b.w, yb)
    };
    let (along, across, far) = if top {
        (x, y, yb)
    } else {
        (y, x, xr)
    };
    assert(b.w.units() * b.h.units() == b.h.units() * b.w.units()) by (nonlinear_arith);
    tile_bounds::lemma_row_length(vs, i, e, side, deep, f);
    lemma_row_long(vs, i, e, side, deep, f);
    tile_bounds::lemma_row_ends_across(row_cross(b), deep, t, far, 2 * i);
    // A row that shows nothing starts at the edge.
    assert(t.units() >= pow2(800) && lens(vs, i, e, t) <= side.units() + 0x1_8000_0000 * speck()
        && side.units() <= lens(vs, i, e, t) + 0x4000_0000 * speck() + speck()) by {
        if t == deep && 8 * deep.units() < 3 * double::one_units() {
            assert(double::rounded(row_cross(b)) >= far);
            assert(false);
        }
    }
    lemma_row_reaches(vs, i, e, start, side, t, edge);
    assert forall|j: int| i <= j <= e implies double::rounded(
        #[trigger] treemap::offset(vs, i, j, start, t),
    ) <= u16::MAX by {
        tile_bounds::lemma_row_ends(vs, i, j, e, start, side, t, edge);
    }
    lemma_row_covers(vs, i, e, b, t, start, along, across);
}

/// The tiles of the values from `i` on cover the free area up to its edges.
proof fn lemma_laid_out_covers(
    vs: Seq<Double>,
    i: int,
    b: FRect,
    xr: int,
    yb: int,
    g: nat,
    x: int,
    y: int,
)
    requires
        0 <= i <= vs.len() <= MOST_VALUES,
        grained(vs),
        0 <= xr <= u16::MAX,
        0 <= yb <= u16::MAX,
        tile_bounds::ends_at(b.x, b.w, xr, 2 * i),
        tile_bounds::ends_at(b.y, b.h, yb, 2 * i),
        b.w.units() * b.h.units() <= g,
        double::one_units() * double::one_units() <= g,
        8 * ((8 * vs.len() + 4) * g) <= MANT_END * (double::one_units() * double::one_units()),
        b.w.units() == 0 || b.h.units() == 0 || (tile_bounds::room(
            vs,
            i,
            b.w,
            b.h,
            tile_bounds::slack(vs.len(), i as nat, g),
        ) && tight(vs, i, b.w, b.h, tile_bounds::slack(vs.len(), i as nat, g))),
        double::rounded(b.x) <= x < xr,
        double::rounded(b.y) <= y < yb,
    ensures
        covered(treemap::laid_out(vs, i, b), x, y),
    decreases vs.len() - i,
{
    let n = vs.len();
    let p = double::one_units();
    let short = double::smaller(b.w, b.h);
    let zero = double::zero();
    let f = tile_bounds::slack(n, i as nat, g);
    let w = b.w.units();
    let h = b.h.units();
    assert(zero.units() == 0) by {
        assert(0 * pow2(0) == 0) by (nonlinear_arith);
    }
    tile_bounds::lemma_slack(n, i as nat, i as nat, g);
    reveal(double::less);
    if w == 0 || h == 0 {
        assert(w * h == 0) by (nonlinear_arith)
            requires
                w == 0 || h == 0,
        ;
        lemma_thin(b, xr, yb, 2 * i, f);
        assert(false);
    } else if i >= n {
        assert(0 * p == 0) by (nonlinear_arith);
        lemma_thin(b, xr, yb, 2 * i, f);
        assert(false);
    } else {
        assert(!double::at_most(short, zero));
        let e = treemap::row_end(vs, i, i + 1, short);
        let sum = treemap::total(vs, i, e);
        treemap::lemma_row_end(vs, i, i + 1, short);
        tile_bounds::lemma_slack(n, i as nat, e as nat, g);
        tile_bounds::lemma_exact_bounds(vs, i, e);
        tile_bounds::lemma_total_error(vs, i, e);
        let c = speck();
        assert((2 * e) * c >= (2 * i + 2) * c) by (nonlinear_arith)
            requires
                e >= i + 1,
                c >= 0,
        ;
        assert((2 * i + 2) * c >= (2 * i) * c) by (nonlinear_arith)
            requires
                c >= 0,
        ;
        if double::at_most(sum, zero) {
            assert(exact(vs, i, e) == 0) by {
                if exact(vs, i, e) > 0 {
                    tile_bounds::lemma_some_total(vs, i, e);
                    lemma_pow2_pos(860);
                }
            }
            tile_bounds::lemma_exact_split(vs, i, e, n as int);
            lemma_laid_out_covers(vs, e, b, xr, yb, g, x, y);
        } else {
            let t = treemap::thickness(b, sum);
            let rest = treemap::after_row(b, sum);
            let row = treemap::row_tiles(vs, i, e, b, t);
            let later = treemap::laid_out(vs, e, rest);
            assert(w * h == h * w) by (nonlinear_arith);
            if treemap::along_top(b) {
                tile_bounds::lemma_row_length(vs, i, e, b.w, b.h, f);
                tile_bounds::lemma_row_leaves(vs, i, e, b.w, b.h, f, g);
                lemma_row_leaves_no_more(vs, i, e, b.w, b.h, f, g);
                tile_bounds::lemma_rest_ends(b.y, b.h, t, rest.h, yb, 2 * i);
            } else {
                tile_bounds::lemma_row_length(vs, i, e, b.h, b.w, f);
                tile_bounds::lemma_row_leaves(vs, i, e, b.h, b.w, f, g);
                lemma_row_leaves_no_more(vs, i, e, b.h, b.w, f, g);
                tile_bounds::lemma_rest_ends(b.x, b.w, t, rest.w, xr, 2 * i);
                let u = rest.w.units();
                assert(u * h == h * u) by (nonlinear_arith);
            }
            if if treemap::along_top(b) {
                y < double::rounded(rest.y)
            } else {
                x < double::rounded(rest.x)
            } {
                lemma_row_fills(vs, i, e, b, xr, yb, f, x, y);
                lemma_covered_first(row, later, x, y);
            } else {
                lemma_laid_out_covers(vs, e, rest, xr, yb, g, x, y);
                lemma_covered_second(row, later, x, y);
            }
        }
    }
}

// ── the areas at the start ──────────────────────────────────────────────────

/// The sum of products is hardly less than the product of the sum.
proof fn lemma_products_low(us: Seq<Double>, vs: Seq<Double>, s: Double, j: int)
    requires
        0 <= j <= us.len() == vs.len(),
        s is Finite,
        forall|k: int|
            0 <= k < us.len() ==> (#[trigger] us[k]) is Finite && vs[k] is Finite && vs[k]
                == double::product_of(us[k], s),
    ensures
        ({
            let p = double::one_units();
            let e = exact(us, 0, j) * s.units();
            MANT_END * e <= MANT_END * (exact(vs, 0, j) * p) + e + j * (MANT_MIN * p)
        }),
    decreases j,
{
    let p = double::one_units();
    let c = s.units();
    if j > 0 {
        lemma_products_low(us, vs, s, j - 1);
        let u = us[j - 1];
        let v = vs[j - 1];
        double::lemma_product_error(u, s);
        let x = exact(us, 0, j - 1);
        let y = exact(vs, 0, j - 1);
        assert((x + u.units()) * c == x * c + u.units() * c) by (nonlinear_arith);
        assert((y + v.units()) * p == y * p + v.units() * p) by (nonlinear_arith);
        let d = MANT_MIN * p;
        assert(j * d == (j - 1) * d + d) by (nonlinear_arith);
    } else {
        assert(0 * c == 0) by (nonlinear_arith);
        assert(0 * p == 0) by (nonlinear_arith);
        let d = MANT_MIN * p;
        assert(j * d == 0) by (nonlinear_arith)
            requires
                j == 0,
        ;
    }
}

/// Scaled values are hardly less than the area `g`, which is `a` ones squared.
proof fn lemma_scaled_low(n: nat, a: nat, v: nat, t: nat, s: nat, x: nat)
    requires
        0 < n <= MOST_VALUES,
        0 < a,
        t >= double::one_units(),
        t <= 0x1_0000_0000_0000_0000_0000_0000 * double::one_units(),
        ({
            let p = double::one_units();
            let g = a * (p * p);
            &&& MANT_END * (s * t) <= MANT_END * g + g + MANT_MIN * t
            &&& MANT_END * g <= MANT_END * (s * t) + g + MANT_MIN * t
            &&& MANT_END * v <= MANT_END * t + 2 * (n * v) + n * MANT_END
            &&& MANT_END * t <= MANT_END * v + 2 * (n * v) + n * MANT_END
            &&& MANT_END * (v * s) <= MANT_END * (x * p) + v * s + n * (MANT_MIN * p)
        }),
    ensures
        ({
            let p = double::one_units();
            let g = a * (p * p);
            MANT_END * g <= MANT_END * (x * p) + tile_bounds::slack(n, 0, g)
        }),
{
    let p = double::one_units();
    let pp = p * p;
    let g = a * pp;
    let y = v * s;
    let z = s * t;
    tile_bounds::lemma_speck();
    let ny = n * y;
    let ns = n * s;
    assert(MANT_END * y <= MANT_END * z + 2 * ny + MANT_END * ns) by (nonlinear_arith)
        requires
            MANT_END * v <= MANT_END * t + 2 * (n * v) + n * MANT_END,
            y == v * s,
            z == s * t,
            ny == n * y,
            ns == n * s,
            s >= 0,
    ;
    assert(MANT_END * z <= MANT_END * y + 2 * ny + MANT_END * ns) by (nonlinear_arith)
        requires
            MANT_END * t <= MANT_END * v + 2 * (n * v) + n * MANT_END,
            y == v * s,
            z == s * t,
            ny == n * y,
            ns == n * s,
            s >= 0,
    ;
    assert(ny <= 0x1000_0000 * y) by (nonlinear_arith)
        requires
            n <= 0x1000_0000,
            ny == n * y,
            y >= 0,
    ;
    assert(ns <= 0x1000_0000 * s) by (nonlinear_arith)
        requires
            n <= 0x1000_0000,
            ns == n * s,
            s >= 0,
    ;
    let big = 0x1000_0000_0000_0000_0000_0000_0000_0000_0000_0000_0000_0000nat;
    assert(p >= big) by {
        lemma2_to64();
        lemma_pow2_adds(64, 64);
        lemma_pow2_adds(128, 64);
        lemma_pow2_adds(192, 882);
        lemma_pow2_pos(882);
        let k = pow2(882);
        assert(pow2(192) * k >= pow2(192)) by (nonlinear_arith)
            requires
                k >= 1,
        ;
    }
    assert(pp >= big * p) by (nonlinear_arith)
        requires
            p >= big,
            pp == p * p,
    ;
    assert(g >= pp) by (nonlinear_arith)
        requires
            a >= 1,
            g == a * pp,
            pp >= 0,
    ;
    assert(z >= s * p) by (nonlinear_arith)
        requires
            t >= p,
            z == s * t,
            s >= 0,
    ;
    assert(s * p >= big * s) by (nonlinear_arith)
        requires
            p >= big,
            s >= 0,
    ;
    assert(z <= 2 * g);
    assert(8 * y <= 9 * g);
    let ng = n * g;
    assert(8 * ny <= 9 * ng) by (nonlinear_arith)
        requires
            8 * y <= 9 * g,
            ny == n * y,
            ng == n * g,
            n >= 0,
    ;
    assert(n * (MANT_MIN * p) <= 0x1000_0000 * (MANT_MIN * p)) by (nonlinear_arith)
        requires
            n <= 0x1000_0000,
            p >= 0,
    ;
    assert((3 * n + 4 + 5 * 0) * g == 3 * ng + 4 * g) by (nonlinear_arith)
        requires
            ng == n * g,
    ;
}

/// The areas of integers are no smaller than the area that they share, but for
/// a little.
proof fn lemma_start_tight(ns: Seq<u64>, area: Rect)
    requires
        tile_bounds::bounded(ns.len(), area),
        !treemap::nothing_to_lay_out(treemap::of_ints(ns), area),
    ensures
        ({
            let b = treemap::bounds_of(area);
            tight(
                tile_bounds::sorted_areas(ns, area),
                0,
                b.w,
                b.h,
                tile_bounds::slack(ns.len(), 0, tile_bounds::area_units(area)),
            )
        }),
{
    let us = treemap::of_ints(ns);
    let vs = treemap::areas(us, area);
    let n = ns.len();
    let p = double::one_units();
    let a = (area.width * area.height) as nat;
    let t = treemap::total(us, 0, n as int);
    let s = treemap::scale_of(us, area);
    let order = order::ranking(treemap::codes(vs));
    tile_bounds::lemma_start(ns, area);
    tile_bounds::lemma_fair_scale(ns, area);
    assert forall|k: int| 0 <= k < us.len() implies (#[trigger] us[k]) is Finite && vs[k] is Finite
        && vs[k] == double::product_of(us[k], s) by {
        assert(vs[k] is Finite);
    }
    lemma_products_low(us, vs, s, n as int);
    lemma_scaled_low(
        n,
        a,
        exact(us, 0, n as int),
        t.units(),
        s.units(),
        exact(vs, 0, n as int),
    );
    order::lemma_ranking_exists(treemap::codes(vs));
    assert forall|i: int, j: int| 0 <= i < j < order.len() implies #[trigger] order[i]
        != #[trigger] order[j] by {
        assert(order::before(treemap::codes(vs), order[i] as int, order[j] as int));
    }
    assert forall|k: int| 0 <= k < vs.len() implies #[trigger] tile_bounds::has_place(order, k) by {
        order::lemma_ranking_covers(treemap::codes(vs), order, k);
        let i = choose|i: int| 0 <= i < order.len() && order[i] == k;
        assert(order[i] == k);
    }
    tile_bounds::lemma_exact_picked(vs, order);
}

/// Every cell of the area belongs to a tile.
pub proof fn tiles_cover_the_area(ns: Seq<u64>, area: Rect, row: int, col: int)
    requires
        tile_bounds::bounded(ns.len(), area),
        area.addressable(),
        !treemap::nothing_to_lay_out(treemap::of_ints(ns), area),
        area.covers(row, col),
    ensures
        exists|j: int|
            0 <= j < treemap::squarified(treemap::of_ints(ns), area).len()
                && #[trigger] treemap::squarified(treemap::of_ints(ns), area)[j].rect.covers(
                row,
                col,
            ),
{
    let us = treemap::of_ints(ns);
    let b = treemap::bounds_of(area);
    let p = double::one_units();
    let tiles = treemap::edges(us, area);
    tile_bounds::lemma_start(ns, area);
    lemma_start_tight(ns, area);
    double::lemma_of_int_exact(area.left as nat);
    double::lemma_of_int_exact(area.top as nat);
    lemma_pow2_pos(1074);
    assert(2 * (area.left * p) < (2 * area.left + 1) * p) by (nonlinear_arith)
        requires
            p > 0,
    ;
    assert(2 * (area.top * p) < (2 * area.top + 1) * p) by (nonlinear_arith)
        requires
            p > 0,
    ;
    tile_bounds::lemma_rounds_down(b.x, area.left as int);
    tile_bounds::lemma_rounds_down(b.y, area.top as int);
    lemma_laid_out_covers(
        tile_bounds::sorted_areas(ns, area),
        0,
        b,
        area.left + area.width,
        area.top + area.height,
        tile_bounds::area_units(area),
        col,
        row,
    );
    let j = choose|j: int| 0 <= j < tiles.len() && holds(#[trigger] tiles[j], col, row);
    tile_bounds::lemma_edges(us, area);
    tile_bounds::tiles_stay_inside(ns, area, j);
    assert(tiles[j].shows());
    tile_bounds::lemma_rect_edges(tiles[j]);
    assert(treemap::squarified(us, area)[j].rect == tiles[j].rect());
    assert(treemap::squarified(us, area)[j].rect.covers(row, col));
}

} // verus!
