//! Tiles stay inside the area that they are laid out in.
//!
//! The layout is computed in rounded arithmetic, so the rows do not meet the
//! edges of the area exactly. What is shown here is that the errors stay far
//! below half a sub-cell as long as there are not too many values, and that
//! rounding to whole sub-cells then takes them away.

use vstd::arithmetic::div_mod::*;
use vstd::arithmetic::power2::*;
use vstd::prelude::*;

use crate::double;
use crate::double::{Double, MANT_END, MANT_MIN};
use crate::grid::Rect;
use crate::near;
use crate::order;
use crate::treemap;
use crate::treemap::{FRect, Placed};

verus! {

/// A length that errors are counted in: the `2^34`th part of a sub-cell.
pub open spec fn speck() -> nat {
    pow2(1040)
}

/// The most values that the bounds below are shown for.
pub const MOST_VALUES: u64 = 0x1000_0000;

/// The largest product of the number of values and the area.
pub const MOST_WORK: u64 = 0x7fff_8000_0000;

pub proof fn lemma_speck()
    ensures
        double::one_units() == 0x4_0000_0000 * speck(),
        speck() >= 0x4000_0000_0000_0000_0000_0000,
        MANT_END == 0x20_0000_0000_0000,
        MANT_MIN == 0x10_0000_0000_0000,
{
    lemma2_to64();
    lemma_pow2_adds(32, 2);
    lemma_pow2_adds(34, 1040);
    lemma_pow2_adds(64, 30);
    lemma_pow2_adds(94, 946);
    lemma_pow2_pos(946);
    let p = pow2(94);
    let q = pow2(946);
    assert(p * q >= p) by (nonlinear_arith)
        requires
            q >= 1,
    ;
}

/// Below `2^18` a rounded sum is off by less than a speck.
pub proof fn lemma_near_sum(x: Double, y: Double)
    requires
        x is Finite,
        y is Finite,
        x.units() + y.units() <= 0x4_0000 * double::one_units(),
    ensures
        double::sum_of(x, y) is Finite,
        double::sum_of(x, y).units() <= x.units() + y.units() + speck(),
        x.units() + y.units() <= double::sum_of(x, y).units() + speck(),
{
    lemma_speck();
    lemma2_to64();
    lemma_pow2_adds(1074, 18);
    assert(double::within(x, 18) && double::within(y, 18));
    double::lemma_sum_within(x, y, 18);
    double::lemma_sum_error(x, y);
}

/// Below `2^18` a rounded difference is off by less than a speck.
pub proof fn lemma_near_difference(x: Double, y: Double)
    requires
        x is Finite,
        x.wf(),
        y is Finite,
        double::at_most(y, x),
        x.units() <= 0x4_0000 * double::one_units(),
    ensures
        double::difference_of(x, y) is Finite,
        double::difference_of(x, y).wf(),
        y.units() <= x.units(),
        double::difference_of(x, y).units() <= x.units() - y.units() + speck(),
        x.units() - y.units() <= double::difference_of(x, y).units() + speck(),
        double::difference_of(x, y).units() <= x.units(),
{
    lemma_speck();
    double::lemma_difference_finite(x, y);
    double::lemma_difference_error(x, y);
}

/// The exact sum of the values from `i` up to `j`, in units.
pub open spec fn exact(vs: Seq<Double>, i: int, j: int) -> nat
    decreases j - i,
{
    if j <= i {
        0
    } else {
        exact(vs, i, j - 1) + vs[j - 1].units()
    }
}

/// Whether values are finite.
pub open spec fn all_finite(vs: Seq<Double>) -> bool {
    forall|k: int| 0 <= k < vs.len() ==> (#[trigger] vs[k]) is Finite && vs[k].wf()
}

pub proof fn lemma_exact_split(vs: Seq<Double>, i: int, j: int, k: int)
    requires
        i <= j <= k,
    ensures
        exact(vs, i, k) == exact(vs, i, j) + exact(vs, j, k),
    decreases k - j,
{
    if j < k {
        lemma_exact_split(vs, i, j, k - 1);
    }
}

/// A sum of `m` values is off by at most about `2m` parts in `2^53`.
pub proof fn lemma_total_error(vs: Seq<Double>, i: int, j: int)
    requires
        0 <= i <= j <= vs.len(),
        j - i <= MOST_VALUES,
        all_finite(vs),
        exact(vs, i, j) <= pow2(1174),
    ensures
        ({
            let m = j - i;
            let s = treemap::total(vs, i, j).units();
            let e = exact(vs, i, j);
            &&& treemap::total(vs, i, j) is Finite
            &&& treemap::total(vs, i, j).wf()
            &&& MANT_END * s <= MANT_END * e + 2 * (m * e) + m * MANT_END
            &&& MANT_END * e <= MANT_END * s + 2 * (m * e) + m * MANT_END
            &&& s <= 2 * e + m
        }),
    decreases j - i,
{
    let m = j - i;
    let s1 = treemap::total(vs, i, j).units();
    let e1 = exact(vs, i, j);
    if j <= i {
        assert(0 * pow2(0) == 0) by (nonlinear_arith);
        assert(m * e1 == 0) by (nonlinear_arith)
            requires
                m == 0,
        ;
    } else {
        let v = vs[j - 1];
        let t = treemap::total(vs, i, j - 1);
        let s0 = t.units();
        let e0 = exact(vs, i, j - 1);
        let m0 = m - 1;
        lemma_total_error(vs, i, j - 1);
        lemma2_to64();
        lemma_pow2_adds(1174, 2);
        lemma_pow2_unfold(1175);
        lemma_pow2_unfold(1176);
        lemma_pow2_pos(1174);
        assert(m0 <= pow2(1174)) by {
            lemma_pow2_adds(64, 1110);
            lemma_pow2_pos(1110);
            let p = pow2(1110);
            assert(pow2(64) * p >= pow2(64)) by (nonlinear_arith)
                requires
                    p >= 1,
            ;
        }
        assert(s0 + v.units() <= pow2(1176));
        assert(double::within(t, 102) && double::within(v, 102));
        double::lemma_sum_within(t, v, 102);
        double::lemma_sum_error(t, v);
        double::lemma_sum_wf(t, v);
        let x = s0 + v.units();
        assert(m * e1 == m0 * e0 + e0 + m * v.units()) by (nonlinear_arith)
            requires
                m == m0 + 1,
                e1 == e0 + v.units(),
        ;
        assert(m * v.units() >= v.units()) by (nonlinear_arith)
            requires
                m >= 1,
        ;
        assert(2 * (m * e1) <= 0x2000_0000 * e1) by (nonlinear_arith)
            requires
                m <= 0x1000_0000,
        ;
    }
}

// ── a row, along its side ───────────────────────────────────────────────────

/// The lengths of the values from `i` up to `k` in a row of thickness `t`, in
/// units.
pub open spec fn lens(vs: Seq<Double>, i: int, k: int, t: Double) -> nat
    decreases k - i,
{
    if k <= i {
        0
    } else {
        lens(vs, i, k - 1, t) + double::quotient_of(vs[k - 1], t).units()
    }
}

/// Whether values are finite and not too large.
pub open spec fn moderate(vs: Seq<Double>) -> bool {
    &&& all_finite(vs)
    &&& forall|k: int| 0 <= k < vs.len() ==> (#[trigger] vs[k]).units() <= pow2(1114)
}

pub proof fn lemma_length(v: Double, t: Double)
    requires
        v is Finite,
        v.units() <= pow2(1114),
        t is Finite,
        t.wf(),
        t.units() >= pow2(800),
    ensures
        double::quotient_of(v, t) is Finite,
        ({
            let e = v.units() * double::one_units();
            MANT_END * (double::quotient_of(v, t).units() * t.units()) <= MANT_END * e + e
                + MANT_MIN * t.units()
        }),
{
    lemma_pow2_adds(800, 274);
    lemma_pow2_pos(274);
    lemma_pow2_pos(800);
    let q = pow2(274);
    assert(t.units() * q >= pow2(800) * q) by (nonlinear_arith)
        requires
            t.units() >= pow2(800),
    ;
    assert(double::within(v, 40));
    assert(double::beyond(t, 274));
    double::lemma_quotient_within(v, t, 40, 274);
    double::lemma_quotient_error(v, t);
}

pub proof fn lemma_lens(vs: Seq<Double>, i: int, k: int, t: Double)
    requires
        0 <= i <= k <= vs.len(),
        moderate(vs),
        t is Finite,
        t.wf(),
        t.units() >= pow2(800),
    ensures
        ({
            let m = k - i;
            let e = exact(vs, i, k) * double::one_units();
            MANT_END * (lens(vs, i, k, t) * t.units()) <= MANT_END * e + e + MANT_MIN * (m
                * t.units())
        }),
    decreases k - i,
{
    let p = double::one_units();
    let u = t.units();
    let m = k - i;
    if k > i {
        let v = vs[k - 1];
        let q = double::quotient_of(v, t).units();
        let l0 = lens(vs, i, k - 1, t);
        let e0 = exact(vs, i, k - 1);
        lemma_lens(vs, i, k - 1, t);
        lemma_length(v, t);
        assert((l0 + q) * u == l0 * u + q * u) by (nonlinear_arith);
        assert((e0 + v.units()) * p == e0 * p + v.units() * p) by (nonlinear_arith);
        assert(m * u == (m - 1) * u + u) by (nonlinear_arith);
    } else {
        assert(0 * u == 0) by (nonlinear_arith);
        assert(0 * p == 0) by (nonlinear_arith);
        assert(m * u == 0) by (nonlinear_arith)
            requires
                m == 0,
        ;
    }
}

pub proof fn lemma_offset(vs: Seq<Double>, i: int, k: int, start: Double, t: Double)
    requires
        0 <= i <= k <= vs.len(),
        moderate(vs),
        start is Finite,
        t is Finite,
        t.wf(),
        t.units() >= pow2(800),
        start.units() + lens(vs, i, k, t) + (k - i) * speck() <= 0x4_0000 * double::one_units(),
    ensures
        treemap::offset(vs, i, k, start, t) is Finite,
        treemap::offset(vs, i, k, start, t).units() <= start.units() + lens(vs, i, k, t) + (k - i)
            * speck(),
    decreases k - i,
{
    let m = k - i;
    let e = speck();
    if k > i {
        let v = vs[k - 1];
        assert(m * e == (m - 1) * e + e) by (nonlinear_arith);
        lemma_offset(vs, i, k - 1, start, t);
        lemma_length(v, t);
        lemma_near_sum(treemap::offset(vs, i, k - 1, start, t), double::quotient_of(v, t));
    } else {
        assert(m * e == 0) by (nonlinear_arith)
            requires
                m == 0,
        ;
    }
}

pub proof fn lemma_lens_rise(vs: Seq<Double>, i: int, j: int, k: int, t: Double)
    requires
        i <= j <= k,
    ensures
        lens(vs, i, j, t) <= lens(vs, i, k, t),
    decreases k - j,
{
    if j < k {
        lemma_lens_rise(vs, i, j, k - 1, t);
    }
}

/// A row whose thickness is its area by its side is hardly longer than the side.
pub proof fn lemma_full_row(m: int, s: nat, e: nat, w: nat, t: nat, l: nat)
    requires
        0 < m <= MOST_VALUES,
        t >= pow2(800),
        w <= 0x2_0000 * double::one_units(),
        ({
            let p = double::one_units();
            &&& MANT_END * (l * t) <= MANT_END * (e * p) + e * p + MANT_MIN * (m * t)
            &&& MANT_END * (s * p) <= MANT_END * (t * w) + s * p + MANT_MIN * w
            &&& MANT_END * e <= MANT_END * s + 2 * (m * e) + m * MANT_END
        }),
    ensures
        l <= w + 0x4000_0000 * speck() + speck(),
{
    let p = double::one_units();
    let g = s * p;
    let b = e * p;
    let a = t * w;
    let c = speck();
    lemma_speck();
    assert(MANT_END * b <= MANT_END * g + 2 * (m * b) + (m * MANT_END) * p) by (nonlinear_arith)
        requires
            MANT_END * e <= MANT_END * s + 2 * (m * e) + m * MANT_END,
            b == e * p,
            g == s * p,
    ;
    assert(2 * (m * b) <= 0x2000_0000 * b) by (nonlinear_arith)
        requires
            m <= 0x1000_0000,
            b >= 0,
    ;
    let mp = m * p;
    assert((m * MANT_END) * p == MANT_END * mp) by (nonlinear_arith)
        requires
            mp == m * p,
    ;
    // Both areas are within a small factor of the row's.
    assert(g <= 2 * a + w);
    assert(b <= 2 * g + 2 * mp);
    assert(b <= 4 * a + 2 * w + 2 * mp);
    let mb = m * b;
    let ma = m * a;
    let mw = m * w;
    let mmp = m * mp;
    assert(mb <= 4 * ma + 2 * mw + 2 * mmp) by (nonlinear_arith)
        requires
            b <= 4 * a + 2 * w + 2 * mp,
            mb == m * b,
            ma == m * a,
            mw == m * w,
            mmp == m * mp,
            m > 0,
    ;
    assert(MANT_END * b + b <= MANT_END * a + 8 * ma + 6 * a + MANT_MIN * w + 3 * w + 4 * mw + 4
        * mmp + MANT_END * mp + 2 * mp);
    // What does not grow with the row is a tiny part of a speck.
    assert(mw <= 0x1000_0000 * w) by (nonlinear_arith)
        requires
            m <= 0x1000_0000,
            mw == m * w,
            w >= 0,
    ;
    assert(mp <= 0x1000_0000 * p && mp >= 0) by (nonlinear_arith)
        requires
            0 < m <= 0x1000_0000,
            mp == m * p,
            p >= 0,
    ;
    assert(mmp <= 0x1000_0000 * mp) by (nonlinear_arith)
        requires
            m <= 0x1000_0000,
            mmp == m * mp,
            mp >= 0,
    ;
    let rest = MANT_MIN * w + 3 * w + 4 * mw + 4 * mmp + MANT_END * mp + 2 * mp;
    assert(rest <= 0x80_0000_0000_0000_0000_0000 * p);
    assert(rest <= c * t) by {
        lemma_pow2_adds(87, 1074);
        lemma_pow2_adds(1040, 800);
        lemma_pow2_adds(64, 23);
        lemma2_to64();
        lemma_pow2_adds(1161, 679);
        lemma_pow2_pos(679);
        let k = pow2(679);
        assert(pow2(1161) * k >= pow2(1161)) by (nonlinear_arith)
            requires
                k >= 1,
        ;
        assert(c * t >= c * pow2(800)) by (nonlinear_arith)
            requires
                t >= pow2(800),
        ;
    }
    let mt = m * t;
    assert(mt <= 0x1000_0000 * t) by (nonlinear_arith)
        requires
            m <= 0x1000_0000,
            mt == m * t,
            t >= 0,
    ;
    let ct = c * t;
    assert(0x4000_0000_0000_0000_0000_0000 * t <= ct) by (nonlinear_arith)
        requires
            c >= 0x4000_0000_0000_0000_0000_0000,
            ct == c * t,
    ;
    assert(MANT_END * (l * t) <= MANT_END * a + 8 * ma + 6 * a + 2 * ct);
    let q = 8 * m + 6;
    assert(8 * ma + 6 * a == (q * w) * t) by (nonlinear_arith)
        requires
            ma == m * a,
            a == t * w,
            q == 8 * m + 6,
    ;
    assert(q * w <= 0x1_0000_0000 * w) by (nonlinear_arith)
        requires
            q <= 0x1_0000_0000,
            w >= 0,
    ;
    assert(q * w <= MANT_END * (0x4000_0000 * c));
    assert((q * w) * t <= (MANT_END * (0x4000_0000 * c)) * t) by (nonlinear_arith)
        requires
            q * w <= MANT_END * (0x4000_0000 * c),
            t >= 0,
    ;
    if l > w + 0x4000_0000 * c + c {
        let d = 0x4000_0000 * c + c;
        assert(l * t >= w * t + d * t + t) by (nonlinear_arith)
            requires
                l >= w + d + 1,
        ;
        assert(w * t == a) by (nonlinear_arith)
            requires
                a == t * w,
        ;
        assert(d * t == 0x4000_0001 * ct) by (nonlinear_arith)
            requires
                d == 0x4000_0001 * c,
                ct == c * t,
        ;
        assert((MANT_END * (0x4000_0000 * c)) * t == MANT_END * (0x4000_0000 * ct)) by (nonlinear_arith)
            requires
                ct == c * t,
        ;
        assert(t > 0) by {
            lemma_pow2_pos(800);
        }
        assert(ct > 0) by (nonlinear_arith)
            requires
                c > 0,
                t > 0,
                ct == c * t,
        ;
        assert(false);
    }
}

/// A row that takes all that is left of the area is hardly longer than its side,
/// where the area that is left is hardly smaller than the values.
pub proof fn lemma_cut_row(m: int, e: nat, w: nat, h: nat, l: nat, f: nat)
    requires
        0 < m <= MOST_VALUES,
        8 * h >= 3 * double::one_units(),
        w <= 0x2_0000 * double::one_units(),
        ({
            let p = double::one_units();
            &&& MANT_END * (l * h) <= MANT_END * (e * p) + e * p + MANT_MIN * (m * h)
            &&& MANT_END * (e * p) <= MANT_END * (w * h) + f
            &&& 8 * f <= MANT_END * (p * p)
        }),
    ensures
        l <= w + 0x1_8000_0000 * speck(),
{
    let p = double::one_units();
    let c = speck();
    let b = e * p;
    let a = w * h;
    let ph = p * h;
    lemma_speck();
    assert(3 * (p * p) <= 8 * ph) by (nonlinear_arith)
        requires
            3 * p <= 8 * h,
            ph == p * h,
            p >= 0,
    ;
    assert(a <= 0x2_0000 * ph) by (nonlinear_arith)
        requires
            w <= 0x2_0000 * p,
            a == w * h,
            ph == p * h,
            h >= 0,
    ;
    let mh = m * h;
    assert(mh <= 0x1000_0000 * h) by (nonlinear_arith)
        requires
            m <= 0x1000_0000,
            mh == m * h,
            h >= 0,
    ;
    assert(0x1_0000_0000_0000_0000_0000 * h <= ph) by (nonlinear_arith)
        requires
            p >= 0x1_0000_0000_0000_0000_0000,
            ph == p * h,
    ;
    assert(3 * f <= MANT_END * ph);
    assert(MANT_END * (l * h) <= MANT_END * a + f + a + f + ph);
    if l > w + 0x1_8000_0000 * c {
        let d = 0x1_8000_0000 * c;
        assert(l * h >= a + d * h) by (nonlinear_arith)
            requires
                l >= w + d,
                a == w * h,
                h >= 0,
        ;
        assert(8 * (d * h) == 3 * ph) by (nonlinear_arith)
            requires
                8 * d == 3 * p,
                ph == p * h,
        ;
        assert(ph > 0) by (nonlinear_arith)
            requires
                p > 0,
                8 * h >= 3 * p,
                ph == p * h,
        ;
        assert(false);
    }
}

/// A row of values that are not too small is not too thin.
pub proof fn lemma_thick(s: nat, w: nat, t: nat)
    requires
        s >= pow2(860),
        w <= 0x2_0000 * double::one_units(),
        ({
            let p = double::one_units();
            MANT_END * (s * p) <= MANT_END * (t * w) + s * p + MANT_MIN * w
        }),
    ensures
        t >= pow2(800),
{
    let p = double::one_units();
    lemma_speck();
    lemma2_to64();
    lemma_pow2_adds(28, 32);
    lemma_pow2_adds(60, 800);
    lemma_pow2_pos(800);
    let k = pow2(800);
    assert(pow2(60) == 0x1000_0000_0000_0000);
    assert(pow2(860) == 0x1000_0000_0000_0000 * k);
    if t < k {
        assert(t * w <= k * (0x2_0000 * p)) by (nonlinear_arith)
            requires
                t < k,
                w <= 0x2_0000 * p,
                w >= 0,
                p >= 0,
        ;
        let kp = k * p;
        assert(k * (0x2_0000 * p) == 0x2_0000 * kp) by (nonlinear_arith)
            requires
                kp == k * p,
        ;
        assert(s * p >= 0x1000_0000_0000_0000 * kp) by (nonlinear_arith)
            requires
                s >= 0x1000_0000_0000_0000 * k,
                kp == k * p,
                p >= 0,
        ;
        assert(kp >= p) by (nonlinear_arith)
            requires
                k >= 1,
                kp == k * p,
                p >= 0,
        ;
        assert(false);
    }
}

// ── what a row leaves ───────────────────────────────────────────────────────

/// What a row leaves free is hardly smaller than the values that are left.
pub proof fn lemma_left_over(
    m: int,
    s: nat,
    e: nat,
    r: nat,
    w: nat,
    h: nat,
    t: nat,
    left: nat,
    f: nat,
    g: nat,
)
    requires
        0 < m <= MOST_VALUES,
        t <= h,
        w <= 0x2_0000 * double::one_units(),
        e <= r,
        w * h <= g,
        8 * f <= MANT_END * g,
        ({
            let p = double::one_units();
            &&& p * p <= g
            &&& MANT_END * (t * w) <= MANT_END * (s * p) + s * p + MANT_MIN * w
            &&& MANT_END * s <= MANT_END * e + 2 * (m * e) + m * MANT_END
            &&& s <= 2 * e + m
            &&& MANT_END * (h - t) <= MANT_END * left + (h - t) + MANT_MIN
            &&& MANT_END * (r * p) <= MANT_END * (w * h) + f
        }),
    ensures
        MANT_END * ((r - e) * double::one_units()) <= MANT_END * (w * left) + f + 5 * (m * g),
{
    let p = double::one_units();
    let a = t * w;
    let gs = s * p;
    let b = e * p;
    let wh = w * h;
    let rp = r * p;
    lemma_speck();
    let mp = m * p;
    assert(mp <= 0x1000_0000 * p && mp >= 0) by (nonlinear_arith)
        requires
            0 < m <= 0x1000_0000,
            mp == m * p,
            p >= 0,
    ;
    assert(MANT_END * gs <= MANT_END * b + 2 * (m * b) + MANT_END * mp) by (nonlinear_arith)
        requires
            MANT_END * s <= MANT_END * e + 2 * (m * e) + m * MANT_END,
            gs == s * p,
            b == e * p,
            mp == m * p,
    ;
    assert(gs <= 2 * b + mp) by (nonlinear_arith)
        requires
            s <= 2 * e + m,
            gs == s * p,
            b == e * p,
            mp == m * p,
            p >= 0,
    ;
    assert(b <= rp) by (nonlinear_arith)
        requires
            e <= r,
            b == e * p,
            rp == r * p,
            p >= 0,
    ;
    assert(8 * rp <= 9 * g);
    let mb = m * b;
    let mg = m * g;
    assert(8 * mb <= 9 * mg) by (nonlinear_arith)
        requires
            8 * b <= 9 * g,
            mb == m * b,
            mg == m * g,
            m > 0,
    ;
    assert(mb <= 0x1000_0000 * b) by (nonlinear_arith)
        requires
            m <= 0x1000_0000,
            mb == m * b,
            b >= 0,
    ;
    assert(mg >= g) by (nonlinear_arith)
        requires
            m >= 1,
            mg == m * g,
            g >= 0,
    ;
    let d = h - t;
    let wd = w * d;
    let wl = w * left;
    assert(MANT_END * wd <= MANT_END * wl + wd + MANT_MIN * w) by (nonlinear_arith)
        requires
            MANT_END * d <= MANT_END * left + d + MANT_MIN,
            wd == w * d,
            wl == w * left,
            w >= 0,
    ;
    assert(wd == wh - a) by (nonlinear_arith)
        requires
            wd == w * d,
            d == h - t,
            wh == w * h,
            a == t * w,
    ;
    assert(a >= 0) by (nonlinear_arith)
        requires
            a == t * w,
            t >= 0,
            w >= 0,
    ;
    assert((r - e) * p == rp - b) by (nonlinear_arith)
        requires
            rp == r * p,
            b == e * p,
    ;
    assert(0x4000_0000_0000_0000_0000_0000 * p <= p * p) by (nonlinear_arith)
        requires
            p >= 0x4000_0000_0000_0000_0000_0000,
    ;
}

// ── a row in the free area ──────────────────────────────────────────────────

/// Whether values are finite, not too large, and not too small unless they are
/// zero.
pub open spec fn grained(vs: Seq<Double>) -> bool {
    &&& moderate(vs)
    &&& forall|k: int|
        0 <= k < vs.len() ==> (#[trigger] vs[k]).units() == 0 || vs[k].units() >= pow2(900)
}

pub proof fn lemma_exact_bounds(vs: Seq<Double>, i: int, j: int)
    requires
        0 <= i <= j <= vs.len() <= MOST_VALUES,
        grained(vs),
    ensures
        exact(vs, i, j) == 0 || exact(vs, i, j) >= pow2(900),
        exact(vs, i, j) <= (j - i) * pow2(1114),
        exact(vs, i, j) <= pow2(1174),
        exact(vs, i, j) == 0 ==> treemap::total(vs, i, j) == double::zero(),
    decreases j - i,
{
    let m = j - i;
    let p = pow2(1114);
    if j > i {
        lemma_exact_bounds(vs, i, j - 1);
        assert(m * p == (m - 1) * p + p) by (nonlinear_arith);
        let z = double::zero();
        assert(z.units() == 0) by {
            assert(0 * pow2(0) == 0) by (nonlinear_arith);
        }
        if exact(vs, i, j) == 0 {
            reveal(double::sum_of);
            double::lemma_nearest_exact(z);
        }
    } else {
        assert(m * p == 0) by (nonlinear_arith)
            requires
                m == 0,
        ;
    }
    lemma2_to64();
    lemma_pow2_adds(28, 32);
    lemma_pow2_adds(60, 1114);
    assert(m * p <= pow2(60) * p) by (nonlinear_arith)
        requires
            m <= pow2(60),
            p >= 0,
    ;
}

/// The sum of values that are not all zero is not zero.
pub proof fn lemma_some_total(vs: Seq<Double>, i: int, j: int)
    requires
        0 <= i <= j <= vs.len() <= MOST_VALUES,
        grained(vs),
        exact(vs, i, j) > 0,
    ensures
        treemap::total(vs, i, j) is Finite,
        treemap::total(vs, i, j).units() >= pow2(860),
{
    let m = j - i;
    let e = exact(vs, i, j);
    let s = treemap::total(vs, i, j).units();
    lemma_exact_bounds(vs, i, j);
    lemma_total_error(vs, i, j);
    lemma_speck();
    assert(m * e <= 0x1000_0000 * e) by (nonlinear_arith)
        requires
            m <= 0x1000_0000,
            e >= 0,
    ;
    lemma2_to64();
    lemma_pow2_adds(32, 8);
    lemma_pow2_adds(40, 860);
    lemma_pow2_adds(64, 796);
    lemma_pow2_pos(796);
    let k = pow2(796);
    assert(pow2(64) * k >= pow2(64)) by (nonlinear_arith)
        requires
            k >= 1,
    ;
    assert(pow2(40) == 0x100_0000_0000);
    assert(pow2(900) == 0x100_0000_0000 * pow2(860));
}

/// A sum that is not zero is not too small.
pub proof fn lemma_total_thick(vs: Seq<Double>, i: int, j: int)
    requires
        0 <= i <= j <= vs.len() <= MOST_VALUES,
        grained(vs),
        treemap::total(vs, i, j).units() > 0,
    ensures
        treemap::total(vs, i, j) is Finite,
        treemap::total(vs, i, j).units() >= pow2(860),
{
    assert(double::zero().units() == 0) by {
        assert(0 * pow2(0) == 0) by (nonlinear_arith);
    }
    lemma_exact_bounds(vs, i, j);
    lemma_some_total(vs, i, j);
}

/// Whether a free area is as large as the values from `i` on, but for `f`.
pub open spec fn room(vs: Seq<Double>, i: int, side: Double, deep: Double, f: nat) -> bool {
    MANT_END * (exact(vs, i, vs.len() as int) * double::one_units()) <= MANT_END * (side.units()
        * deep.units()) + f
}

/// Whether a length is finite and at most `2^17` sub-cells.
pub open spec fn short(x: Double) -> bool {
    x is Finite && x.wf() && x.units() <= 0x2_0000 * double::one_units()
}

/// A row is hardly longer than its side, unless it shows nothing.
pub proof fn lemma_row_length(
    vs: Seq<Double>,
    i: int,
    e: int,
    side: Double,
    deep: Double,
    f: nat,
)
    requires
        0 <= i < e <= vs.len() <= MOST_VALUES,
        grained(vs),
        short(side),
        short(deep),
        side.units() > 0,
        treemap::total(vs, i, e).units() > 0,
        room(vs, i, side, deep, f),
        8 * f <= MANT_END * (double::one_units() * double::one_units()),
    ensures
        ({
            let t = double::smaller(
                double::quotient_of(treemap::total(vs, i, e), side),
                deep,
            );
            &&& t is Finite
            &&& t.wf()
            &&& t.units() <= deep.units()
            &&& (t == deep && 8 * deep.units() < 3 * double::one_units()) || (t.units() >= pow2(800)
                && lens(vs, i, e, t) <= side.units() + 0x1_8000_0000 * speck())
        }),
{
    let p = double::one_units();
    let sum = treemap::total(vs, i, e);
    let q = double::quotient_of(sum, side);
    let t = double::smaller(q, deep);
    let n = vs.len() as int;
    let m = e - i;
    let s = sum.units();
    let x = exact(vs, i, e);
    lemma_speck();
    lemma_exact_bounds(vs, i, e);
    lemma_total_error(vs, i, e);
    lemma_total_thick(vs, i, e);
    lemma_exact_split(vs, i, e, n);
    assert(double::zero().units() == 0) by {
        assert(0 * pow2(0) == 0) by (nonlinear_arith);
    }
    assert(q.wf() && !(q is Nan)) by {
        reveal(double::quotient_of);
        double::lemma_nearest_wf(s * p, side.units());
    }
    reveal(double::less);
    if t == deep {
        if 8 * deep.units() >= 3 * p {
            assert(deep.units() >= pow2(800)) by {
                lemma2_to64();
                lemma_pow2_adds(2, 1072);
                lemma_pow2_adds(800, 272);
                lemma_pow2_pos(272);
                let k = pow2(272);
                assert(pow2(800) * k >= pow2(800)) by (nonlinear_arith)
                    requires
                        k >= 1,
                ;
            }
            lemma_lens(vs, i, e, t);
            let r = exact(vs, i, n);
            assert(x * p <= r * p) by (nonlinear_arith)
                requires
                    x <= r,
                    p >= 0,
            ;
            lemma_cut_row(m, x, side.units(), deep.units(), lens(vs, i, e, t), f);
        }
    } else {
        assert(t == q);
        double::lemma_quotient_error(sum, side);
        lemma_thick(s, side.units(), t.units());
        lemma_lens(vs, i, e, t);
        lemma_full_row(m, s, x, side.units(), t.units(), lens(vs, i, e, t));
    }
}

/// What a row leaves free is as large as the values that are left, but for a
/// little more, unless nothing is left free.
pub proof fn lemma_row_leaves(
    vs: Seq<Double>,
    i: int,
    e: int,
    side: Double,
    deep: Double,
    f: nat,
    g: nat,
)
    requires
        0 <= i < e <= vs.len() <= MOST_VALUES,
        grained(vs),
        short(side),
        short(deep),
        side.units() > 0,
        treemap::total(vs, i, e).units() > 0,
        room(vs, i, side, deep, f),
        8 * f <= MANT_END * (double::one_units() * double::one_units()),
        double::one_units() * double::one_units() <= g,
        side.units() * deep.units() <= g,
    ensures
        ({
            let t = double::smaller(
                double::quotient_of(treemap::total(vs, i, e), side),
                deep,
            );
            let left = double::difference_of(deep, t);
            &&& short(left)
            &&& left.units() <= deep.units()
            &&& left.units() <= deep.units() - t.units() + speck()
            &&& deep.units() - t.units() <= left.units() + speck()
            &&& side.units() * left.units() <= g
            &&& left.units() == 0 || room(vs, e, side, left, f + 5 * ((e - i) as nat * g))
        }),
{
    let p = double::one_units();
    let sum = treemap::total(vs, i, e);
    let q = double::quotient_of(sum, side);
    let t = double::smaller(q, deep);
    let left = double::difference_of(deep, t);
    let n = vs.len() as int;
    let m = e - i;
    lemma_speck();
    lemma_row_length(vs, i, e, side, deep, f);
    assert(double::at_most(t, deep)) by {
        reveal(double::less);
    }
    lemma_near_difference(deep, t);
    let sw = side.units();
    let dw = deep.units();
    let lw = left.units();
    assert(sw * lw <= sw * dw) by (nonlinear_arith)
        requires
            lw <= dw,
            sw >= 0,
    ;
    if t == deep {
        assert(left.units() == 0) by {
            reveal(double::difference_of);
            let z = double::zero();
            assert(z.units() == 0) by {
                assert(0 * pow2(0) == 0) by (nonlinear_arith);
            }
            double::lemma_nearest_exact(z);
        }
    } else {
        lemma_exact_bounds(vs, i, e);
        lemma_total_error(vs, i, e);
        lemma_exact_split(vs, i, e, n);
        double::lemma_difference_error(deep, t);
        double::lemma_quotient_error(sum, side);
        lemma_left_over(
            m,
            sum.units(),
            exact(vs, i, e),
            exact(vs, i, n),
            sw,
            dw,
            t.units(),
            lw,
            f,
            g,
        );
        assert(exact(vs, i, n) - exact(vs, i, e) == exact(vs, e, n));
    }
}

// ── the edges ───────────────────────────────────────────────────────────────

/// A length that is less than half a sub-cell above `n` rounds to at most `n`.
pub proof fn lemma_rounds_down(x: Double, n: int)
    requires
        x is Finite,
        0 <= n <= i32::MAX,
        2 * x.units() < (2 * n + 1) * double::one_units(),
    ensures
        double::rounded(x) <= n,
{
    reveal(double::rounded);
    let p = double::one_units() as int;
    lemma_pow2_pos(1074);
    let a = 2 * x.units() + p;
    assert(a < (2 * p) * (n + 1)) by (nonlinear_arith)
        requires
            a == 2 * x.units() + p,
            2 * x.units() < (2 * n + 1) * p,
    ;
    lemma_div_by_multiple_is_strongly_ordered(a, (2 * p) * (n + 1), n + 1, 2 * p);
    assert((2 * p) * (n + 1) == (n + 1) * (2 * p)) by (nonlinear_arith);
    lemma_div_multiples_vanish(n + 1, 2 * p);
    lemma_div_pos_is_pos(a, 2 * p);
}

/// A length that is at most half a sub-cell below `n` rounds to at least `n`.
pub proof fn lemma_rounds_up(x: Double, n: int)
    requires
        x is Finite,
        0 <= n <= i32::MAX,
        2 * x.units() >= (2 * n - 1) * double::one_units(),
    ensures
        double::rounded(x) >= n,
{
    reveal(double::rounded);
    let p = double::one_units() as int;
    lemma_pow2_pos(1074);
    let a = 2 * x.units() + p;
    assert(a >= (2 * p) * n) by (nonlinear_arith)
        requires
            a == 2 * x.units() + p,
            2 * x.units() >= (2 * n - 1) * p,
    ;
    lemma_div_is_ordered((2 * p) * n, a, 2 * p);
    assert((2 * p) * n == n * (2 * p)) by (nonlinear_arith);
    lemma_div_multiples_vanish(n, 2 * p);
}

/// Whether an area that is `size` long from `start` on ends at `edge`, but for
/// `k` specks.
pub open spec fn ends_at(start: Double, size: Double, edge: int, k: int) -> bool {
    &&& short(start)
    &&& short(size)
    &&& start.units() + size.units() <= edge * double::one_units() + k * speck()
    &&& edge * double::one_units() <= start.units() + size.units() + k * speck()
}

pub proof fn lemma_specks(k: int, most: int)
    requires
        0 <= k <= most,
    ensures
        0 <= k * speck() <= most * speck(),
{
    let c = speck();
    assert(0 <= k * c <= most * c) by (nonlinear_arith)
        requires
            0 <= k <= most,
            c >= 0,
    ;
}

/// The values of a row end before the edge of the area.
pub proof fn lemma_row_ends(
    vs: Seq<Double>,
    i: int,
    k: int,
    e: int,
    start: Double,
    side: Double,
    t: Double,
    edge: int,
)
    requires
        0 <= i <= k <= e <= vs.len() <= MOST_VALUES,
        grained(vs),
        0 <= edge < 0x2_0000,
        ends_at(start, side, edge, 2 * i),
        t is Finite,
        t.wf(),
        t.units() >= pow2(800),
        lens(vs, i, e, t) <= side.units() + 0x1_8000_0000 * speck(),
    ensures
        double::rounded(treemap::offset(vs, i, k, start, t)) <= edge,
{
    let p = double::one_units();
    let c = speck();
    lemma_speck();
    lemma_lens_rise(vs, i, k, e, t);
    lemma_specks(2 * i, 0x2000_0000);
    lemma_specks(k - i, 0x1000_0000);
    assert(edge * p <= 0x2_0000 * p) by (nonlinear_arith)
        requires
            edge <= 0x2_0000,
            p >= 0,
    ;
    lemma_offset(vs, i, k, start, t);
    let x = treemap::offset(vs, i, k, start, t);
    assert((2 * edge + 1) * p == 2 * (edge * p) + p) by (nonlinear_arith);
    lemma_rounds_down(x, edge);
}

/// A row ends before the edge of the area across its side, and starts there
/// where it takes less than a quarter of a sub-cell.
pub proof fn lemma_row_ends_across(start: Double, deep: Double, t: Double, edge: int, k: int)
    requires
        0 <= edge < 0x2_0000,
        0 <= k <= 0x2000_0000,
        ends_at(start, deep, edge, k),
        t is Finite,
        t.wf(),
        t.units() <= deep.units(),
    ensures
        double::rounded(double::sum_of(start, t)) <= edge,
        8 * deep.units() < 3 * double::one_units() ==> double::rounded(start) >= edge,
{
    let p = double::one_units();
    lemma_speck();
    lemma_specks(k, 0x2000_0000);
    assert(edge * p <= 0x2_0000 * p) by (nonlinear_arith)
        requires
            edge <= 0x2_0000,
            p >= 0,
    ;
    lemma_near_sum(start, t);
    assert((2 * edge + 1) * p == 2 * (edge * p) + p) by (nonlinear_arith);
    assert((2 * edge - 1) * p == 2 * (edge * p) - p) by (nonlinear_arith);
    lemma_rounds_down(double::sum_of(start, t), edge);
    if 8 * deep.units() < 3 * p {
        lemma_rounds_up(start, edge);
    }
}

/// What a row leaves free ends where the area ended, but for two specks more.
pub proof fn lemma_rest_ends(start: Double, deep: Double, t: Double, left: Double, edge: int, k: int)
    requires
        0 <= edge < 0x1_ffff,
        0 <= k <= 0x2000_0000,
        ends_at(start, deep, edge, k),
        t is Finite,
        t.wf(),
        t.units() <= deep.units(),
        short(left),
        left.units() <= deep.units() - t.units() + speck(),
        deep.units() - t.units() <= left.units() + speck(),
    ensures
        ends_at(double::sum_of(start, t), left, edge, k + 2),
{
    let p = double::one_units();
    let c = speck();
    lemma_speck();
    lemma_specks(k, 0x2000_0000);
    assert(edge * p <= 0x1_ffff * p) by (nonlinear_arith)
        requires
            edge <= 0x1_ffff,
            p >= 0,
    ;
    lemma_near_sum(start, t);
    double::lemma_sum_wf(start, t);
    assert((k + 2) * c == k * c + 2 * c) by (nonlinear_arith);
}

/// Whether tiles end before the edges.
pub open spec fn ends_before(tiles: Seq<Placed>, xr: int, yb: int) -> bool {
    forall|j: int| 0 <= j < tiles.len() ==> (#[trigger] tiles[j]).x1 <= xr && tiles[j].y1 <= yb
}

/// The tiles of a row end before the edges of the area.
pub proof fn lemma_row_inside(
    vs: Seq<Double>,
    i: int,
    e: int,
    b: FRect,
    xr: int,
    yb: int,
    f: nat,
)
    requires
        0 <= i < e <= vs.len() <= MOST_VALUES,
        grained(vs),
        0 <= xr < 0x2_0000,
        0 <= yb < 0x2_0000,
        ends_at(b.x, b.w, xr, 2 * i),
        ends_at(b.y, b.h, yb, 2 * i),
        b.w.units() > 0,
        b.h.units() > 0,
        treemap::total(vs, i, e).units() > 0,
        room(vs, i, b.w, b.h, f),
        8 * f <= MANT_END * (double::one_units() * double::one_units()),
    ensures
        ends_before(
            treemap::row_tiles(vs, i, e, b, treemap::thickness(b, treemap::total(vs, i, e))),
            xr,
            yb,
        ),
{
    let sum = treemap::total(vs, i, e);
    let t = treemap::thickness(b, sum);
    let tiles = treemap::row_tiles(vs, i, e, b, t);
    assert(b.w.units() * b.h.units() == b.h.units() * b.w.units()) by (nonlinear_arith);
    treemap::lemma_row_tiles_rise(vs, i, e, b, t);
    treemap::lemma_row_tiles_in_row(vs, i, e, b, t);
    if treemap::along_top(b) {
        lemma_row_length(vs, i, e, b.w, b.h, f);
        lemma_row_ends_across(b.y, b.h, t, yb, 2 * i);
    } else {
        lemma_row_length(vs, i, e, b.h, b.w, f);
        lemma_row_ends_across(b.x, b.w, t, xr, 2 * i);
    }
    assert forall|j: int| 0 <= j < tiles.len() implies (#[trigger] tiles[j]).x1 <= xr
        && tiles[j].y1 <= yb by {
        let tile = tiles[j];
        assert(treemap::in_row(tile, vs, i, b, t));
        assert(tile.shows());
        let k = tile.at + 1;
        if treemap::along_top(b) {
            lemma_row_ends(vs, i, k, e, b.x, b.w, t, xr);
        } else {
            lemma_row_ends(vs, i, k, e, b.y, b.h, t, yb);
        }
    }
}

// ── the sizes ───────────────────────────────────────────────────────────────

/// Whether edges are `w` units from each other, but for a sub-cell.
pub open spec fn spans(lo: i32, hi: i32, w: nat) -> bool {
    let d = (hi - lo) * double::one_units();
    &&& d <= w + double::one_units() + speck()
    &&& w <= d + double::one_units() + speck()
}

/// Whether a tile is `w` by `h` units, but for a sub-cell, and these make an
/// area.
pub open spec fn fills(tile: Placed, w: nat, h: nat, area: nat) -> bool {
    &&& spans(tile.x0, tile.x1, w)
    &&& spans(tile.y0, tile.y1, h)
    &&& near::near(w * h, area, 4)
}

/// Whether a tile is the nearest one to a rectangle of an area.
pub open spec fn sized(tile: Placed, area: nat) -> bool {
    exists|w: nat, h: nat| fills(tile, w, h, area)
}

/// Whether tiles have the areas of their values.
pub open spec fn all_sized(tiles: Seq<Placed>, vs: Seq<Double>) -> bool {
    forall|j: int|
        0 <= j < tiles.len() ==> sized(
            #[trigger] tiles[j],
            vs[tiles[j].at as int].units() * double::one_units(),
        )
}

pub proof fn lemma_rounded_near(x: Double)
    requires
        x is Finite,
        x.units() <= 0x8_0000 * double::one_units(),
    ensures
        2 * (double::rounded(x) * double::one_units()) <= 2 * x.units() + double::one_units(),
        2 * x.units() <= 2 * (double::rounded(x) * double::one_units()) + double::one_units(),
{
    reveal(double::rounded);
    let p = double::one_units() as int;
    lemma_pow2_pos(1074);
    let a = 2 * x.units() + p;
    let q = a / (2 * p);
    lemma_fundamental_div_mod(a, 2 * p);
    lemma_div_pos_is_pos(a, 2 * p);
    assert(q <= 0x10_0000) by (nonlinear_arith)
        requires
            a == (2 * p) * q + a % (2 * p),
            a % (2 * p) >= 0,
            a <= 0x10_0001 * p,
            p > 0,
    ;
    assert((2 * p) * q == 2 * (q * p)) by (nonlinear_arith);
}

pub proof fn lemma_spans(x: Double, w: Double)
    requires
        x is Finite,
        w is Finite,
        x.units() + w.units() <= 0x4_0000 * double::one_units(),
    ensures
        spans(double::rounded(x), double::rounded(double::sum_of(x, w)), w.units()),
{
    let p = double::one_units();
    let y = double::sum_of(x, w);
    lemma_speck();
    lemma_near_sum(x, w);
    lemma_rounded_near(x);
    lemma_rounded_near(y);
    let a = double::rounded(x);
    let b = double::rounded(y);
    assert((b - a) * p == b * p - a * p) by (nonlinear_arith);
}

/// A value of a row that shows has its area.
pub proof fn lemma_value_sized(
    vs: Seq<Double>,
    i: int,
    k: int,
    e: int,
    start: Double,
    side: Double,
    t: Double,
    edge: int,
)
    requires
        0 <= i <= k < e <= vs.len() <= MOST_VALUES,
        grained(vs),
        0 <= edge < 0x2_0000,
        ends_at(start, side, edge, 2 * i),
        short(t),
        t.units() >= pow2(800),
        lens(vs, i, e, t) <= side.units() + 0x1_8000_0000 * speck(),
        double::rounded(treemap::offset(vs, i, k, start, t)) != double::rounded(
            treemap::offset(vs, i, k + 1, start, t),
        ),
    ensures
        ({
            let len = double::quotient_of(vs[k], t);
            &&& len is Finite
            &&& spans(
                double::rounded(treemap::offset(vs, i, k, start, t)),
                double::rounded(treemap::offset(vs, i, k + 1, start, t)),
                len.units(),
            )
            &&& near::near(len.units() * t.units(), vs[k].units() * double::one_units(), 4)
        }),
{
    let p = double::one_units();
    let c = speck();
    let v = vs[k];
    let len = double::quotient_of(v, t);
    let from = treemap::offset(vs, i, k, start, t);
    lemma_speck();
    lemma_lens_rise(vs, i, k + 1, e, t);
    lemma_specks(2 * i, 0x2000_0000);
    lemma_specks(k - i, 0x1000_0000);
    assert(edge * p <= 0x2_0000 * p) by (nonlinear_arith)
        requires
            edge <= 0x2_0000,
            p >= 0,
    ;
    lemma_offset(vs, i, k, start, t);
    lemma_length(v, t);
    assert(from.wf()) by {
        if k > i {
            double::lemma_sum_wf(
                treemap::offset(vs, i, k - 1, start, t),
                double::quotient_of(vs[k - 1], t),
            );
        }
    }
    lemma_spans(from, len);
    let u = t.units();
    let l = len.units();
    let e1 = v.units() * p;
    if v.units() == 0 {
        assert(e1 == 0) by (nonlinear_arith)
            requires
                v.units() == 0,
                e1 == v.units() * p,
        ;
        lemma_pow2_pos(800);
        assert(l == 0) by (nonlinear_arith)
            requires
                2 * (l * u) <= u,
                u > 0,
        ;
        reveal(double::sum_of);
        double::lemma_nearest_exact(from);
        assert(false);
    }
    reveal(double::quotient_of);
    assert(double::zero().units() == 0) by {
        assert(0 * pow2(0) == 0) by (nonlinear_arith);
    }
    lemma_pow2_pos(800);
    assert(e1 >= MANT_END * u) by {
        lemma2_to64();
        lemma_pow2_adds(64, 64);
        lemma_pow2_adds(128, 772);
        lemma_pow2_pos(772);
        let q = pow2(772);
        assert(pow2(900) >= pow2(128)) by (nonlinear_arith)
            requires
                pow2(900) == pow2(128) * q,
                q >= 1,
                pow2(128) >= 0,
        ;
        assert(e1 >= 0x1_0000_0000_0000_0000_0000_0000_0000_0000 * p) by (nonlinear_arith)
            requires
                v.units() >= 0x1_0000_0000_0000_0000_0000_0000_0000_0000,
                e1 == v.units() * p,
                p >= 0,
        ;
    }
    near::lemma_near_rounded(e1, u);
}

/// The tiles of a row have the areas of their values.
pub proof fn lemma_row_sized(
    vs: Seq<Double>,
    i: int,
    e: int,
    b: FRect,
    xr: int,
    yb: int,
    f: nat,
)
    requires
        0 <= i < e <= vs.len() <= MOST_VALUES,
        grained(vs),
        0 <= xr < 0x1_ffff,
        0 <= yb < 0x1_ffff,
        ends_at(b.x, b.w, xr, 2 * i),
        ends_at(b.y, b.h, yb, 2 * i),
        b.w.units() > 0,
        b.h.units() > 0,
        treemap::total(vs, i, e).units() > 0,
        room(vs, i, b.w, b.h, f),
        8 * f <= MANT_END * (double::one_units() * double::one_units()),
    ensures
        all_sized(
            treemap::row_tiles(vs, i, e, b, treemap::thickness(b, treemap::total(vs, i, e))),
            vs,
        ),
{
    let sum = treemap::total(vs, i, e);
    let t = treemap::thickness(b, sum);
    let tiles = treemap::row_tiles(vs, i, e, b, t);
    let p = double::one_units();
    assert(b.w.units() * b.h.units() == b.h.units() * b.w.units()) by (nonlinear_arith);
    treemap::lemma_row_tiles_rise(vs, i, e, b, t);
    treemap::lemma_row_tiles_in_row(vs, i, e, b, t);
    lemma_speck();
    if treemap::along_top(b) {
        lemma_row_length(vs, i, e, b.w, b.h, f);
        lemma_row_ends_across(b.y, b.h, t, yb, 2 * i);
        lemma_spans(b.y, t);
    } else {
        lemma_row_length(vs, i, e, b.h, b.w, f);
        lemma_row_ends_across(b.x, b.w, t, xr, 2 * i);
        lemma_spans(b.x, t);
    }
    assert forall|j: int| 0 <= j < tiles.len() implies sized(
        #[trigger] tiles[j],
        vs[tiles[j].at as int].units() * p,
    ) by {
        let tile = tiles[j];
        let k = tile.at as int;
        let len = double::quotient_of(vs[k], t);
        let area = vs[k].units() * p;
        assert(treemap::in_row(tile, vs, i, b, t));
        assert(tile.shows());
        if treemap::along_top(b) {
            lemma_value_sized(vs, i, k, e, b.x, b.w, t, xr);
            assert(fills(tile, len.units(), t.units(), area));
        } else {
            lemma_value_sized(vs, i, k, e, b.y, b.h, t, yb);
            assert(len.units() * t.units() == t.units() * len.units()) by (nonlinear_arith);
            assert(fills(tile, t.units(), len.units(), area));
        }
    }
}

/// How far an area of `g` may fall short of the values from `i` on, of `n`.
pub open spec fn slack(n: nat, i: nat, g: nat) -> nat {
    (3 * n + 4 + 5 * i) * g
}

pub proof fn lemma_slack(n: nat, i: nat, e: nat, g: nat)
    requires
        i <= e <= n,
    ensures
        slack(n, i, g) + 5 * ((e - i) as nat * g) == slack(n, e, g),
        slack(n, e, g) <= (8 * n + 4) * g,
{
    assert((3 * n + 4 + 5 * i) * g + 5 * ((e - i) * g) == (3 * n + 4 + 5 * e) * g)
        by (nonlinear_arith);
    assert((3 * n + 4 + 5 * e) * g <= (8 * n + 4) * g) by (nonlinear_arith)
        requires
            e <= n,
            g >= 0,
    ;
}

/// The tiles of the values from `i` on end before the edges of the area, and
/// have the areas of their values.
pub proof fn lemma_laid_out_inside(
    vs: Seq<Double>,
    i: int,
    b: FRect,
    xr: int,
    yb: int,
    g: nat,
)
    requires
        0 <= i <= vs.len() <= MOST_VALUES,
        grained(vs),
        0 <= xr < 0x1_ffff,
        0 <= yb < 0x1_ffff,
        ends_at(b.x, b.w, xr, 2 * i),
        ends_at(b.y, b.h, yb, 2 * i),
        b.w.units() * b.h.units() <= g,
        double::one_units() * double::one_units() <= g,
        8 * ((8 * vs.len() + 4) * g) <= MANT_END * (double::one_units() * double::one_units()),
        b.w.units() == 0 || b.h.units() == 0 || room(
            vs,
            i,
            b.w,
            b.h,
            slack(vs.len(), i as nat, g),
        ),
    ensures
        ends_before(treemap::laid_out(vs, i, b), xr, yb),
        all_sized(treemap::laid_out(vs, i, b), vs),
    decreases vs.len() - i,
{
    let n = vs.len();
    let short = double::smaller(b.w, b.h);
    let zero = double::zero();
    assert(zero.units() == 0) by {
        assert(0 * pow2(0) == 0) by (nonlinear_arith);
    }
    if i < n && !double::at_most(short, zero) {
        reveal(double::less);
        assert(b.w.units() > 0 && b.h.units() > 0);
        let e = treemap::row_end(vs, i, i + 1, short);
        let sum = treemap::total(vs, i, e);
        let f = slack(n, i as nat, g);
        treemap::lemma_row_end(vs, i, i + 1, short);
        lemma_slack(n, i as nat, i as nat, g);
        lemma_slack(n, i as nat, e as nat, g);
        lemma_exact_bounds(vs, i, e);
        lemma_total_error(vs, i, e);
        let c = speck();
        assert((2 * e) * c >= (2 * i + 2) * c) by (nonlinear_arith)
            requires
                e >= i + 1,
                c >= 0,
        ;
        assert((2 * i + 2) * c >= (2 * i) * c) by (nonlinear_arith)
            requires
                c >= 0,
        ;
        if double::at_most(sum, zero) {
            assert(exact(vs, i, e) == 0) by {
                if exact(vs, i, e) > 0 {
                    lemma_some_total(vs, i, e);
                    lemma_pow2_pos(860);
                }
            }
            lemma_exact_split(vs, i, e, n as int);
            lemma_laid_out_inside(vs, e, b, xr, yb, g);
        } else {
            let t = treemap::thickness(b, sum);
            let rest = treemap::after_row(b, sum);
            let row = treemap::row_tiles(vs, i, e, b, t);
            let later = treemap::laid_out(vs, e, rest);
            lemma_row_inside(vs, i, e, b, xr, yb, f);
            lemma_row_sized(vs, i, e, b, xr, yb, f);
            let w = b.w.units();
            let h = b.h.units();
            assert(w * h == h * w) by (nonlinear_arith);
            if treemap::along_top(b) {
                lemma_row_length(vs, i, e, b.w, b.h, f);
                lemma_row_leaves(vs, i, e, b.w, b.h, f, g);
                lemma_rest_ends(b.y, b.h, t, rest.h, yb, 2 * i);
            } else {
                lemma_row_length(vs, i, e, b.h, b.w, f);
                lemma_row_leaves(vs, i, e, b.h, b.w, f, g);
                lemma_rest_ends(b.x, b.w, t, rest.w, xr, 2 * i);
                let u = rest.w.units();
                assert(u * h == h * u) by (nonlinear_arith);
            }
            lemma_laid_out_inside(vs, e, rest, xr, yb, g);
            let all = row + later;
            assert forall|j: int| 0 <= j < all.len() implies (#[trigger] all[j]).x1 <= xr
                && all[j].y1 <= yb && sized(
                all[j],
                vs[all[j].at as int].units() * double::one_units(),
            ) by {
                if j < row.len() {
                    assert(row[j].x1 <= xr);
                } else {
                    assert(later[j - row.len()].x1 <= xr);
                }
            }
        }
    }
}

// ── the areas at the start ──────────────────────────────────────────────────

pub proof fn lemma_exact_same(a: Seq<Double>, b: Seq<Double>, j: int)
    requires
        forall|k: int| 0 <= k < j ==> a[k] == b[k],
    ensures
        exact(a, 0, j) == exact(b, 0, j),
    decreases j,
{
    if j > 0 {
        lemma_exact_same(a, b, j - 1);
    }
}

pub proof fn lemma_exact_remove(vs: Seq<Double>, k: int, j: int)
    requires
        0 <= k < j <= vs.len(),
    ensures
        exact(vs, 0, j) == exact(vs.remove(k), 0, j - 1) + vs[k].units(),
    decreases j,
{
    let less = vs.remove(k);
    if k == j - 1 {
        lemma_exact_same(vs, less, j - 1);
    } else {
        lemma_exact_remove(vs, k, j - 1);
        assert(less[j - 2] == vs[j - 1]);
    }
}

pub proof fn lemma_exact_member(vs: Seq<Double>, k: int, j: int)
    requires
        0 <= k < j <= vs.len(),
    ensures
        vs[k].units() <= exact(vs, 0, j),
    decreases j,
{
    if k < j - 1 {
        lemma_exact_member(vs, k, j - 1);
    }
}

/// Whether all places below `n` occur.
pub open spec fn covers_all(p: Seq<usize>, n: int) -> bool {
    forall|a: int| 0 <= a < n ==> #[trigger] has_place(p, a)
}

/// Whether a place occurs.
pub open spec fn has_place(p: Seq<usize>, a: int) -> bool {
    exists|i: int| 0 <= i < p.len() && #[trigger] p[i] == a
}

/// Values at different places add up to no more than all values, and to all
/// where every place occurs.
pub proof fn lemma_exact_picked(vs: Seq<Double>, p: Seq<usize>)
    requires
        forall|i: int| 0 <= i < p.len() ==> (#[trigger] p[i]) < vs.len(),
        forall|i: int, j: int| 0 <= i < j < p.len() ==> #[trigger] p[i] != #[trigger] p[j],
    ensures
        exact(treemap::picked(vs, p), 0, p.len() as int) <= exact(vs, 0, vs.len() as int),
        covers_all(p, vs.len() as int) ==> exact(treemap::picked(vs, p), 0, p.len() as int)
            == exact(vs, 0, vs.len() as int),
    decreases vs.len(),
{
    let all = treemap::picked(vs, p);
    if vs.len() == 0 {
        if p.len() > 0 {
            assert(p[0] < vs.len());
        }
    } else {
        let last = vs.len() - 1;
        let less = vs.drop_last();
        lemma_exact_same(vs, less, last);
        if exists|k: int| 0 <= k < p.len() && p[k] == last {
            let k = choose|k: int| 0 <= k < p.len() && p[k] == last;
            let q = p.remove(k);
            assert forall|i: int| 0 <= i < q.len() implies (#[trigger] q[i]) < less.len() by {
                let x = if i < k {
                    i
                } else {
                    i + 1
                };
                assert(q[i] == p[x]);
                if x < k {
                    assert(p[x] != p[k]);
                } else {
                    assert(p[k] != p[x]);
                }
            }
            assert forall|i: int, j: int| 0 <= i < j < q.len() implies #[trigger] q[i]
                != #[trigger] q[j] by {
                let x = if i < k {
                    i
                } else {
                    i + 1
                };
                let y = if j < k {
                    j
                } else {
                    j + 1
                };
                assert(p[x] != p[y]);
            }
            lemma_exact_picked(less, q);
            lemma_exact_remove(all, k, p.len() as int);
            assert(all.remove(k) =~= treemap::picked(less, q));
            if covers_all(p, vs.len() as int) {
                assert forall|a: int| 0 <= a < less.len() implies #[trigger] has_place(q, a) by {
                    assert(has_place(p, a));
                    let i = choose|i: int| 0 <= i < p.len() && #[trigger] p[i] == a;
                    let x = if i < k {
                        i
                    } else {
                        i - 1
                    };
                    assert(q[x] == a);
                }
            }
        } else {
            assert forall|i: int| 0 <= i < p.len() implies (#[trigger] p[i]) < less.len() by {
                assert(p[i] != last);
            }
            lemma_exact_picked(less, p);
            assert(all =~= treemap::picked(less, p));
            if covers_all(p, vs.len() as int) {
                assert(has_place(p, last as int));
            }
        }
    }
}

/// The sum of products is near the product of the sum.
pub proof fn lemma_products(us: Seq<Double>, vs: Seq<Double>, s: Double, j: int)
    requires
        0 <= j <= us.len() == vs.len(),
        s is Finite,
        forall|k: int|
            0 <= k < us.len() ==> (#[trigger] us[k]) is Finite && vs[k] is Finite && vs[k]
                == double::product_of(us[k], s),
    ensures
        ({
            let p = double::one_units();
            let e = exact(us, 0, j) * s.units();
            MANT_END * (exact(vs, 0, j) * p) <= MANT_END * e + e + j * (MANT_MIN * p)
        }),
    decreases j,
{
    let p = double::one_units();
    let c = s.units();
    if j > 0 {
        lemma_products(us, vs, s, j - 1);
        let u = us[j - 1];
        let v = vs[j - 1];
        double::lemma_product_error(u, s);
        let x = exact(us, 0, j - 1);
        let y = exact(vs, 0, j - 1);
        assert((x + u.units()) * c == x * c + u.units() * c) by (nonlinear_arith);
        assert((y + v.units()) * p == y * p + v.units() * p) by (nonlinear_arith);
        let d = MANT_MIN * p;
        assert(j * d == (j - 1) * d + d) by (nonlinear_arith);
    } else {
        assert(0 * c == 0) by (nonlinear_arith);
        assert(0 * p == 0) by (nonlinear_arith);
        let d = MANT_MIN * p;
        assert(j * d == 0) by (nonlinear_arith)
            requires
                j == 0,
        ;
    }
}

/// Scaled values are hardly more than the area `g`, which is `a` ones squared.
pub proof fn lemma_scaled(n: nat, a: nat, v: nat, t: nat, s: nat, x: nat)
    requires
        0 < n <= MOST_VALUES,
        0 < a,
        t >= double::one_units(),
        t <= 0x1_0000_0000_0000_0000_0000_0000 * double::one_units(),
        ({
            let p = double::one_units();
            let g = a * (p * p);
            &&& MANT_END * (s * t) <= MANT_END * g + g + MANT_MIN * t
            &&& MANT_END * v <= MANT_END * t + 2 * (n * v) + n * MANT_END
            &&& MANT_END * (x * p) <= MANT_END * (v * s) + v * s + n * (MANT_MIN * p)
        }),
    ensures
        ({
            let p = double::one_units();
            let g = a * (p * p);
            MANT_END * (x * p) <= MANT_END * g + slack(n, 0, g)
        }),
{
    let p = double::one_units();
    let pp = p * p;
    let g = a * pp;
    let y = v * s;
    let z = s * t;
    lemma_speck();
    let ny = n * y;
    let ns = n * s;
    assert(MANT_END * y <= MANT_END * z + 2 * ny + MANT_END * ns) by (nonlinear_arith)
        requires
            MANT_END * v <= MANT_END * t + 2 * (n * v) + n * MANT_END,
            y == v * s,
            z == s * t,
            ny == n * y,
            ns == n * s,
            s >= 0,
    ;
    assert(ny <= 0x1000_0000 * y) by (nonlinear_arith)
        requires
            n <= 0x1000_0000,
            ny == n * y,
            y >= 0,
    ;
    assert(ns <= 0x1000_0000 * s) by (nonlinear_arith)
        requires
            n <= 0x1000_0000,
            ns == n * s,
            s >= 0,
    ;
    // An area is far more than a length.
    let big = 0x1000_0000_0000_0000_0000_0000_0000_0000_0000_0000_0000_0000nat;
    assert(p >= big) by {
        lemma2_to64();
        lemma_pow2_adds(64, 64);
        lemma_pow2_adds(128, 64);
        lemma_pow2_adds(192, 882);
        lemma_pow2_pos(882);
        let k = pow2(882);
        assert(pow2(192) * k >= pow2(192)) by (nonlinear_arith)
            requires
                k >= 1,
        ;
    }
    assert(pp >= big * p) by (nonlinear_arith)
        requires
            p >= big,
            pp == p * p,
    ;
    assert(g >= pp) by (nonlinear_arith)
        requires
            a >= 1,
            g == a * pp,
            pp >= 0,
    ;
    assert(z >= s * p) by (nonlinear_arith)
        requires
            t >= p,
            z == s * t,
            s >= 0,
    ;
    assert(s * p >= big * s) by (nonlinear_arith)
        requires
            p >= big,
            s >= 0,
    ;
    assert(z <= 2 * g);
    assert(8 * y <= 9 * g);
    let ng = n * g;
    assert(8 * ny <= 9 * ng) by (nonlinear_arith)
        requires
            8 * y <= 9 * g,
            ny == n * y,
            ng == n * g,
            n >= 0,
    ;
    assert(n * (MANT_MIN * p) <= 0x1000_0000 * (MANT_MIN * p)) by (nonlinear_arith)
        requires
            n <= 0x1000_0000,
            p >= 0,
    ;
    assert((3 * n + 4 + 5 * 0) * g == 3 * ng + 4 * g) by (nonlinear_arith)
        requires
            ng == n * g,
    ;
}

/// The factor from values to areas is not too small.
pub proof fn lemma_scale_large(a: nat, t: nat, s: nat)
    requires
        0 < a,
        t <= 0x1_0000_0000_0000_0000_0000_0000 * double::one_units(),
        ({
            let p = double::one_units();
            let g = a * (p * p);
            MANT_END * g <= MANT_END * (s * t) + g + MANT_MIN * t
        }),
    ensures
        s >= pow2(904),
{
    let p = double::one_units();
    let k = pow2(904);
    let g = a * (p * p);
    let pp = p * p;
    lemma_speck();
    assert(g >= pp) by (nonlinear_arith)
        requires
            a >= 1,
            g == a * pp,
            pp >= 0,
    ;
    lemma2_to64();
    lemma_pow2_adds(64, 64);
    lemma_pow2_adds(128, 42);
    lemma_pow2_adds(32, 10);
    lemma_pow2_adds(170, 904);
    lemma_pow2_pos(904);
    assert(pow2(128) == 0x1_0000_0000_0000_0000_0000_0000_0000_0000);
    assert(p >= pow2(128) * k) by (nonlinear_arith)
        requires
            p == pow2(170) * k,
            pow2(170) == pow2(128) * pow2(42),
            pow2(42) >= 1,
            k >= 0,
    ;
    let kp = k * p;
    assert(pp >= 0x1_0000_0000_0000_0000_0000_0000_0000_0000 * kp) by (nonlinear_arith)
        requires
            p >= 0x1_0000_0000_0000_0000_0000_0000_0000_0000 * k,
            pp == p * p,
            kp == k * p,
            p >= 0,
    ;
    if s < k {
        assert(s * t <= k * t) by (nonlinear_arith)
            requires
                s <= k,
                t >= 0,
        ;
        assert(k * t <= 0x1_0000_0000_0000_0000_0000_0000 * kp) by (nonlinear_arith)
            requires
                t <= 0x1_0000_0000_0000_0000_0000_0000 * p,
                kp == k * p,
                k >= 0,
        ;
        assert(kp >= p) by (nonlinear_arith)
            requires
                k >= 1,
                kp == k * p,
                p >= 0,
        ;
        assert(p > 0);
        assert(false);
    }
}

/// An integer that is scaled gives zero or an area that is not too small.
pub proof fn lemma_grain(u: Double, s: Double)
    requires
        u is Finite,
        u.units() == 0 || u.units() >= double::one_units(),
        s is Finite,
        s.units() >= pow2(904),
        double::product_of(u, s) is Finite,
    ensures
        double::product_of(u, s).units() == 0 || double::product_of(u, s).units() >= pow2(900),
{
    let p = double::one_units();
    let c = s.units();
    let v = double::product_of(u, s).units();
    let e = u.units() * c;
    let q = v * p;
    double::lemma_product_error(u, s);
    lemma_speck();
    if u.units() == 0 {
        assert(e == 0) by (nonlinear_arith)
            requires
                u.units() == 0,
                e == u.units() * c,
        ;
        assert(v == 0) by (nonlinear_arith)
            requires
                2 * q <= p,
                q == v * p,
                p > 0,
        ;
    } else {
        lemma2_to64();
        lemma_pow2_adds(4, 900);
        lemma_pow2_pos(900);
        assert(e >= p * c) by (nonlinear_arith)
            requires
                u.units() >= p,
                e == u.units() * c,
                c >= 0,
        ;
        let k = pow2(900);
        assert(p * c >= 16 * (p * k)) by (nonlinear_arith)
            requires
                c >= 16 * k,
                p >= 0,
        ;
        assert(p * k >= p) by (nonlinear_arith)
            requires
                k >= 1,
                p >= 0,
        ;
        assert(v >= k) by (nonlinear_arith)
            requires
                q >= p * k,
                q == v * p,
                p > 0,
        ;
    }
}

/// Integers, and the sum of them, in units.
pub proof fn lemma_integer_sum(ns: Seq<u64>, j: int)
    requires
        0 <= j <= ns.len(),
    ensures
        exact(treemap::of_ints(ns), 0, j) <= j * pow2(1138),
    decreases j,
{
    let p = pow2(1138);
    if j > 0 {
        lemma_integer_sum(ns, j - 1);
        double::lemma_of_within(ns[j - 1]);
        assert(treemap::of_ints(ns)[j - 1] == double::of_int(ns[j - 1] as nat));
        assert(j * p == (j - 1) * p + p) by (nonlinear_arith);
    } else {
        assert(j * p == 0) by (nonlinear_arith)
            requires
                j == 0,
        ;
    }
}

/// Whether so many values can be laid out in an area with errors that do not
/// show.
pub open spec fn bounded(n: nat, area: Rect) -> bool {
    &&& n <= MOST_VALUES
    &&& n * (area.width * area.height) <= MOST_WORK
}

/// The factor from integers to areas, and the sum that it comes from.
pub open spec fn fair_scale(ns: Seq<u64>, area: Rect) -> bool {
    let us = treemap::of_ints(ns);
    let n = ns.len() as int;
    let p = double::one_units();
    let a = (area.width * area.height) as nat;
    let g = a * (p * p);
    let v = exact(us, 0, n);
    let t = treemap::total(us, 0, n);
    let s = treemap::scale_of(us, area);
    &&& 0 < a <= 0xfffe_0001
    &&& forall|k: int|
        0 <= k < us.len() ==> (#[trigger] us[k]) is Finite && us[k].wf() && (us[k].units() == 0
            || us[k].units() >= p)
    &&& p <= t.units() <= 0x1_0000_0000_0000_0000_0000_0000 * p
    &&& MANT_END * t.units() <= MANT_END * v + 2 * (n * v) + n * MANT_END
    &&& MANT_END * v <= MANT_END * t.units() + 2 * (n * v) + n * MANT_END
    &&& t.units() <= 2 * v + n
    &&& double::within(s, 128)
    &&& s.units() >= pow2(904)
    &&& MANT_END * (s.units() * t.units()) <= MANT_END * g + g + MANT_MIN * t.units()
    &&& MANT_END * g <= MANT_END * (s.units() * t.units()) + g + MANT_MIN * t.units()
}

/// Integers have a fair scale.
pub proof fn lemma_fair_scale(ns: Seq<u64>, area: Rect)
    requires
        bounded(ns.len(), area),
        !treemap::nothing_to_lay_out(treemap::of_ints(ns), area),
    ensures
        fair_scale(ns, area),
{
    let us = treemap::of_ints(ns);
    let n = ns.len();
    let p = double::one_units();
    let a = (area.width * area.height) as nat;
    let g = a * (p * p);
    let w = double::of_int(area.width as nat);
    let h = double::of_int(area.height as nat);
    let full = double::product_of(w, h);
    let t = treemap::total(us, 0, n as int);
    let s = treemap::scale_of(us, area);
    lemma_speck();
    lemma2_to64();
    // The area, exactly.
    assert(0 < a <= 0xfffe_0001) by (nonlinear_arith)
        requires
            0 < area.width <= 0xffff,
            0 < area.height <= 0xffff,
            a == area.width * area.height,
    ;
    double::lemma_of_int_exact(area.width as nat);
    double::lemma_of_int_exact(area.height as nat);
    double::lemma_of_within(area.width as u64);
    double::lemma_of_within(area.height as u64);
    assert(full is Finite && full.units() == a * p) by {
        reveal(double::product_of);
        reveal(double::of_int);
        double::lemma_of_int_exact(a);
        assert(w.units() * h.units() == (a * p) * p) by (nonlinear_arith)
            requires
                w.units() == area.width * p,
                h.units() == area.height * p,
                a == area.width * area.height,
        ;
        double::lemma_nearest_scale(a * p, 1, p);
        assert(1 * p == p);
    }
    // The sum.
    assert forall|k: int| 0 <= k < us.len() implies (#[trigger] us[k]) is Finite && us[k].wf() && (
    us[k].units() == 0 || us[k].units() >= p) by {
        double::lemma_of_within(ns[k]);
        let u = us[k].units();
        if ns[k] == 0 {
            double::lemma_of_int_exact(0);
            assert(0 * p == 0) by (nonlinear_arith);
        } else {
            assert(u * pow2(0) == u) by (nonlinear_arith)
                requires
                    pow2(0) == 1,
            ;
        }
    }
    lemma_integer_sum(ns, n as int);
    let v = exact(us, 0, n as int);
    lemma_pow2_adds(28, 1138);
    assert(n * pow2(1138) <= pow2(1166)) by (nonlinear_arith)
        requires
            n <= 0x1000_0000,
            pow2(1166) == 0x1000_0000 * pow2(1138),
    ;
    lemma_pow2_adds(8, 1166);
    assert(v <= pow2(1174));
    lemma_total_error(us, 0, n as int);
    treemap::lemma_total_of_ints(ns, n as int);
    assert(t != double::zero()) by {
        reveal(double::less);
    }
    assert(t.units() >= p) by {
        let u = t.units();
        assert(u * pow2(0) == u) by (nonlinear_arith)
            requires
                pow2(0) == 1,
        ;
    }
    lemma_pow2_adds(64, 28);
    lemma_pow2_adds(92, 1074);
    assert(pow2(92) == 0x1000_0000_0000_0000_0000_0000);
    assert(pow2(1166) == 0x1000_0000_0000_0000_0000_0000 * p);
    assert(t.units() <= 0x1_0000_0000_0000_0000_0000_0000 * p);
    // The factor.
    lemma_pow2_adds(1074, 64);
    double::lemma_product_within(w, h, 64, 64);
    double::lemma_quotient_within(full, t, 128, 0);
    double::lemma_quotient_error(full, t);
    assert((a * p) * p == g) by (nonlinear_arith)
        requires
            g == a * (p * p),
    ;
    assert(s.units() * t.units() == t.units() * s.units()) by (nonlinear_arith);
    lemma_scale_large(a, t.units(), s.units());
}

/// The areas of integers are as large as the area that they share, but for a
/// little.
pub proof fn lemma_areas(ns: Seq<u64>, area: Rect)
    requires
        bounded(ns.len(), area),
        !treemap::nothing_to_lay_out(treemap::of_ints(ns), area),
    ensures
        ({
            let vs = treemap::areas(treemap::of_ints(ns), area);
            let p = double::one_units();
            let g = (area.width * area.height) as nat * (p * p);
            &&& grained(vs)
            &&& MANT_END * (exact(vs, 0, vs.len() as int) * p) <= MANT_END * g + slack(
                ns.len(),
                0,
                g,
            )
        }),
{
    let us = treemap::of_ints(ns);
    let vs = treemap::areas(us, area);
    let n = ns.len();
    let p = double::one_units();
    let a = (area.width * area.height) as nat;
    let g = a * (p * p);
    let t = treemap::total(us, 0, n as int);
    let s = treemap::scale_of(us, area);
    let v = exact(us, 0, n as int);
    lemma_speck();
    lemma2_to64();
    lemma_fair_scale(ns, area);
    assert((a * p) * p == g) by (nonlinear_arith)
        requires
            g == a * (p * p),
    ;
    assert forall|k: int| 0 <= k < vs.len() implies (#[trigger] vs[k]) is Finite && vs[k].wf()
        && vs[k] == double::product_of(us[k], s) && (vs[k].units() == 0 || vs[k].units() >= pow2(
        900,
    )) by {
        assert(us[k] is Finite);
        double::lemma_of_within(ns[k]);
        double::lemma_product_within(us[k], s, 64, 128);
        lemma_grain(us[k], s);
    }
    lemma_products(us, vs, s, n as int);
    let x = exact(vs, 0, n as int);
    lemma_scaled(n, a, v, t.units(), s.units(), x);
    assert forall|k: int| 0 <= k < vs.len() implies (#[trigger] vs[k]).units() <= pow2(1114) by {
        lemma_exact_member(vs, k, n as int);
        let xp = x * p;
        lemma_slack(n, 0, 0, g);
        assert((8 * n + 4) * g <= MANT_END * g) by (nonlinear_arith)
            requires
                8 * n + 4 <= MANT_END,
                g >= 0,
        ;
        assert(xp <= 2 * g);
        assert(x <= 2 * (a * p)) by (nonlinear_arith)
            requires
                xp <= 2 * g,
                xp == x * p,
                g == (a * p) * p,
                p > 0,
        ;
        assert(a * p <= 0x1_0000_0000 * p) by (nonlinear_arith)
            requires
                a <= 0x1_0000_0000,
                p >= 0,
        ;
        lemma_pow2_adds(32, 8);
        assert(pow2(40) == 0x100_0000_0000);
        lemma_pow2_adds(40, 1074);
        assert(pow2(1114) == 0x100_0000_0000 * p);
    }
}

// ── the laws ────────────────────────────────────────────────────────────────

/// The areas of integers in order, as they are laid out.
pub open spec fn sorted_areas(ns: Seq<u64>, area: Rect) -> Seq<Double> {
    let vs = treemap::areas(treemap::of_ints(ns), area);
    treemap::picked(vs, order::ranking(treemap::codes(vs)))
}

/// An area in units, squared.
pub open spec fn area_units(area: Rect) -> nat {
    (area.width * area.height) as nat * (double::one_units() * double::one_units())
}

/// What holds when the layout of integers begins.
pub proof fn lemma_start(ns: Seq<u64>, area: Rect)
    requires
        bounded(ns.len(), area),
        !treemap::nothing_to_lay_out(treemap::of_ints(ns), area),
    ensures
        ({
            let sorted = sorted_areas(ns, area);
            let b = treemap::bounds_of(area);
            let g = area_units(area);
            &&& sorted.len() == ns.len()
            &&& grained(sorted)
            &&& grained(treemap::areas(treemap::of_ints(ns), area))
            &&& ends_at(b.x, b.w, area.left + area.width, 0)
            &&& ends_at(b.y, b.h, area.top + area.height, 0)
            &&& b.w.units() * b.h.units() == g
            &&& double::one_units() * double::one_units() <= g
            &&& 8 * ((8 * ns.len() + 4) * g) <= MANT_END * (double::one_units()
                * double::one_units())
            &&& room(sorted, 0, b.w, b.h, slack(ns.len(), 0, g))
        }),
{
    let us = treemap::of_ints(ns);
    let vs = treemap::areas(us, area);
    let n = ns.len();
    let p = double::one_units();
    let pp = p * p;
    let a = (area.width * area.height) as nat;
    let g = a * pp;
    let order = order::ranking(treemap::codes(vs));
    let sorted = treemap::picked(vs, order);
    let b = treemap::bounds_of(area);
    let xr = area.left + area.width;
    let yb = area.top + area.height;
    assert(0 < a <= 0xfffe_0001) by (nonlinear_arith)
        requires
            0 < area.width <= 0xffff,
            0 < area.height <= 0xffff,
            a == area.width * area.height,
    ;
    lemma_areas(ns, area);
    lemma_speck();
    order::lemma_ranking_exists(treemap::codes(vs));
    assert forall|i: int, j: int| 0 <= i < j < order.len() implies #[trigger] order[i]
        != #[trigger] order[j] by {
        assert(order::before(treemap::codes(vs), order[i] as int, order[j] as int));
    }
    lemma_exact_picked(vs, order);
    assert(grained(sorted)) by {
        assert forall|k: int| 0 <= k < sorted.len() implies (#[trigger] sorted[k]) is Finite
            && sorted[k].wf() && sorted[k].units() <= pow2(1114) && (sorted[k].units() == 0
            || sorted[k].units() >= pow2(900)) by {
            assert(sorted[k] == vs[order[k] as int]);
        }
    }
    let x = exact(vs, 0, n as int);
    let y = exact(sorted, 0, n as int);
    assert(y * p <= x * p) by (nonlinear_arith)
        requires
            y <= x,
            p >= 0,
    ;
    double::lemma_of_int_exact(area.left as nat);
    double::lemma_of_int_exact(area.top as nat);
    double::lemma_of_int_exact(area.width as nat);
    double::lemma_of_int_exact(area.height as nat);
    double::lemma_of_within(area.left as u64);
    double::lemma_of_within(area.top as u64);
    double::lemma_of_within(area.width as u64);
    double::lemma_of_within(area.height as u64);
    assert(b.w.units() * b.h.units() == g) by (nonlinear_arith)
        requires
            b.w.units() == area.width * p,
            b.h.units() == area.height * p,
            a == area.width * area.height,
            g == a * pp,
            pp == p * p,
    ;
    assert(area.left * p + area.width * p == xr * p) by (nonlinear_arith)
        requires
            xr == area.left + area.width,
    ;
    assert(area.top * p + area.height * p == yb * p) by (nonlinear_arith)
        requires
            yb == area.top + area.height,
    ;
    assert(area.left * p <= 0x1_0000 * p && area.width * p <= 0x1_0000 * p && area.top * p
        <= 0x1_0000 * p && area.height * p <= 0x1_0000 * p) by (nonlinear_arith)
        requires
            area.left <= 0x1_0000,
            area.width <= 0x1_0000,
            area.top <= 0x1_0000,
            area.height <= 0x1_0000,
            p >= 0,
    ;
    lemma_specks(0, 0);
    assert(pp <= g) by (nonlinear_arith)
        requires
            a >= 1,
            g == a * pp,
            pp >= 0,
    ;
    let m = 8 * n + 4;
    assert(m * a <= 0x4_0000_0000_0000) by (nonlinear_arith)
        requires
            m == 8 * n + 4,
            n * a <= 0x7fff_8000_0000,
            a <= 0xffff_ffff,
    ;
    assert(8 * (m * g) <= MANT_END * pp) by (nonlinear_arith)
        requires
            8 * (m * a) <= 0x20_0000_0000_0000,
            MANT_END == 0x20_0000_0000_0000,
            g == a * pp,
            pp >= 0,
    ;
}

/// The tiles of integers by their edges end before the edges of the area, and
/// have the areas of their values.
pub proof fn lemma_edges_inside(ns: Seq<u64>, area: Rect)
    requires
        bounded(ns.len(), area),
        !treemap::nothing_to_lay_out(treemap::of_ints(ns), area),
    ensures
        ends_before(
            treemap::edges(treemap::of_ints(ns), area),
            area.left + area.width,
            area.top + area.height,
        ),
        all_sized(treemap::edges(treemap::of_ints(ns), area), sorted_areas(ns, area)),
        grained(treemap::areas(treemap::of_ints(ns), area)),
{
    lemma_start(ns, area);
    lemma_laid_out_inside(
        sorted_areas(ns, area),
        0,
        treemap::bounds_of(area),
        area.left + area.width,
        area.top + area.height,
        area_units(area),
    );
}

pub proof fn lemma_rect_edges(tile: Placed)
    requires
        tile.shows(),
        treemap::on_screen(tile),
        0 <= tile.x0,
        0 <= tile.y0,
    ensures
        ({
            let r = tile.rect();
            &&& r.left == tile.x0
            &&& r.top == tile.y0
            &&& r.left + r.width == tile.x1
            &&& r.top + r.height == tile.y1
        }),
{
}

/// The tiles of a treemap by their edges.
pub proof fn lemma_edges(values: Seq<Double>, area: Rect)
    requires
        values.len() <= usize::MAX,
    ensures
        treemap::rising(treemap::edges(values, area), 0, values.len() as int),
        treemap::disjoint_in(treemap::edges(values, area), treemap::bounds_of(area)),
        double::rounded(treemap::bounds_of(area).x) >= area.left,
        double::rounded(treemap::bounds_of(area).y) >= area.top,
{
    let vs = treemap::areas(values, area);
    let order = order::ranking(treemap::codes(vs));
    let sorted = treemap::picked(vs, order);
    let b = treemap::bounds_of(area);
    order::lemma_ranking_exists(treemap::codes(vs));
    double::lemma_of_int_exact(area.left as nat);
    double::lemma_of_int_exact(area.top as nat);
    double::lemma_of_within(area.left as u64);
    double::lemma_of_within(area.top as u64);
    double::lemma_of_within(area.width as u64);
    double::lemma_of_within(area.height as u64);
    treemap::lemma_laid_out_rises(sorted, 0, b);
    treemap::lemma_laid_out_disjoint(sorted, 0, b);
    let p = double::one_units();
    assert((2 * area.left - 1) * p <= 2 * (area.left * p)) by (nonlinear_arith)
        requires
            p >= 0,
    ;
    assert((2 * area.top - 1) * p <= 2 * (area.top * p)) by (nonlinear_arith)
        requires
            p >= 0,
    ;
    lemma_rounds_up(b.x, area.left as int);
    lemma_rounds_up(b.y, area.top as int);
}

/// No tile reaches outside the area that was laid out: its edges are within
/// those of the area.
pub proof fn tiles_stay_inside(ns: Seq<u64>, area: Rect, j: int)
    requires
        bounded(ns.len(), area),
        area.addressable(),
        0 <= j < treemap::squarified(treemap::of_ints(ns), area).len(),
    ensures
        treemap::squarified(treemap::of_ints(ns), area)[j].rect.lies_in(area),
        treemap::on_screen(treemap::edges(treemap::of_ints(ns), area)[j]),
{
    let us = treemap::of_ints(ns);
    let tile = treemap::edges(us, area)[j];
    lemma_edges_inside(ns, area);
    lemma_edges(us, area);
    assert(tile.x1 <= area.left + area.width && tile.y1 <= area.top + area.height);
    assert(tile.shows());
    assert(double::rounded(treemap::bounds_of(area).x) <= tile.x0);
    lemma_rect_edges(tile);
    assert(treemap::squarified(us, area)[j].rect == tile.rect());
}

/// No cell of the area belongs to two tiles.
pub proof fn tiles_share_no_cell(ns: Seq<u64>, area: Rect, j: int, l: int)
    requires
        bounded(ns.len(), area),
        area.addressable(),
        0 <= j < l < treemap::squarified(treemap::of_ints(ns), area).len(),
    ensures
        treemap::squarified(treemap::of_ints(ns), area)[j].rect.apart_from(
            treemap::squarified(treemap::of_ints(ns), area)[l].rect,
        ),
{
    let us = treemap::of_ints(ns);
    let tiles = treemap::edges(us, area);
    tiles_stay_inside(ns, area, j);
    tiles_stay_inside(ns, area, l);
    lemma_edges(us, area);
    assert(tiles[j].shows() && tiles[l].shows());
    assert(treemap::apart(tiles[j], tiles[l]));
    lemma_rect_edges(tiles[j]);
    lemma_rect_edges(tiles[l]);
    assert(treemap::squarified(us, area)[j].rect == tiles[j].rect());
    assert(treemap::squarified(us, area)[l].rect == tiles[l].rect());
}

} // verus!
