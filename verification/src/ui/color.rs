//! Lighter and darker colours, and text that can be read on them.

use vstd::prelude::*;

use crate::double;
use crate::double::Double;
use crate::grid::Color;

verus! {

/// The integer part of a number, at most 255.
pub open spec fn byte_of(x: Double) -> u8 {
    let n = double::truncated(x);
    if n > 255 {
        255
    } else {
        n as u8
    }
}

/// A number, or one where it is above.
pub open spec fn up_to_one(x: Double) -> Double {
    if double::less(double::of_int(1), x) {
        double::of_int(1)
    } else {
        x
    }
}

/// What a number leaves of one, or nothing where it is above.
pub open spec fn rest_of_one(x: Double) -> Double {
    if double::less(double::of_int(1), x) {
        double::zero()
    } else {
        double::difference_of(double::of_int(1), x)
    }
}

/// A channel moved towards 255 by a fraction of the way.
pub open spec fn raised(v: u8, f: Double) -> u8 {
    byte_of(
        double::sum_of(
            double::of_int(v as nat),
            double::product_of(
                double::difference_of(double::of_int(255), double::of_int(v as nat)),
                f,
            ),
        ),
    )
}

/// A channel scaled by a fraction.
pub open spec fn lowered(v: u8, f: Double) -> u8 {
    byte_of(double::product_of(double::of_int(v as nat), f))
}

/// A colour moved towards white. Only RGB colours change.
pub open spec fn brightened(c: Color, amount: Double) -> Color {
    match c {
        Color::Rgb { r, g, b } => {
            let f = up_to_one(amount);
            Color::Rgb { r: raised(r, f), g: raised(g, f), b: raised(b, f) }
        },
        _ => c,
    }
}

/// A colour moved towards black. Only RGB colours change.
pub open spec fn darkened(c: Color, amount: Double) -> Color {
    match c {
        Color::Rgb { r, g, b } => {
            let f = rest_of_one(amount);
            Color::Rgb { r: lowered(r, f), g: lowered(g, f), b: lowered(b, f) }
        },
        _ => c,
    }
}

/// How bright an RGB colour looks.
pub open spec fn luminance(r: u8, g: u8, b: u8) -> Double {
    double::sum_of(
        double::sum_of(
            double::product_of(double::fraction(2126, 10000), double::of_int(r as nat)),
            double::product_of(double::fraction(7152, 10000), double::of_int(g as nat)),
        ),
        double::product_of(double::fraction(722, 10000), double::of_int(b as nat)),
    )
}

/// Black on bright RGB colours, white on all others.
pub open spec fn readable_on(bg: Color) -> Color {
    match bg {
        Color::Rgb { r, g, b } => if double::less(double::of_int(140), luminance(r, g, b)) {
            Color::Black
        } else {
            Color::White
        },
        _ => Color::White,
    }
}

/// The colour of a tile: brighter where it is selected.
pub open spec fn shown(base: Color, selected: bool) -> Color {
    if selected {
        brightened(base, double::fraction(4, 10))
    } else {
        base
    }
}

fn byte(x: Double) -> (r: u8)
    requires
        x.wf(),
    ensures
        r == byte_of(x),
{
    let n = x.trunc();
    if n > 255 {
        255
    } else {
        n as u8
    }
}

fn raise(v: u8, f: Double) -> (r: u8)
    requires
        f.wf(),
    ensures
        r == raised(v, f),
{
    let x = Double::of(v as u64);
    proof {
        double::lemma_of_int_monotone(v as nat, 255);
    }
    byte(x.plus(Double::of(255).minus(x).times(f)))
}

fn lower(v: u8, f: Double) -> (r: u8)
    requires
        f.wf(),
    ensures
        r == lowered(v, f),
{
    byte(Double::of(v as u64).times(f))
}

/// Moves a colour towards white.
pub fn brighten(c: Color, amount: Double) -> (r: Color)
    requires
        amount.wf(),
    ensures
        r == brightened(c, amount),
{
    match c {
        Color::Rgb { r, g, b } => {
            let one = Double::of(1);
            let f = if one.lt(amount) {
                one
            } else {
                amount
            };
            Color::Rgb { r: raise(r, f), g: raise(g, f), b: raise(b, f) }
        },
        _ => c,
    }
}

/// Moves a colour towards black.
pub fn darken(c: Color, amount: Double) -> (r: Color)
    requires
        amount.wf(),
    ensures
        r == darkened(c, amount),
{
    match c {
        Color::Rgb { r, g, b } => {
            let one = Double::of(1);
            let f = if one.lt(amount) {
                Double::zero()
            } else {
                proof {
                    double::lemma_of_within(1);
                }
                one.minus(amount)
            };
            Color::Rgb { r: lower(r, f), g: lower(g, f), b: lower(b, f) }
        },
        _ => c,
    }
}

/// The colour in which text can be read on `bg`.
pub fn readable_fg(bg: Color) -> (r: Color)
    ensures
        r == readable_on(bg),
{
    match bg {
        Color::Rgb { r, g, b } => {
            let x = Double::fraction(2126, 10000).times(Double::of(r as u64));
            let y = Double::fraction(7152, 10000).times(Double::of(g as u64));
            let z = Double::fraction(722, 10000).times(Double::of(b as u64));
            if Double::of(140).lt(x.plus(y).plus(z)) {
                Color::Black
            } else {
                Color::White
            }
        },
        _ => Color::White,
    }
}

/// A colour moved towards white by a pulse, if there is one.
pub open spec fn pulsing(c: Color, pulse: Double) -> Color {
    if double::less(double::zero(), pulse) {
        brightened(c, pulse)
    } else {
        c
    }
}

/// Without a pulse a colour stays.
pub proof fn lemma_no_pulse(c: Color)
    ensures
        pulsing(c, double::zero()) == c,
{
    reveal(double::less);
}

/// The colour of a tile. A tile that is selected is brighter, and so is one
/// that pulses.
pub fn tile_color(base: Color, selected: bool, pulse: Double) -> (r: Color)
    requires
        pulse.wf(),
    ensures
        r == pulsing(shown(base, selected), pulse),
{
    let c = if selected {
        brighten(base, Double::fraction(4, 10))
    } else {
        base
    };
    if Double::zero().lt(pulse) {
        brighten(c, pulse)
    } else {
        c
    }
}

/// An integer part of a number between two integers.
proof fn lemma_byte(x: Double, lo: nat, hi: nat)
    requires
        x is Finite,
        lo * double::one_units() <= x.units() <= hi * double::one_units(),
        hi <= 255,
    ensures
        lo <= byte_of(x) <= hi,
        byte_of(x) * double::one_units() <= x.units(),
        x.units() < (byte_of(x) + 1) * double::one_units(),
{
    reveal(double::truncated);
    double::lemma_one_positive();
    let one = double::one_units() as int;
    let u = x.units() as int;
    vstd::arithmetic::div_mod::lemma_fundamental_div_mod(u, one);
    let n = u / one;
    let r = u % one;
    assert(lo <= n <= hi) by (nonlinear_arith)
        requires
            u == one * n + r,
            0 <= r < one,
            lo * one <= u <= hi * one,
    ;
    assert(n * one <= u < (n + 1) * one) by (nonlinear_arith)
        requires
            u == one * n + r,
            0 <= r < one,
    ;
}

/// A small integer times a fraction, rounded.
proof fn lemma_scaled(v: nat, f: Double)
    requires
        v <= 255,
        f is Finite,
        f.units() <= double::one_units(),
    ensures
        ({
            let q = double::product_of(double::of_int(v), f);
            &&& q is Finite
            &&& q.units() <= v * double::one_units()
            &&& q.units() <= v * f.units() + double::one_units() / 4
            &&& v * f.units() <= q.units() + double::one_units() / 4
        }),
{
    let one = double::one_units();
    let e = v * f.units();
    double::lemma_one_positive();
    double::lemma_one_is_many();
    double::lemma_of_int_exact(v);
    reveal(double::product_of);
    assert((v * one) * f.units() == e * one && 1 * one == one) by (nonlinear_arith)
        requires
            e == v * f.units(),
    ;
    double::lemma_nearest_scale(e, 1, one);
    let q = double::product_of(double::of_int(v), f);
    assert(q == double::nearest(e, 1));
    assert(e <= v * one) by (nonlinear_arith)
        requires
            e == v * f.units(),
            f.units() <= one,
    ;
    assert(v * one <= 255 * one) by (nonlinear_arith)
        requires
            v <= 255,
    ;
    double::lemma_nearest_monotone(e, v * one, 1);
    reveal(double::of_int);
    reveal(double::less);
    assert(q is Finite);
    double::lemma_nearest_error(e, 1);
}

/// A scaled channel is never more than it was, and is off by less than one step.
pub proof fn channels_are_scaled(v: u8, f: Double)
    requires
        f is Finite,
        f.units() <= double::one_units(),
    ensures
        lowered(v, f) <= v,
        lowered(v, f) * double::one_units() <= v * f.units() + double::one_units(),
        v * f.units() <= (lowered(v, f) + 2) * double::one_units(),
{
    lemma_scaled(v as nat, f);
    let q = double::product_of(double::of_int(v as nat), f);
    assert(0 * double::one_units() == 0) by (nonlinear_arith);
    lemma_byte(q, 0, v as nat);
    let n = lowered(v, f) as int;
    assert((n + 2) * double::one_units() == (n + 1) * double::one_units() + double::one_units())
        by (nonlinear_arith);
}

/// A raised channel is never less than it was, and is off by less than one step.
pub proof fn channels_are_raised(v: u8, f: Double)
    requires
        f is Finite,
        f.units() <= double::one_units(),
    ensures
        v <= raised(v, f),
        raised(v, f) * double::one_units() <= v * double::one_units() + (255 - v) * f.units()
            + double::one_units(),
        v * double::one_units() + (255 - v) * f.units() <= (raised(v, f) + 2)
            * double::one_units(),
{
    let one = double::one_units();
    let w = (255 - v) as nat;
    double::lemma_one_positive();
    double::lemma_one_is_many();
    double::lemma_of_int_exact(v as nat);
    double::lemma_of_int_exact(255);
    double::lemma_of_int_exact(w);
    let d = double::difference_of(double::of_int(255), double::of_int(v as nat));
    assert(255 * one - v * one == w * one) by (nonlinear_arith)
        requires
            w == 255 - v,
    ;
    assert(d == double::of_int(w)) by {
        reveal(double::difference_of);
        reveal(double::of_int);
    }
    lemma_scaled(w, f);
    let q = double::product_of(d, f);
    let e = (v * one + q.units()) as nat;
    let s = double::sum_of(double::of_int(v as nat), q);
    assert(s == double::nearest(e, 1)) by {
        reveal(double::sum_of);
    }
    assert(v * one <= e <= 255 * one);
    double::lemma_nearest_monotone((v * one) as nat, e, 1);
    double::lemma_nearest_monotone(e, (255 * one) as nat, 1);
    assert(s is Finite && v * one <= s.units() <= 255 * one) by {
        reveal(double::of_int);
        reveal(double::less);
    }
    double::lemma_nearest_error(e, 1);
    lemma_byte(s, v as nat, 255);
    let n = raised(v, f) as int;
    assert((n + 2) * one == (n + 1) * one + one) by (nonlinear_arith);
}

/// A darker colour has no channel that is brighter than before, and the darker
/// it is to be, the less is left of each: all at zero, nothing at one.
pub proof fn darkening_never_brightens(r: u8, g: u8, b: u8, amount: Double)
    requires
        amount is Finite,
    ensures
        ({
            let one = double::one_units() as int;
            let left = if amount.units() < one {
                one - amount.units()
            } else {
                0
            };
            &&& darkened(Color::Rgb { r, g, b }, amount) matches Color::Rgb { r: x, g: y, b: z }
            &&& x <= r && y <= g && z <= b
            &&& x * one <= r * left + 2 * one && r * left <= (x + 3) * one
            &&& y * one <= g * left + 2 * one && g * left <= (y + 3) * one
            &&& z * one <= b * left + 2 * one && b * left <= (z + 3) * one
        }),
{
    let one = double::one_units();
    double::lemma_one_is_many();
    double::lemma_of_int_exact(1);
    let f = rest_of_one(amount);
    let left = if amount.units() < one {
        one - amount.units()
    } else {
        0
    };
    reveal(double::less);
    if double::less(double::of_int(1), amount) {
        assert(double::zero().units() == 0) by {
            assert(0 * vstd::arithmetic::power2::pow2(0) == 0) by (nonlinear_arith);
        }
    } else {
        double::lemma_of_within(1);
        double::lemma_difference_error(double::of_int(1), amount);
        double::lemma_difference_finite(double::of_int(1), amount);
    }
    assert(f is Finite && f.units() <= one);
    assert(f.units() <= left + one / 1000 && left <= f.units() + one / 1000);
    channels_are_scaled(r, f);
    channels_are_scaled(g, f);
    channels_are_scaled(b, f);
    lemma_left(r, lowered(r, f), f.units() as int, left as int, one as int);
    lemma_left(g, lowered(g, f), f.units() as int, left as int, one as int);
    lemma_left(b, lowered(b, f), f.units() as int, left as int, one as int);
}

proof fn lemma_left(v: u8, x: u8, f: int, left: int, one: int)
    requires
        one > 0,
        x * one <= v * f + one,
        v * f <= (x + 2) * one,
        f <= left + one / 1000,
        left <= f + one / 1000,
    ensures
        x * one <= v * left + 2 * one,
        v * left <= (x + 3) * one,
{
    let t = one / 1000;
    assert(v * f <= v * left + v * t && v * left <= v * f + v * t && v * t <= 255 * t)
        by (nonlinear_arith)
        requires
            f <= left + t,
            left <= f + t,
            t >= 0,
            0 <= v <= 255,
    ;
    assert((x + 3) * one == (x + 2) * one + one) by (nonlinear_arith);
}

/// A brighter colour has no channel that is darker than before, and each has
/// gone that part of its way to white.
pub proof fn brightening_never_darkens(r: u8, g: u8, b: u8, amount: Double)
    requires
        amount is Finite,
    ensures
        ({
            let one = double::one_units() as int;
            let way = if amount.units() < one {
                amount.units() as int
            } else {
                one
            };
            &&& brightened(Color::Rgb { r, g, b }, amount) matches Color::Rgb { r: x, g: y, b: z }
            &&& x >= r && y >= g && z >= b
            &&& x * one <= r * one + (255 - r) * way + one && r * one + (255 - r) * way <= (x + 2)
                * one
            &&& y * one <= g * one + (255 - g) * way + one && g * one + (255 - g) * way <= (y + 2)
                * one
            &&& z * one <= b * one + (255 - b) * way + one && b * one + (255 - b) * way <= (z + 2)
                * one
        }),
{
    double::lemma_one_is_many();
    double::lemma_of_int_exact(1);
    reveal(double::less);
    let f = up_to_one(amount);
    channels_are_raised(r, f);
    channels_are_raised(g, f);
    channels_are_raised(b, f);
}

/// Colours that are not RGB stay as they are.
pub proof fn other_colours_stay(c: Color, amount: Double)
    requires
        !(c is Rgb),
    ensures
        darkened(c, amount) == c,
        brightened(c, amount) == c,
        readable_on(c) == Color::White,
{
}

/// So many ten-thousandths are near the number that stands for them.
pub proof fn lemma_parts(n: nat)
    requires
        n <= 10000,
    ensures
        ({
            let f = double::fraction(n, 10000);
            let one = double::one_units();
            &&& f is Finite
            &&& f.units() <= one
            &&& 10000 * f.units() <= n * one + one / 1_000_000_000
            &&& n * one <= 10000 * f.units() + one / 1_000_000_000
        }),
{
    let one = double::one_units();
    double::lemma_one_is_many();
    let f = double::fraction(n, 10000);
    let e = n * one;
    assert(e <= 10000 * one) by (nonlinear_arith)
        requires
            e == n * one,
            n <= 10000,
    ;
    double::lemma_nearest_monotone(e, 10000 * one, 10000);
    double::lemma_nearest_scale(one, 1, 10000);
    double::lemma_of_int_exact(1);
    assert(f is Finite && f.units() <= one) by {
        reveal(double::of_int);
        reveal(double::less);
    }
    double::lemma_nearest_error(e, 10000);
}

/// So many ten-thousandths of a small number.
pub proof fn lemma_share(n: nat, v: u8)
    requires
        n <= 10000,
    ensures
        ({
            let q = double::product_of(double::fraction(n, 10000), double::of_int(v as nat));
            let one = double::one_units();
            &&& q is Finite
            &&& 100000 * q.units() <= (10 * n * v) * one + one
            &&& (10 * n * v) * one <= 100000 * q.units() + one
            &&& q.units() <= 255 * one
        }),
{
    let one = double::one_units();
    double::lemma_one_positive();
    double::lemma_one_is_many();
    let f = double::fraction(n, 10000);
    let e = n * one;
    lemma_parts(n);
    let u = f.units();
    lemma_commuted(f, v as nat);
    let q = double::product_of(f, double::of_int(v as nat));
    let w = v * u;
    double::lemma_nearest_error(w as nat, 1);
    assert(w <= 255 * one) by (nonlinear_arith)
        requires
            w == v * u,
            0 <= v <= 255,
            u <= one,
    ;
    let t = (one / 1_000_000_000) as int;
    let nv = (10 * n * v) as int;
    assert(100000 * w <= nv * one + 2550 * t && nv * one <= 100000 * w + 2550 * t)
        by (nonlinear_arith)
        requires
            w == v * u,
            nv == 10 * n * v,
            e == n * one,
            10000 * u <= e + t,
            e <= 10000 * u + t,
            0 <= v <= 255,
            t >= 0,
    {
        assert(v * (10000 * u) <= v * (e + t) && v * e <= v * (10000 * u + t));
        assert(v * (10000 * u) == 10000 * w);
        assert(v * (e + t) == v * e + v * t);
        assert(v * (10000 * u + t) == 10000 * w + v * t);
        assert(v * t <= 255 * t);
        assert(nv * one == 10 * (v * e)) by {
            assert((10 * n * v) * one == 10 * (v * (n * one)));
        }
    }
}

proof fn lemma_commuted(f: Double, v: nat)
    requires
        v <= 255,
        f is Finite,
        f.units() <= double::one_units(),
    ensures
        double::product_of(f, double::of_int(v)) == double::nearest(v * f.units(), 1),
        double::product_of(f, double::of_int(v)) is Finite,
        double::product_of(f, double::of_int(v)).units() <= 255 * double::one_units(),
{
    let one = double::one_units();
    double::lemma_of_int_exact(v);
    double::lemma_one_positive();
    lemma_scaled(v, f);
    assert(f.units() * (v * one) == (v * one) * f.units()) by (nonlinear_arith);
    assert((v * one) * f.units() == (v * f.units()) * one && 1 * one == one) by (nonlinear_arith);
    assert(v * one <= 255 * one) by (nonlinear_arith)
        requires
            v <= 255,
    ;
    double::lemma_nearest_scale(v * f.units(), 1, one);
    reveal(double::product_of);
}

/// Text is black where 0.2126 of the red, 0.7152 of the green and 0.0722 of the
/// blue are more than 140, and white where they are less.
pub proof fn text_is_black_on_bright_colours(r: u8, g: u8, b: u8)
    ensures
        2126 * r + 7152 * g + 722 * b > 1_400_000 ==> readable_on(Color::Rgb { r, g, b })
            == Color::Black,
        2126 * r + 7152 * g + 722 * b < 1_400_000 ==> readable_on(Color::Rgb { r, g, b })
            == Color::White,
{
    let one = double::one_units();
    double::lemma_one_is_many();
    lemma_share(2126, r);
    lemma_share(7152, g);
    lemma_share(722, b);
    let x = double::product_of(double::fraction(2126, 10000), double::of_int(r as nat));
    let y = double::product_of(double::fraction(7152, 10000), double::of_int(g as nat));
    let z = double::product_of(double::fraction(722, 10000), double::of_int(b as nat));
    let xy = double::sum_of(x, y);
    let all = double::sum_of(xy, z);
    lemma_small_sum(x, y, 510);
    lemma_small_sum(xy, z, 1000);
    double::lemma_of_int_exact(140);
    reveal(double::less);
    let w = 2126 * r + 7152 * g + 722 * b;
    assert((10 * 2126 * r) * one + (10 * 7152 * g) * one + (10 * 722 * b) * one == 10 * w * one)
        by (nonlinear_arith)
        requires
            w == 2126 * r + 7152 * g + 722 * b,
    ;
    assert(100000 * all.units() <= 10 * w * one + 4 * one);
    assert(10 * w * one <= 100000 * all.units() + 4 * one);
    if w > 1_400_000 {
        assert(10 * w * one >= 14_000_010 * one) by (nonlinear_arith)
            requires
                w >= 1_400_001,
                one >= 0,
        ;
    }
    if w < 1_400_000 {
        assert(10 * w * one <= 13_999_990 * one) by (nonlinear_arith)
            requires
                w <= 1_399_999,
                one >= 0,
        ;
    }
}

/// A small sum is near its parts.
pub proof fn lemma_small_sum(x: Double, y: Double, k: nat)
    requires
        x is Finite,
        y is Finite,
        x.units() + y.units() <= k * double::one_units(),
        k <= 1000,
    ensures
        ({
            let s = double::sum_of(x, y);
            let e = x.units() + y.units();
            &&& s is Finite
            &&& s.units() <= k * double::one_units()
            &&& s.units() <= e + double::one_units() / 1_000_000
            &&& e <= s.units() + double::one_units() / 1_000_000
        }),
{
    let one = double::one_units();
    double::lemma_one_is_many();
    let e = x.units() + y.units();
    double::lemma_of_int_exact(k);
    double::lemma_nearest_monotone(e, k * one, 1);
    reveal(double::sum_of);
    reveal(double::of_int);
    reveal(double::less);
    assert(k * one <= 1000 * one) by (nonlinear_arith)
        requires
            k <= 1000,
    ;
    double::lemma_nearest_error(e, 1);
}

} // verus!
