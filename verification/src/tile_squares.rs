//! Equal values in an area that is made of equal squares get those squares.

use vstd::arithmetic::power2::*;
use vstd::prelude::*;

use crate::double;
use crate::double::{Double, MANT_END, MANT_MIN};
use crate::grid::Rect;
use crate::order;
use crate::tile_bounds;
use crate::tile_rows::{lemma_quotient_falls, lemma_quotient_rises};
use crate::treemap;
use crate::treemap::{FRect, Placed};

verus! {

// ── integers are computed with as they are ──────────────────────────────────

proof fn lemma_int(n: nat)
    requires
        n < MANT_END,
    ensures
        double::of_int(n) is Finite,
        double::of_int(n).wf(),
        double::of_int(n).units() == n * double::one_units(),
        n > 0 ==> double::of_int(n).units() > 0,
        double::one_units() > 0,
{
    double::lemma_of_int_exact(n);
    double::lemma_of_within(n as u64);
    lemma_pow2_pos(1074);
    let p = double::one_units();
    assert(n > 0 ==> n * p > 0) by (nonlinear_arith)
        requires
            p > 0,
    ;
}

proof fn lemma_zero_int()
    ensures
        double::zero() == double::of_int(0),
        double::zero().units() == 0,
{
    reveal(double::of_int);
    assert(0 * pow2(0) == 0) by (nonlinear_arith);
    let p = double::one_units();
    assert(0 * p == 0) by (nonlinear_arith);
    double::lemma_nearest_exact(double::zero());
}

proof fn lemma_int_sum(a: nat, b: nat)
    requires
        a < MANT_END,
        b < MANT_END,
    ensures
        double::sum_of(double::of_int(a), double::of_int(b)) == double::of_int(a + b),
{
    lemma_int(a);
    lemma_int(b);
    reveal(double::sum_of);
    reveal(double::of_int);
    let p = double::one_units();
    assert(a * p + b * p == (a + b) * p) by (nonlinear_arith);
}

proof fn lemma_int_difference(a: nat, b: nat)
    requires
        b <= a < MANT_END,
    ensures
        double::difference_of(double::of_int(a), double::of_int(b)) == double::of_int(
            (a - b) as nat,
        ),
{
    lemma_int(a);
    lemma_int(b);
    reveal(double::difference_of);
    reveal(double::of_int);
    let p = double::one_units();
    assert(a * p - b * p == (a - b) * p) by (nonlinear_arith);
}

proof fn lemma_int_product(a: nat, b: nat)
    requires
        a < MANT_END,
        b < MANT_END,
    ensures
        double::product_of(double::of_int(a), double::of_int(b)) == double::of_int(a * b),
{
    lemma_int(a);
    lemma_int(b);
    let p = double::one_units();
    let x = double::of_int(a);
    let y = double::of_int(b);
    assert(x.units() * y.units() == ((a * b) * p) * p) by (nonlinear_arith)
        requires
            x.units() == a * p,
            y.units() == b * p,
    ;
    double::lemma_nearest_scale((a * b) * p, 1, p);
    assert(1 * p == p);
    reveal(double::product_of);
    reveal(double::of_int);
}

/// Where `a` is `q` times `b`, it has that quotient.
proof fn lemma_int_quotient(a: nat, b: nat, q: nat)
    requires
        a < MANT_END,
        0 < b < MANT_END,
        a == q * b,
    ensures
        double::quotient_of(double::of_int(a), double::of_int(b)) == double::of_int(q),
{
    lemma_int(a);
    lemma_int(b);
    lemma_zero_int();
    let p = double::one_units();
    let x = double::of_int(a);
    let y = double::of_int(b);
    let d = b * p;
    assert(x.units() * p == (q * p) * d) by (nonlinear_arith)
        requires
            x.units() == a * p,
            a == q * b,
            d == b * p,
    ;
    double::lemma_nearest_scale(q * p, 1, d);
    assert(1 * d == d);
    reveal(double::quotient_of);
    reveal(double::of_int);
}

proof fn lemma_int_order(a: nat, b: nat)
    requires
        a < MANT_END,
        b < MANT_END,
    ensures
        double::less(double::of_int(a), double::of_int(b)) <==> a < b,
        double::at_most(double::of_int(a), double::of_int(b)) <==> a <= b,
{
    lemma_int(a);
    lemma_int(b);
    reveal(double::less);
    let p = double::one_units();
    assert(a * p < b * p <==> a < b) by (nonlinear_arith)
        requires
            p > 0,
    ;
    assert(b * p < a * p <==> b < a) by (nonlinear_arith)
        requires
            p > 0,
    ;
}

proof fn lemma_int_rounded(n: nat)
    requires
        n <= 0x2_0000,
    ensures
        double::rounded(double::of_int(n)) == n,
{
    lemma_int(n);
    let p = double::one_units();
    assert(2 * (n * p) < (2 * n + 1) * p && 2 * (n * p) >= (2 * n - 1) * p) by (nonlinear_arith)
        requires
            p > 0,
    ;
    tile_bounds::lemma_rounds_down(double::of_int(n), n as int);
    tile_bounds::lemma_rounds_up(double::of_int(n), n as int);
}

// ── equal values ────────────────────────────────────────────────────────────

/// Whether all values are the integer `a`.
pub open spec fn all_are(vs: Seq<Double>, a: nat) -> bool {
    forall|k: int| 0 <= k < vs.len() ==> #[trigger] vs[k] == double::of_int(a)
}

proof fn lemma_equal_total(vs: Seq<Double>, a: nat, i: int, j: int)
    requires
        0 <= i <= j <= vs.len(),
        all_are(vs, a),
        (j - i) * a < MANT_END,
    ensures
        treemap::total(vs, i, j) == double::of_int(((j - i) * a) as nat),
        (j - i) * a >= 0,
    decreases j - i,
{
    lemma_zero_int();
    let k = j - i;
    if k > 0 {
        assert(k * a == (k - 1) * a + a && (k - 1) * a >= 0) by (nonlinear_arith)
            requires
                k >= 1,
        ;
        lemma_equal_total(vs, a, i, j - 1);
        lemma_int_sum(((k - 1) * a) as nat, a);
        assert(vs[j - 1] == double::of_int(a));
    } else {
        assert(k * a == 0) by (nonlinear_arith)
            requires
                k == 0,
        ;
    }
}

proof fn lemma_equal_extremes(vs: Seq<Double>, a: nat, i: int, j: int)
    requires
        0 <= i < j <= vs.len(),
        all_are(vs, a),
    ensures
        treemap::largest(vs, i, j) == double::of_int(a),
        treemap::smallest(vs, i, j) == double::of_int(a),
    decreases j - i,
{
    assert(vs[i] == double::of_int(a));
    if j > i + 1 {
        lemma_equal_extremes(vs, a, i, j - 1);
        assert(vs[j - 1] == double::of_int(a));
    }
}

/// The square of `k` areas.
pub open spec fn square_of(k: nat, a: nat) -> nat {
    (k * a) * (k * a)
}

proof fn lemma_square(k: nat, a: nat)
    requires
        0 < k * a <= 0xffff_ffff,
    ensures
        double::of_int(square_of(k, a)) is Finite,
        double::of_int(square_of(k, a)).wf(),
        double::of_int(square_of(k, a)).units() > 0,
        0 < square_of(k, a) <= 0xffff_fffe_0000_0001,
        double::product_of(double::of_int(k * a), double::of_int(k * a)) == double::of_int(
            square_of(k, a),
        ),
{
    let n = k * a;
    assert(0 < n * n <= 0xffff_fffe_0000_0001) by (nonlinear_arith)
        requires
            0 < n <= 0xffff_ffff,
    ;
    double::lemma_of_within((n * n) as u64);
    lemma2_to64();
    lemma_pow2_pos(1074);
    let u = double::of_int(n * n).units();
    assert(u * pow2(0) == u) by (nonlinear_arith)
        requires
            pow2(0) == 1,
    ;
    lemma_int_product(n, n);
}

/// The worst aspect of `k` tiles of `a = c * c` sub-cells along a side of `m * c`.
proof fn lemma_equal_ratio(vs: Seq<Double>, c: nat, m: nat, i: int, k: nat)
    requires
        0 < c <= 0xffff,
        0 < m * c <= 0xffff,
        0 < k,
        k * (c * c) <= 0xffff_ffff,
        0 < m * (c * c) <= 0xffff_ffff,
        0 <= i,
        i + k <= vs.len(),
        all_are(vs, c * c),
    ensures
        ({
            let x = double::of_int(square_of(m, c * c));
            let y = double::of_int(square_of(k, c * c));
            treemap::row_ratio(vs, i, i + k, double::of_int(m * c)) == double::larger(
                double::quotient_of(x, y),
                double::quotient_of(y, x),
            )
        }),
{
    let a = c * c;
    let s = m * c;
    assert(0 < a <= 0xfffe_0001) by (nonlinear_arith)
        requires
            0 < c <= 0xffff,
            a == c * c,
    ;
    assert(0 < k * a) by (nonlinear_arith)
        requires
            0 < k,
            0 < a,
    ;
    lemma_equal_total(vs, a, i, i + k);
    lemma_equal_extremes(vs, a, i, i + k);
    lemma_square(k, a);
    lemma_int_product(s, s);
    assert(s * s <= 0xfffe_0001) by (nonlinear_arith)
        requires
            0 < s <= 0xffff,
    ;
    lemma_int_product(s * s, a);
    assert((s * s) * a == square_of(m, a)) by (nonlinear_arith)
        requires
            s == m * c,
            a == c * c,
            square_of(m, a) == (m * a) * (m * a),
    ;
    lemma_zero_int();
    lemma_int_order(k * a, 0);
}

/// Up to a full side each further tile makes the row better.
proof fn lemma_better(a: nat, m: nat, k: nat)
    requires
        0 < a,
        0 < k < m,
        m * a <= 0xffff_ffff,
    ensures
        ({
            let x = double::of_int(square_of(m, a));
            let y = double::of_int(square_of(k, a));
            let z = double::of_int(square_of(k + 1, a));
            double::at_most(
                double::larger(double::quotient_of(x, z), double::quotient_of(z, x)),
                double::larger(double::quotient_of(x, y), double::quotient_of(y, x)),
            )
        }),
{
    let x = double::of_int(square_of(m, a));
    let y = double::of_int(square_of(k, a));
    let z = double::of_int(square_of(k + 1, a));
    assert(0 < k * a <= (k + 1) * a <= m * a) by (nonlinear_arith)
        requires
            0 < k < m,
            0 < a,
    ;
    lemma_square(k, a);
    lemma_square(k + 1, a);
    lemma_square(m, a);
    let u = k * a;
    let v = (k + 1) * a;
    let w = m * a;
    assert(u * u <= v * v <= w * w) by (nonlinear_arith)
        requires
            0 <= u <= v <= w,
    ;
    double::lemma_of_int_monotone(u * u, v * v);
    double::lemma_of_int_monotone(v * v, w * w);
    reveal(double::less);
    lemma_quotient_falls(x, y, z);
    lemma_quotient_rises(z, x, x);
    lemma_quotient_falls(x, y, x);
    lemma_quotient_rises(y, x, x);
}

/// One tile more than a full side makes the row worse.
proof fn lemma_no_better(a: nat, m: nat)
    requires
        0 < a,
        0 < m <= 0xffff,
        (m + 1) * a <= 0xffff_ffff,
    ensures
        ({
            let x = double::of_int(square_of(m, a));
            let z = double::of_int(square_of(m + 1, a));
            !double::at_most(
                double::larger(double::quotient_of(x, z), double::quotient_of(z, x)),
                double::larger(double::quotient_of(x, x), double::quotient_of(x, x)),
            )
        }),
{
    let x = double::of_int(square_of(m, a));
    let z = double::of_int(square_of(m + 1, a));
    let p = double::one_units();
    assert(0 < m * a <= (m + 1) * a) by (nonlinear_arith)
        requires
            0 < m,
            0 < a,
    ;
    lemma_square(m, a);
    lemma_square(m + 1, a);
    lemma_zero_int();
    tile_bounds::lemma_speck();
    let u = x.units();
    let w = z.units();
    let na = square_of(m, a) * p;
    let nb = square_of(m + 1, a) * p;
    // How far apart the squares are.
    let d = m * a;
    assert(0x1_0000 * square_of(m + 1, a) >= 0x1_0002 * square_of(m, a)) by (nonlinear_arith)
        requires
            square_of(m + 1, a) == ((m + 1) * a) * ((m + 1) * a),
            square_of(m, a) == (m * a) * (m * a),
            0 < m <= 0xffff,
            0 < a,
    {
        assert(((m + 1) * a) * ((m + 1) * a) == (m * m + 2 * m + 1) * (a * a));
        assert((m * a) * (m * a) == (m * m) * (a * a));
        assert(0x1_0000 * (m * m + 2 * m + 1) >= 0x1_0002 * (m * m)) by {
            assert(0x1_0000 * (2 * m) >= 2 * (m * m));
        }
        assert((0x1_0000 * (m * m + 2 * m + 1)) * (a * a) >= (0x1_0002 * (m * m)) * (a * a)) by {
            assert(a * a >= 0);
        }
    }
    let sa = square_of(m, a);
    let sb = square_of(m + 1, a);
    assert(0x1_0000 * nb >= 0x1_0002 * na) by (nonlinear_arith)
        requires
            0x1_0000 * sb >= 0x1_0002 * sa,
            nb == sb * p,
            na == sa * p,
            p >= 0,
    ;
    assert(na >= p) by (nonlinear_arith)
        requires
            sa >= 1,
            na == sa * p,
    ;
    reveal(double::of_int);
    double::lemma_nearest_error(na, 1);
    double::lemma_nearest_error(nb, 1);
    assert(u * 1 == u && w * 1 == w);
    assert(MANT_END * u <= MANT_END * na + na + MANT_MIN);
    assert(MANT_END * nb <= MANT_END * w + nb + MANT_MIN);
    assert(0x1_0000 * w >= 0x1_0001 * u);
    // The quotients.
    reveal(double::quotient_of);
    let one = double::quotient_of(x, x);
    let more = double::quotient_of(z, x);
    assert(u * p == p * u) by (nonlinear_arith);
    double::lemma_nearest_scale(p, 1, u);
    assert(1 * u == u);
    lemma_int(1);
    assert(1 * p == p);
    assert(one == double::of_int(1));
    reveal(double::less);
    if more is Finite {
        let q = more.units();
        double::lemma_nearest_error(w * p, u);
        if q <= p {
            let qu = q * u;
            let up = u * p;
            let wp = w * p;
            assert(qu <= up) by (nonlinear_arith)
                requires
                    q <= p,
                    qu == q * u,
                    up == u * p,
            ;
            assert(0x1_0000 * wp >= 0x1_0001 * up) by (nonlinear_arith)
                requires
                    0x1_0000 * w >= 0x1_0001 * u,
                    wp == w * p,
                    up == u * p,
                    p >= 0,
            ;
            assert(up >= 0x4000_0000_0000_0000_0000_0000 * u) by (nonlinear_arith)
                requires
                    p >= 0x4000_0000_0000_0000_0000_0000,
                    up == u * p,
            ;
            assert(false);
        }
    }
    double::lemma_nearest_wf(w * p, u);
    double::lemma_nearest_wf(u * p, w);
}

// ── the grid ────────────────────────────────────────────────────────────────

/// A row of equal squares along a side of `m` squares holds `m` of them.
proof fn lemma_row_of_squares(vs: Seq<Double>, c: nat, m: nat, i: int, k: nat)
    requires
        0 < c <= 0xffff,
        0 < m,
        m * c <= 0xffff,
        0 < k <= m,
        0 <= i,
        i + m <= vs.len(),
        (vs.len() - i) * (c * c) <= 0xffff_ffff,
        all_are(vs, c * c),
    ensures
        treemap::row_end(vs, i, i + k, double::of_int(m * c)) == i + m,
    decreases m - k,
{
    let a = c * c;
    let n = vs.len() - i;
    let side = double::of_int(m * c);
    assert(0 < a && 0 < m * c && m <= 0xffff) by (nonlinear_arith)
        requires
            0 < c,
            0 < m,
            a == c * c,
            m * c <= 0xffff,
    ;
    assert(0 < m * a && m * a <= n * a && k * a <= m * a) by (nonlinear_arith)
        requires
            0 < m <= n,
            k <= m,
            0 < a,
    ;
    lemma_equal_ratio(vs, c, m, i, k);
    if k < m {
        assert((k + 1) * a <= m * a) by (nonlinear_arith)
            requires
                k + 1 <= m,
                0 < a,
        ;
        lemma_equal_ratio(vs, c, m, i, k + 1);
        lemma_better(a, m, k);
        assert(i + (k + 1) == i + k + 1);
        lemma_row_of_squares(vs, c, m, i, k + 1);
    } else if i + m < vs.len() {
        assert((m + 1) * a <= n * a) by (nonlinear_arith)
            requires
                m + 1 <= n,
                0 < a,
        ;
        lemma_equal_ratio(vs, c, m, i, m + 1);
        lemma_no_better(a, m);
        assert(i + (m + 1) == i + m + 1);
    }
}

/// The square in column `u` and row `v` of the grid that starts at `x` and `y`.
pub open spec fn is_cell(t: Placed, x: int, y: int, c: int, u: int, v: int) -> bool {
    &&& t.x0 == x + u * c
    &&& t.y0 == y + v * c
    &&& t.x1 == x + u * c + c
    &&& t.y1 == y + v * c + c
}

/// Whether a tile is one of the squares of a grid.
pub open spec fn on_grid(t: Placed, x: int, y: int, c: int, p: int, q: int) -> bool {
    exists|u: int, v: int| 0 <= u < p && 0 <= v < q && #[trigger] is_cell(t, x, y, c, u, v)
}

/// A grid of `p` by `q` squares as a free area.
pub open spec fn grid_area(x: nat, y: nat, c: nat, p: nat, q: nat) -> FRect {
    FRect {
        x: double::of_int(x),
        y: double::of_int(y),
        w: double::of_int(p * c),
        h: double::of_int(q * c),
    }
}

proof fn lemma_offsets(vs: Seq<Double>, c: nat, i: int, k: nat, start: nat)
    requires
        0 < c <= 0xffff,
        0 <= i,
        i + k <= vs.len(),
        all_are(vs, c * c),
        start + k * c <= 0x2_0000,
    ensures
        treemap::offset(vs, i, i + k, double::of_int(start), double::of_int(c)) == double::of_int(
            start + k * c,
        ),
    decreases k,
{
    if k > 0 {
        let j = (k - 1) as nat;
        assert(k * c == j * c + c && c * c <= 0xfffe_0001) by (nonlinear_arith)
            requires
                k == j + 1,
                0 < c <= 0xffff,
        ;
        lemma_offsets(vs, c, i, j, start);
        lemma_int_quotient(c * c, c, c);
        lemma_int_sum(start + j * c, c);
        assert(vs[i + k - 1] == double::of_int(c * c));
        assert(i + k - 1 == i + j);
    } else {
        assert(k * c == 0) by (nonlinear_arith)
            requires
                k == 0,
        ;
    }
}

proof fn lemma_snapped_square(x: nat, y: nat, c: nat, at: usize)
    requires
        0 < c <= 0xffff,
        x + c <= 0x2_0000,
        y + c <= 0x2_0000,
    ensures
        ({
            let t = treemap::snapped(
                double::of_int(x),
                double::of_int(y),
                double::of_int(c),
                double::of_int(c),
                at,
            );
            &&& t.len() == 1
            &&& is_cell(t[0], x as int, y as int, c as int, 0, 0)
            &&& t[0].at == at
        }),
{
    lemma_int_sum(x, c);
    lemma_int_sum(y, c);
    lemma_int_rounded(x);
    lemma_int_rounded(y);
    lemma_int_rounded(x + c);
    lemma_int_rounded(y + c);
    assert(0 * c == 0) by (nonlinear_arith);
    assert((c as int) % 0x10000 == c);
}

/// The tiles of a row of squares are the squares along it.
proof fn lemma_squares_in_row(
    vs: Seq<Double>,
    c: nat,
    i: int,
    k: nat,
    x: nat,
    y: nat,
    p: nat,
    q: nat,
)
    requires
        0 < c <= 0xffff,
        0 < p,
        0 < q,
        x + p * c <= 0xffff,
        y + q * c <= 0xffff,
        0 <= i,
        k <= if p <= q { p } else { q },
        i + k <= vs.len() <= usize::MAX,
        all_are(vs, c * c),
    ensures
        ({
            let tiles = treemap::row_tiles(
                vs,
                i,
                i + k,
                grid_area(x, y, c, p, q),
                double::of_int(c),
            );
            &&& tiles.len() == k
            &&& forall|j: int|
                0 <= j < k ==> if p <= q {
                    is_cell(#[trigger] tiles[j], x as int, y as int, c as int, j, 0)
                } else {
                    is_cell(tiles[j], x as int, y as int, c as int, 0, j)
                }
        }),
    decreases k,
{
    let b = grid_area(x, y, c, p, q);
    let t = double::of_int(c);
    assert(c <= p * c && c <= q * c && p <= p * c && q <= q * c) by (nonlinear_arith)
        requires
            0 < c,
            0 < p,
            0 < q,
    ;
    lemma_int_order(p * c, q * c);
    assert(treemap::along_top(b) == (p <= q)) by {
        assert(p * c <= q * c <==> p <= q) by (nonlinear_arith)
            requires
                0 < c,
        ;
    }
    if k > 0 {
        let j = (k - 1) as nat;
        lemma_squares_in_row(vs, c, i, j, x, y, p, q);
        let before = treemap::row_tiles(vs, i, i + j, b, t);
        let now = treemap::row_tiles(vs, i, i + k, b, t);
        assert(i + k - 1 == i + j);
        assert(vs[i + j] == double::of_int(c * c));
        assert(c * c <= 0xfffe_0001) by (nonlinear_arith)
            requires
                0 < c <= 0xffff,
        ;
        lemma_int_quotient(c * c, c, c);
        let m = if p <= q {
            p
        } else {
            q
        };
        assert(0 <= j * c && j * c + c <= m * c) by (nonlinear_arith)
            requires
                j + 1 <= m,
                0 < c,
                0 <= j,
        ;
        assert(0 * c == 0) by (nonlinear_arith);
        let last = if p <= q {
            lemma_offsets(vs, c, i, j, x);
            lemma_snapped_square(x + j * c, y, c, (i + j) as usize);
            treemap::snapped(double::of_int(x + j * c), b.y, t, t, (i + j) as usize)
        } else {
            lemma_offsets(vs, c, i, j, y);
            lemma_snapped_square(x, y + j * c, c, (i + j) as usize);
            treemap::snapped(b.x, double::of_int(y + j * c), t, t, (i + j) as usize)
        };
        assert(now == before + last);
        assert forall|l: int| 0 <= l < k implies if p <= q {
            is_cell(#[trigger] now[l], x as int, y as int, c as int, l, 0)
        } else {
            is_cell(now[l], x as int, y as int, c as int, 0, l)
        } by {
            if l < j {
                assert(now[l] == before[l]);
            } else {
                assert(now[l] == last[0]);
            }
        }
    }
}

proof fn lemma_grid_shift(t: Placed, x: int, y: int, c: int, p: int, q: int, down: bool)
    requires
        on_grid(
            t,
            if down {
                x
            } else {
                x + c
            },
            if down {
                y + c
            } else {
                y
            },
            c,
            if down {
                p
            } else {
                p - 1
            },
            if down {
                q - 1
            } else {
                q
            },
        ),
    ensures
        on_grid(t, x, y, c, p, q),
{
    if down {
        let (u, v) = choose|u: int, v: int|
            0 <= u < p && 0 <= v < q - 1 && #[trigger] is_cell(t, x, y + c, c, u, v);
        assert((v + 1) * c == v * c + c) by (nonlinear_arith);
        assert(is_cell(t, x, y, c, u, v + 1));
    } else {
        let (u, v) = choose|u: int, v: int|
            0 <= u < p - 1 && 0 <= v < q && #[trigger] is_cell(t, x + c, y, c, u, v);
        assert((u + 1) * c == u * c + c) by (nonlinear_arith);
        assert(is_cell(t, x, y, c, u + 1, v));
    }
}

/// The layout of as many squares as a grid has is that grid.
#[verifier::rlimit(60)]
#[verifier::spinoff_prover]
proof fn lemma_grid(vs: Seq<Double>, c: nat, i: int, x: nat, y: nat, p: nat, q: nat)
    requires
        0 < c <= 0xffff,
        x + p * c <= 0xffff,
        y + q * c <= 0xffff,
        0 <= i,
        vs.len() <= usize::MAX,
        vs.len() - i == p * q,
        all_are(vs, c * c),
    ensures
        ({
            let tiles = treemap::laid_out(vs, i, grid_area(x, y, c, p, q));
            &&& tiles.len() == p * q
            &&& forall|j: int|
                0 <= j < tiles.len() ==> on_grid(
                    #[trigger] tiles[j],
                    x as int,
                    y as int,
                    c as int,
                    p as int,
                    q as int,
                )
        }),
    decreases p + q,
{
    let b = grid_area(x, y, c, p, q);
    let n = p * q;
    if p == 0 || q == 0 {
        assert(n == 0) by (nonlinear_arith)
            requires
                p == 0 || q == 0,
                n == p * q,
        ;
    } else {
        let a = c * c;
        let m = if p <= q {
            p
        } else {
            q
        };
        let d = if p <= q {
            q
        } else {
            p
        };
        assert(n == m * d) by (nonlinear_arith)
            requires
                n == p * q,
                (m == p && d == q) || (m == q && d == p),
        ;
        assert(m <= n && c <= m * c && m * c <= d * c && 0 < a <= 0xfffe_0001 && d <= d * c && 0
            < m * c && c <= d * c) by (nonlinear_arith)
            requires
                n == m * d,
                0 < m <= d,
                0 < c <= 0xffff,
                a == c * c,
        ;
        assert(n * a <= 0xffff_ffff) by (nonlinear_arith)
            requires
                n == m * d,
                a == c * c,
                0 < m * c <= 0xffff,
                0 < d * c <= 0xffff,
        {
            assert((m * d) * (c * c) == (m * c) * (d * c));
            assert((m * c) * (d * c) <= 0xffff * 0xffff);
        }
        assert(m * a <= n * a && 0 < m * a) by (nonlinear_arith)
            requires
                0 < m <= n,
                0 < a,
        ;
        let side = double::smaller(b.w, b.h);
        lemma_int(p * c);
        lemma_int(q * c);
        lemma_int_order(p * c, q * c);
        lemma_int_order(q * c, p * c);
        assert(p * c <= q * c <==> p <= q) by (nonlinear_arith)
            requires
                0 < c,
        ;
        assert(q * c < p * c <==> q < p) by (nonlinear_arith)
            requires
                0 < c,
        ;
        assert(side == double::of_int(m * c));
        lemma_zero_int();
        lemma_int_order(m * c, 0);
        lemma_row_of_squares(vs, c, m, i, 1);
        let e = i + m;
        lemma_equal_total(vs, a, i, e);
        let sum = double::of_int(m * a);
        lemma_int_order(m * a, 0);
        assert(m * a == c * (m * c)) by (nonlinear_arith)
            requires
                a == c * c,
        ;
        lemma_int_quotient(m * a, m * c, c);
        lemma_int_order(d * c, c);
        lemma_int(c);
        lemma_int(d * c);
        let t = treemap::thickness(b, sum);
        assert(treemap::along_top(b) == (p <= q));
        assert(t == double::of_int(c)) by {
            reveal(double::less);
        }
        lemma_squares_in_row(vs, c, i, m, x, y, p, q);
        let row = treemap::row_tiles(vs, i, e, b, t);
        let rest = treemap::after_row(b, sum);
        lemma_int_difference(d * c, c);
        let all = treemap::laid_out(vs, i, b);
        if p <= q {
            let less = (q - 1) as nat;
            assert(q * c - c == less * c && n - m == p * less && less * c >= 0) by (nonlinear_arith)
                requires
                    less == q - 1,
                    n == p * q,
                    m == p,
                    0 < q,
            ;
            lemma_int_sum(y, c);
            assert(rest == grid_area(x, y + c, c, p, less));
            lemma_grid(vs, c, e, x, y + c, p, less);
        } else {
            let less = (p - 1) as nat;
            assert(p * c - c == less * c && n - m == less * q && less * c >= 0) by (nonlinear_arith)
                requires
                    less == p - 1,
                    n == p * q,
                    m == q,
                    0 < p,
            ;
            lemma_int_sum(x, c);
            assert(rest == grid_area(x + c, y, c, less, q));
            lemma_grid(vs, c, e, x + c, y, less, q);
        }
        let later = treemap::laid_out(vs, e, rest);
        assert(all == row + later);
        assert forall|j: int| 0 <= j < all.len() implies on_grid(
            #[trigger] all[j],
            x as int,
            y as int,
            c as int,
            p as int,
            q as int,
        ) by {
            if j < row.len() {
                assert(all[j] == row[j]);
                if p <= q {
                    assert(is_cell(row[j], x as int, y as int, c as int, j, 0));
                } else {
                    assert(is_cell(row[j], x as int, y as int, c as int, 0, j));
                }
            } else {
                assert(all[j] == later[j - row.len()]);
                lemma_grid_shift(
                    all[j],
                    x as int,
                    y as int,
                    c as int,
                    p as int,
                    q as int,
                    p <= q,
                );
            }
        }
    }
}

// ── the law ─────────────────────────────────────────────────────────────────

/// So many equal values.
pub open spec fn equal_values(v: u64, n: nat) -> Seq<u64> {
    Seq::new(n, |i: int| v)
}

/// So many times a length.
pub open spec fn times(u: int, c: int) -> int {
    u * c
}

/// `p` times `q` equal values in an area of `p` by `q` squares get one of these
/// squares each.
pub proof fn equal_values_get_squares(v: u64, p: nat, q: nat, c: nat, area: Rect)
    requires
        0 < p,
        0 < q,
        0 < c,
        area.width == p * c,
        area.height == q * c,
        area.addressable(),
        p * q <= usize::MAX,
        0 < v,
        (c * c) % (v as nat) == 0,
    ensures
        ({
            let tiles = treemap::squarified(
                treemap::of_ints(equal_values(v, p * q)),
                area,
            );
            &&& tiles.len() == p * q
            &&& forall|j: int|
                0 <= j < tiles.len() ==> {
                    let r = (#[trigger] tiles[j]).rect;
                    &&& r.width == c && r.height == c
                    &&& r.lies_in(area)
                    &&& exists|u: int, w: int|
                        r.left == area.left + #[trigger] times(u, c as int) && r.top == area.top
                            + #[trigger] times(w, c as int)
                }
        }),
{
    let n = p * q;
    let ns = equal_values(v, n);
    let us = treemap::of_ints(ns);
    let a = c * c;
    let k = a / (v as nat);
    let x = area.left as nat;
    let y = area.top as nat;
    assert(a == k * (v as nat)) by {
        vstd::arithmetic::div_mod::lemma_fundamental_div_mod(a as int, v as int);
        assert(v as int * (a as int / v as int) == k * (v as nat)) by (nonlinear_arith)
            requires
                k == a as int / v as int,
        ;
    }
    assert(0 < n && 0 < a && c <= p * c) by (nonlinear_arith)
        requires
            n == p * q,
            0 < p,
            0 < q,
            0 < c,
            a == c * c,
    ;
    assert(n * a == (p * c) * (q * c)) by (nonlinear_arith)
        requires
            n == p * q,
            a == c * c,
    ;
    assert((p * c) * (q * c) <= 0xfffe_0001) by (nonlinear_arith)
        requires
            p * c <= 0xffff,
            q * c <= 0xffff,
    ;
    assert(0 < k && v <= a && a <= n * a && n * v <= n * a && 0 < n * v && k <= a)
        by (nonlinear_arith)
        requires
            a == k * (v as nat),
            0 < a,
            0 < v,
            0 < n,
    ;
    assert(all_are(us, v as nat));
    lemma_equal_total(us, v as nat, 0, n as int);
    let total = treemap::total(us, 0, n as int);
    assert(total == double::of_int(n * (v as nat)));
    lemma_zero_int();
    lemma_int_order(n * (v as nat), 0);
    assert(!treemap::nothing_to_lay_out(us, area));
    lemma_int_product(p * c, q * c);
    assert((p * c) * (q * c) == k * (n * (v as nat))) by (nonlinear_arith)
        requires
            n * a == (p * c) * (q * c),
            a == k * (v as nat),
    ;
    lemma_int_quotient((p * c) * (q * c), n * (v as nat), k);
    assert(treemap::scale_of(us, area) == double::of_int(k));
    lemma_int_product(v as nat, k);
    assert((v as nat) * k == a) by (nonlinear_arith)
        requires
            a == k * (v as nat),
    ;
    let vs = treemap::areas(us, area);
    assert(all_are(vs, a)) by {
        assert forall|i: int| 0 <= i < vs.len() implies #[trigger] vs[i] == double::of_int(a) by {
            assert(us[i] == double::of_int(v as nat));
        }
    }
    let order = order::ranking(treemap::codes(vs));
    order::lemma_ranking_exists(treemap::codes(vs));
    let sorted = treemap::picked(vs, order);
    assert(all_are(sorted, a)) by {
        assert forall|i: int| 0 <= i < sorted.len() implies #[trigger] sorted[i] == double::of_int(
            a,
        ) by {
            assert(sorted[i] == vs[order[i] as int]);
        }
    }
    lemma_grid(sorted, c, 0, x, y, p, q);
    let placed = treemap::laid_out(sorted, 0, treemap::bounds_of(area));
    assert(treemap::bounds_of(area) == grid_area(x, y, c, p, q));
    let tiles = treemap::squarified(us, area);
    assert forall|j: int| 0 <= j < tiles.len() implies {
        let r = (#[trigger] tiles[j]).rect;
        &&& r.width == c && r.height == c
        &&& r.lies_in(area)
        &&& exists|u: int, w: int|
            r.left == area.left + #[trigger] times(u, c as int) && r.top == area.top
                + #[trigger] times(w, c as int)
    } by {
        let t = placed[j];
        assert(on_grid(t, x as int, y as int, c as int, p as int, q as int));
        let (u, w) = choose|u: int, w: int|
            0 <= u < p && 0 <= w < q && #[trigger] is_cell(t, x as int, y as int, c as int, u, w);
        assert(0 <= u * c && u * c + c <= p * c && 0 <= w * c && w * c + c <= q * c)
            by (nonlinear_arith)
            requires
                0 <= u < p,
                0 <= w < q,
                0 < c,
        ;
        tile_bounds::lemma_rect_edges(t);
        let r = tiles[j].rect;
        assert(r == t.rect());
        assert(r.left == area.left + times(u, c as int) && r.top == area.top + times(
            w,
            c as int,
        ));
    }
}

} // verus!
