//! Tiles have the areas of their values: a value that is a share of the sum has
//! a tile that is this share of the area, as near as whole sub-cells allow.

use vstd::arithmetic::power2::*;
use vstd::prelude::*;

use crate::double;
use crate::double::{MANT_END, MANT_MIN};
use crate::grid::Rect;
use crate::near;
use crate::order;
use crate::tile_bounds;
use crate::treemap;

verus! {

/// How many parts in `2^53` a share of the area is off at most, before its
/// edges are moved to whole sub-cells.
pub const MOST_OFF: u64 = 0x8000_0000;

/// The number nearest to an integer, in units.
proof fn lemma_integer(n: u64)
    ensures
        double::of_int(n as nat) is Finite,
        near::near(double::of_int(n as nat).units(), n as nat * double::one_units(), 4),
{
    let p = double::one_units();
    let m = n as nat * p;
    double::lemma_of_within(n);
    tile_bounds::lemma_speck();
    if n == 0 {
        double::lemma_of_int_exact(0);
        assert(0 * p == 0) by (nonlinear_arith);
    } else {
        reveal(double::of_int);
        assert(m >= p) by (nonlinear_arith)
            requires
                n >= 1,
                m == n * p,
                p >= 0,
        ;
        near::lemma_near_rounded(m, 1);
        let u = double::of_int(n as nat).units();
        assert(u * 1 == u);
    }
}

/// The numbers nearest to integers add up to their sum, nearly.
proof fn lemma_integers(ns: Seq<u64>, j: int)
    requires
        0 <= j <= ns.len(),
    ensures
        order::sum(ns.take(j)) >= 0,
        near::near(
            tile_bounds::exact(treemap::of_ints(ns), 0, j),
            order::sum(ns.take(j)) as nat * double::one_units(),
            4,
        ),
    decreases j,
{
    let p = double::one_units();
    if j > 0 {
        let us = treemap::of_ints(ns);
        let before = order::sum(ns.take(j - 1)) as nat;
        let n = ns[j - 1] as nat;
        lemma_integers(ns, j - 1);
        lemma_integer(ns[j - 1]);
        assert(us[j - 1] == double::of_int(n));
        assert(ns.take(j).drop_last() =~= ns.take(j - 1));
        near::lemma_near_sum(
            tile_bounds::exact(us, 0, j - 1),
            before * p,
            us[j - 1].units(),
            n * p,
            4,
        );
        assert(before * p + n * p == (before + n) * p) by (nonlinear_arith);
    } else {
        assert(ns.take(0) =~= seq![]);
        assert(0 * p == 0) by (nonlinear_arith);
    }
}

/// A scaled value by its share of the sum.
proof fn lemma_share(ns: Seq<u64>, area: Rect, k: int, size: nat)
    requires
        tile_bounds::bounded(ns.len(), area),
        !treemap::nothing_to_lay_out(treemap::of_ints(ns), area),
        0 <= k < ns.len(),
        ns[k] > 0,
        near::near(
            size,
            treemap::areas(treemap::of_ints(ns), area)[k].units() * double::one_units(),
            4,
        ),
        treemap::areas(treemap::of_ints(ns), area)[k] is Finite,
    ensures
        ({
            let p = double::one_units();
            let g = (area.width * area.height) as nat * (p * p);
            near::near(size * order::sum(ns) as nat, ns[k] as nat * g, MOST_OFF as nat)
        }),
{
    let us = treemap::of_ints(ns);
    let p = double::one_units();
    let a = (area.width * area.height) as nat;
    let g = a * (p * p);
    let c = ns.len();
    let n = ns[k] as nat;
    let u = us[k].units();
    let s = treemap::scale_of(us, area).units();
    let t = treemap::total(us, 0, c as int).units();
    let v = tile_bounds::exact(us, 0, c as int);
    let x = treemap::areas(us, area)[k].units();
    let sum = order::sum(ns) as nat;
    let m = MANT_END as nat;
    tile_bounds::lemma_speck();
    tile_bounds::lemma_fair_scale(ns, area);
    lemma_integer(ns[k]);
    lemma_integers(ns, c as int);
    assert(ns.take(c as int) =~= ns);
    assert(us[k] == double::of_int(n));
    double::lemma_of_within(ns[k]);
    lemma2_to64();
    assert(u >= p) by {
        assert(u * pow2(0) == u) by (nonlinear_arith)
            requires
                pow2(0) == 1,
        ;
    }
    // The value and its area.
    let scaled = u * s;
    lemma_pow2_adds(64, 840);
    lemma_pow2_pos(840);
    assert(s >= m) by {
        let q = pow2(840);
        assert(pow2(64) * q >= pow2(64)) by (nonlinear_arith)
            requires
                q >= 1,
        ;
    }
    assert(scaled >= m * p) by (nonlinear_arith)
        requires
            u >= p,
            s >= m,
            scaled == u * s,
    ;
    assert(near::near(x * p, scaled, 4)) by {
        reveal(double::product_of);
        near::lemma_near_rounded(scaled, p);
    }
    near::lemma_near_chain(size, x * p, scaled, 4, 4);
    near::lemma_near_times(u, n * p, 4, s);
    let nps = (n * p) * s;
    near::lemma_near_chain(size, scaled, nps, 9, 4);
    // The sum and the scale.
    let pp = p * p;
    assert(pp >= 0x1_0000_0000_0000_0000_0000_0000 * (m * p)) by {
        lemma_pow2_adds(64, 64);
        lemma_pow2_adds(128, 64);
        lemma_pow2_adds(192, 882);
        lemma_pow2_pos(882);
        let q = pow2(882);
        assert(pow2(192) * q >= pow2(192)) by (nonlinear_arith)
            requires
                q >= 1,
        ;
        assert(p >= 0x1_0000_0000_0000_0000_0000_0000 * m);
        assert(pp >= 0x1_0000_0000_0000_0000_0000_0000 * (m * p)) by (nonlinear_arith)
            requires
                p >= 0x1_0000_0000_0000_0000_0000_0000 * m,
                pp == p * p,
                p >= 0,
        ;
    }
    assert(g >= pp) by (nonlinear_arith)
        requires
            a >= 1,
            g == a * pp,
            pp >= 0,
    ;
    assert(MANT_MIN * t <= g);
    near::lemma_near_from(s * t, g, 2);
    let j = 2 * c + 1;
    let cv = c * v;
    assert(j * v == 2 * cv + v) by (nonlinear_arith)
        requires
            j == 2 * c + 1,
            cv == c * v,
    ;
    assert(c * m <= 0x1000_0000 * m) by (nonlinear_arith)
        requires
            c <= 0x1000_0000,
            m >= 0,
    ;
    assert(2 * v + c >= p);
    assert(c * m <= v);
    assert(m * t <= m * v + j * v);
    assert(m * v <= m * t + j * v);
    near::lemma_near_from(t, v, j);
    near::lemma_near_times(t, v, 2 * j, s);
    near::lemma_near_weaken(s * t, s * v, 2 * j, 2 * j);
    near::lemma_near_chain(s * v, s * t, g, 2 * j, 4);
    // The share.
    let sv = s * v;
    near::lemma_near_times(size, nps, 14, v);
    near::lemma_near_times(sv, g, 2 * j + 5, n * p);
    assert(nps * v == (n * p) * sv) by (nonlinear_arith)
        requires
            nps == (n * p) * s,
            sv == s * v,
    ;
    assert(14 * (2 * j + 5) <= m);
    near::lemma_near_chain(size * v, (n * p) * sv, (n * p) * g, 14, 2 * j + 5);
    near::lemma_near_times(v, sum * p, 4, size);
    near::lemma_near_weaken(size * v, size * (sum * p), 4, 4);
    near::lemma_near_chain(size * (sum * p), size * v, (n * p) * g, 4, 2 * j + 20);
    assert(size * (sum * p) == (size * sum) * p) by (nonlinear_arith);
    assert((n * p) * g == (n * g) * p) by (nonlinear_arith);
    near::lemma_near_divide(size * sum, n * g, 2 * j + 25, p);
    near::lemma_near_weaken(size * sum, n * g, 2 * j + 25, MOST_OFF as nat);
}

/// Whether a number of sub-cells is `w` units, but for a sub-cell.
pub open spec fn about(size: u16, w: nat) -> bool {
    let d = size * double::one_units();
    &&& d <= w + double::one_units() + tile_bounds::speck()
    &&& w <= d + double::one_units() + tile_bounds::speck()
}

/// Whether a tile is the nearest one to a rectangle that is as large a part of
/// `area` as `n` is of `sum`.
pub open spec fn in_proportion(tile: Rect, n: nat, sum: nat, area: Rect) -> bool {
    exists|w: nat, h: nat|
        #![trigger about(tile.width, w), about(tile.height, h)]
        about(tile.width, w) && about(tile.height, h) && near::near(
            (w * h) * sum,
            n * ((area.width * area.height) as nat * (double::one_units() * double::one_units())),
            MOST_OFF as nat,
        )
}

/// Every tile is as large a part of the area as its value is of the sum, but
/// for a sub-cell in its width and its height.
pub proof fn tiles_are_in_proportion(ns: Seq<u64>, area: Rect, j: int)
    requires
        tile_bounds::bounded(ns.len(), area),
        area.addressable(),
        0 <= j < treemap::squarified(treemap::of_ints(ns), area).len(),
    ensures
        ({
            let tile = treemap::squarified(treemap::of_ints(ns), area)[j];
            &&& tile.data < ns.len()
            &&& in_proportion(
                tile.rect,
                ns[tile.data as int] as nat,
                order::sum(ns) as nat,
                area,
            )
        }),
{
    let us = treemap::of_ints(ns);
    let vs = treemap::areas(us, area);
    let order = order::ranking(treemap::codes(vs));
    let sorted = treemap::picked(vs, order);
    let tile = treemap::edges(us, area)[j];
    let p = double::one_units();
    let g = (area.width * area.height) as nat * (p * p);
    order::lemma_ranking_exists(treemap::codes(vs));
    tile_bounds::lemma_edges_inside(ns, area);
    tile_bounds::lemma_edges(us, area);
    tile_bounds::tiles_stay_inside(ns, area, j);
    assert(tile.shows());
    tile_bounds::lemma_rect_edges(tile);
    let k = order[tile.at as int] as int;
    assert(sorted[tile.at as int] == vs[k]);
    let own = vs[k].units() * p;
    assert(tile_bounds::sized(tile, own));
    let (w, h) = choose|w: nat, h: nat| tile_bounds::fills(tile, w, h, own);
    assert(tile_bounds::fills(tile, w, h, own));
    let rect = treemap::squarified(us, area)[j].rect;
    assert(rect == tile.rect());
    assert(about(rect.width, w) && about(rect.height, h));
    let sum = order::sum(ns) as nat;
    if ns[k] == 0 {
        lemma_nothing(ns, area, k);
        assert(0 * p == 0) by (nonlinear_arith);
        let size = w * h;
        assert(size == 0) by {
            tile_bounds::lemma_speck();
        }
        assert(0 * sum == 0) by (nonlinear_arith);
        assert(0 * g == 0) by (nonlinear_arith);
    } else {
        lemma_share(ns, area, k, w * h);
    }
}

/// Nothing has no area.
proof fn lemma_nothing(ns: Seq<u64>, area: Rect, k: int)
    requires
        tile_bounds::bounded(ns.len(), area),
        !treemap::nothing_to_lay_out(treemap::of_ints(ns), area),
        0 <= k < ns.len(),
        ns[k] == 0,
        treemap::areas(treemap::of_ints(ns), area)[k] is Finite,
    ensures
        treemap::areas(treemap::of_ints(ns), area)[k].units() == 0,
{
    let us = treemap::of_ints(ns);
    let s = treemap::scale_of(us, area);
    let p = double::one_units();
    tile_bounds::lemma_speck();
    tile_bounds::lemma_fair_scale(ns, area);
    double::lemma_of_int_exact(0);
    assert(us[k] == double::of_int(0));
    assert(0 * p == 0) by (nonlinear_arith);
    let c = s.units();
    assert(0 * c == 0) by (nonlinear_arith);
    double::lemma_product_error(us[k], s);
    let v = double::product_of(us[k], s).units();
    assert(v == 0) by (nonlinear_arith)
        requires
            2 * (v * p) <= p,
            p > 0,
    ;
}

} // verus!
