//! Tiles and boxes stay where they belong: in the panel, apart from each other,
//! and in the nested view inside the folders that hold them.

use vstd::arithmetic::power2::*;
use vstd::prelude::*;

use crate::app::{AppModel, TargetModel};
use crate::double;
use crate::double::{Double, MANT_END, MANT_MIN};
use crate::grid::Rect;
use crate::lang;
use crate::order;
use crate::tile_bounds;
use crate::tile_cover;
use crate::tile_rows;
use crate::tree;
use crate::tree::{FolderModel, NodeModel};
use crate::treemap;
use crate::treemap::Tile;
use crate::ui::color;
use crate::ui::items;
use crate::ui::items::ItemModel;
use crate::ui::label;
use crate::ui::layout;
use crate::ui::nested;
use crate::ui::nested::BoxModel;
use crate::ui::panel;

verus! {

/// Whether tiles lie in an area, no two with a cell in common.
pub open spec fn parted(tiles: Seq<Tile<usize>>, area: Rect) -> bool {
    &&& forall|j: int| 0 <= j < tiles.len() ==> (#[trigger] tiles[j]).rect.lies_in(area)
    &&& forall|j: int, l: int|
        0 <= j < l < tiles.len() ==> (#[trigger] tiles[j]).rect.apart_from(
            (#[trigger] tiles[l]).rect,
        )
}

/// Fewer values in a smaller area have smaller errors.
proof fn lemma_bounded(m: nat, small: Rect, n: nat, area: Rect)
    requires
        tile_bounds::bounded(n, area),
        m <= n,
        small.width <= area.width,
        small.height <= area.height,
    ensures
        tile_bounds::bounded(m, small),
{
    let a = small.width * small.height;
    let b = area.width * area.height;
    assert(0 <= a <= b) by (nonlinear_arith)
        requires
            small.width <= area.width,
            small.height <= area.height,
            a == small.width * small.height,
            b == area.width * area.height,
    ;
    assert(m * a <= n * b) by (nonlinear_arith)
        requires
            0 <= a <= b,
            m <= n,
    ;
}

proof fn lemma_active_len(order: Seq<usize>, out: Seq<bool>)
    ensures
        layout::active(order, out).len() <= order.len(),
    decreases order.len(),
{
    if order.len() > 0 {
        lemma_active_len(order.drop_last(), out);
    }
}

proof fn lemma_tiles_parted(values: Seq<u64>, at: Seq<usize>, area: Rect)
    requires
        tile_bounds::bounded(at.len(), area),
        area.addressable(),
    ensures
        parted(layout::tiles_of(values, at, area), area),
{
    let ns = layout::picks(values, at);
    let tiles = layout::tiles_of(values, at, area);
    assert forall|j: int| 0 <= j < tiles.len() implies (#[trigger] tiles[j]).rect.lies_in(area) by {
        tile_bounds::tiles_stay_inside(ns, area, j);
    }
    assert forall|j: int, l: int| 0 <= j < l < tiles.len() implies (
    #[trigger] tiles[j]).rect.apart_from((#[trigger] tiles[l]).rect) by {
        tile_bounds::tiles_share_no_cell(ns, area, j, l);
    }
}

proof fn lemma_settled_from(
    values: Seq<u64>,
    order: Seq<usize>,
    area: Rect,
    out: Seq<bool>,
    tiles: Seq<Tile<usize>>,
    iters: int,
    left: int,
)
    requires
        tile_bounds::bounded(order.len(), area),
        area.addressable(),
        parted(tiles, area),
    ensures
        parted(layout::settled_from(values, order, area, out, tiles, iters, left).tiles, area),
    decreases left,
{
    let now = layout::active(order, out);
    if left > 0 && now.len() > 0 {
        let new = layout::tiles_of(values, now, area);
        let fewer = layout::marked(out, new, new.len() as int);
        lemma_active_len(order, out);
        lemma_bounded(now.len(), area, order.len(), area);
        lemma_tiles_parted(values, now, area);
        lemma_settled_from(values, order, area, fewer, new, iters + 1, left - 1);
    }
}

/// However often the layout is tried, its tiles lie in the area and have no
/// cell in common.
pub proof fn settled_tiles_are_parted(values: Seq<u64>, order: Seq<usize>, area: Rect)
    requires
        tile_bounds::bounded(order.len(), area),
        area.addressable(),
    ensures
        parted(layout::settled(values, order, area).tiles, area),
{
    lemma_settled_from(
        values,
        order,
        area,
        Seq::new(values.len(), |i: int| false),
        seq![],
        0,
        layout::MAX_LAYOUT_PASSES as int,
    );
}

proof fn lemma_large_enough_len(values: Seq<u64>, at: Seq<usize>, least: Double)
    ensures
        layout::large_enough(values, at, least).len() <= at.len(),
    decreases at.len(),
{
    if at.len() > 0 {
        lemma_large_enough_len(values, at.drop_last(), least);
    }
}

proof fn lemma_visible(tiles: Seq<Tile<usize>>, area: Rect)
    requires
        parted(tiles, area),
    ensures
        parted(layout::visible(tiles), area),
        forall|j: int|
            0 <= j < layout::visible(tiles).len() ==> !layout::small(
                (#[trigger] layout::visible(tiles)[j]).rect,
            ) && tiles.contains(layout::visible(tiles)[j]),
    decreases tiles.len(),
{
    if tiles.len() > 0 {
        let less = tiles.drop_last();
        let before = layout::visible(less);
        let last = tiles.last();
        assert(parted(less, area)) by {
            assert forall|j: int| 0 <= j < less.len() implies (#[trigger] less[j]).rect.lies_in(
                area,
            ) by {
                assert(tiles[j].rect.lies_in(area));
            }
            assert forall|j: int, l: int| 0 <= j < l < less.len() implies (
            #[trigger] less[j]).rect.apart_from((#[trigger] less[l]).rect) by {
                assert(tiles[j].rect.apart_from(tiles[l].rect));
            }
        }
        lemma_visible(less, area);
        let all = layout::visible(tiles);
        assert forall|j: int| 0 <= j < all.len() implies !layout::small((#[trigger] all[j]).rect)
            && tiles.contains(all[j]) && all[j].rect.lies_in(area) && (j < before.len() ==> exists|
            i: int,
        | 0 <= i < less.len() && tiles[i] == all[j]) by {
            if j < before.len() {
                assert(all[j] == before[j]);
                assert(less.contains(before[j]));
                let i = choose|i: int| 0 <= i < less.len() && less[i] == before[j];
                assert(tiles[i] == all[j]);
            } else {
                assert(all[j] == last);
                assert(tiles[tiles.len() - 1] == last);
            }
        }
        assert forall|j: int, l: int| 0 <= j < l < all.len() implies (
        #[trigger] all[j]).rect.apart_from((#[trigger] all[l]).rect) by {
            if l < before.len() {
                assert(before[j].rect.apart_from(before[l].rect));
            } else {
                let i = choose|i: int| 0 <= i < less.len() && tiles[i] == all[j];
                assert(tiles[i].rect.apart_from(tiles[tiles.len() - 1].rect));
            }
        }
    }
}

/// A panel in sub-cells.
pub open spec fn panel_area(inner: Rect) -> Rect {
    Rect { top: 0, left: 0, width: inner.width, height: layout::doubled(inner.height) }
}

/// A panel in sub-cells, and one gap more to the right and below.
pub open spec fn inflated(inner: Rect) -> Rect {
    Rect {
        top: 0,
        left: 0,
        width: (inner.width + layout::GAP_SUBCELLS) as u16,
        height: (layout::doubled(inner.height) + layout::GAP_SUBCELLS) as u16,
    }
}

/// In the flat views every tile, once its gap is taken off, lies in the panel,
/// and no two tiles have a cell in common.
pub proof fn flat_tiles_stay_in_the_panel(values: Seq<u64>, inner: Rect)
    requires
        inner.width < u16::MAX,
        inner.height <= 32767,
        tile_bounds::bounded(layout::laid_out_in(values, inner).len(), inflated(inner)),
    ensures
        ({
            let tiles = layout::flat(values, inner).tiles;
            &&& forall|j: int|
                0 <= j < tiles.len() ==> nested::without_gap(
                    (#[trigger] tiles[j]).rect,
                ).lies_in(panel_area(inner))
            &&& forall|j: int, l: int|
                0 <= j < l < tiles.len() ==> (#[trigger] tiles[j]).rect.apart_from(
                    (#[trigger] tiles[l]).rect,
                )
        }),
{
    let order = layout::laid_out_in(values, inner);
    let whole = inflated(inner);
    settled_tiles_are_parted(values, order, whole);
    lemma_visible(layout::settled(values, order, whole).tiles, whole);
}

// ── one tile each ───────────────────────────────────────────────────────────

/// Whether no position occurs twice.
pub open spec fn all_differ(at: Seq<usize>) -> bool {
    forall|i: int, j: int| 0 <= i < j < at.len() ==> #[trigger] at[i] != #[trigger] at[j]
}

/// Whether no item has two tiles.
pub open spec fn one_each(tiles: Seq<Tile<usize>>) -> bool {
    forall|j: int, l: int|
        0 <= j < l < tiles.len() ==> (#[trigger] tiles[j]).data != (#[trigger] tiles[l]).data
}

proof fn lemma_active_differ(order: Seq<usize>, out: Seq<bool>)
    requires
        all_differ(order),
    ensures
        all_differ(layout::active(order, out)),
        forall|i: int|
            0 <= i < layout::active(order, out).len() ==> order.contains(
                #[trigger] layout::active(order, out)[i],
            ),
    decreases order.len(),
{
    if order.len() > 0 {
        let less = order.drop_last();
        let before = layout::active(less, out);
        let now = layout::active(order, out);
        lemma_prefix_differs(order);
        lemma_active_differ(less, out);
        lemma_differ_grow(order, before, now);
    }
}

proof fn lemma_prefix_differs(order: Seq<usize>)
    requires
        all_differ(order),
        order.len() > 0,
    ensures
        all_differ(order.drop_last()),
{
    let less = order.drop_last();
    assert forall|i: int, j: int| 0 <= i < j < less.len() implies #[trigger] less[i]
        != #[trigger] less[j] by {
        assert(order[i] != order[j]);
    }
}

/// Positions of `order` without its last one, and possibly that one.
proof fn lemma_differ_grow(order: Seq<usize>, before: Seq<usize>, now: Seq<usize>)
    requires
        all_differ(order),
        order.len() > 0,
        all_differ(before),
        forall|i: int|
            0 <= i < before.len() ==> order.drop_last().contains(#[trigger] before[i]),
        now == before || now == before.push(order.last()),
    ensures
        all_differ(now),
        forall|i: int| 0 <= i < now.len() ==> order.contains(#[trigger] now[i]),
{
    let less = order.drop_last();
    let n = order.len() - 1;
    assert forall|i: int| 0 <= i < now.len() implies order.contains(#[trigger] now[i]) by {
        if i < before.len() {
            assert(less.contains(before[i]));
            let k = choose|k: int| 0 <= k < less.len() && less[k] == before[i];
            assert(order[k] == now[i]);
        } else {
            assert(order[n] == now[i]);
        }
    }
    assert forall|i: int, j: int| 0 <= i < j < now.len() implies #[trigger] now[i]
        != #[trigger] now[j] by {
        if j < before.len() {
            assert(before[i] != before[j]);
        } else {
            assert(less.contains(before[i]));
            let k = choose|k: int| 0 <= k < less.len() && less[k] == before[i];
            assert(order[k] != order[n]);
        }
    }
}

proof fn lemma_large_enough_differ(values: Seq<u64>, at: Seq<usize>, least: Double)
    requires
        all_differ(at),
    ensures
        all_differ(layout::large_enough(values, at, least)),
        forall|i: int|
            0 <= i < layout::large_enough(values, at, least).len() ==> at.contains(
                #[trigger] layout::large_enough(values, at, least)[i],
            ),
    decreases at.len(),
{
    if at.len() > 0 {
        let less = at.drop_last();
        lemma_prefix_differs(at);
        lemma_large_enough_differ(values, less, least);
        lemma_differ_grow(
            at,
            layout::large_enough(values, less, least),
            layout::large_enough(values, at, least),
        );
    }
}

proof fn lemma_tiles_one_each(values: Seq<u64>, at: Seq<usize>, area: Rect)
    requires
        all_differ(at),
        at.len() <= usize::MAX,
    ensures
        one_each(layout::tiles_of(values, at, area)),
{
    let ns = layout::picks(values, at);
    let us = treemap::of_ints(ns);
    let tiles = layout::tiles_of(values, at, area);
    assert forall|j: int, l: int| 0 <= j < l < tiles.len() implies (#[trigger] tiles[j]).data != (
    #[trigger] tiles[l]).data by {
        treemap::lemma_integers_comparable(ns, area);
        treemap::squarified_is_a_treemap(us, area, j, l);
        let a = treemap::squarified(us, area)[j].data as int;
        let b = treemap::squarified(us, area)[l].data as int;
        if a < b {
            assert(at[a] != at[b]);
        } else {
            assert(at[b] != at[a]);
        }
    }
}

proof fn lemma_settled_one_each(
    values: Seq<u64>,
    order: Seq<usize>,
    area: Rect,
    out: Seq<bool>,
    tiles: Seq<Tile<usize>>,
    iters: int,
    left: int,
)
    requires
        all_differ(order),
        order.len() <= usize::MAX,
        one_each(tiles),
    ensures
        one_each(layout::settled_from(values, order, area, out, tiles, iters, left).tiles),
    decreases left,
{
    let now = layout::active(order, out);
    if left > 0 && now.len() > 0 {
        let new = layout::tiles_of(values, now, area);
        let fewer = layout::marked(out, new, new.len() as int);
        lemma_active_len(order, out);
        lemma_active_differ(order, out);
        lemma_tiles_one_each(values, now, area);
        lemma_settled_one_each(values, order, area, fewer, new, iters + 1, left - 1);
    }
}

proof fn lemma_visible_one_each(tiles: Seq<Tile<usize>>)
    requires
        one_each(tiles),
    ensures
        one_each(layout::visible(tiles)),
        forall|j: int|
            0 <= j < layout::visible(tiles).len() ==> tiles.contains(
                #[trigger] layout::visible(tiles)[j],
            ),
    decreases tiles.len(),
{
    if tiles.len() > 0 {
        let less = tiles.drop_last();
        let before = layout::visible(less);
        let all = layout::visible(tiles);
        let n = tiles.len() - 1;
        assert forall|j: int, l: int| 0 <= j < l < less.len() implies (#[trigger] less[j]).data != (
        #[trigger] less[l]).data by {
            assert(tiles[j].data != tiles[l].data);
        }
        lemma_visible_one_each(less);
        assert forall|j: int| 0 <= j < all.len() implies tiles.contains(#[trigger] all[j]) by {
            if j < before.len() {
                assert(less.contains(before[j]));
                let k = choose|k: int| 0 <= k < less.len() && less[k] == before[j];
                assert(tiles[k] == all[j]);
            } else {
                assert(tiles[n] == all[j]);
            }
        }
        assert forall|j: int, l: int| 0 <= j < l < all.len() implies (#[trigger] all[j]).data != (
        #[trigger] all[l]).data by {
            if l < before.len() {
                assert(before[j].data != before[l].data);
            } else {
                assert(less.contains(before[j]));
                let k = choose|k: int| 0 <= k < less.len() && less[k] == before[j];
                assert(tiles[k].data != tiles[n].data);
            }
        }
    }
}

/// In the flat views no item has two tiles.
pub proof fn no_item_has_two_tiles(values: Seq<u64>, inner: Rect)
    requires
        values.len() <= usize::MAX,
    ensures
        one_each(layout::flat(values, inner).tiles),
{
    let total = order::sum(values);
    let rows = layout::doubled(inner.height);
    let area = inner.width * rows;
    if total != 0 && area != 0 {
        let least = layout::least_value(total, area);
        let p = order::ranking(values);
        let order = layout::large_enough(values, p, least);
        let whole = inflated(inner);
        order::lemma_ranking_exists(values);
        assert forall|i: int, j: int| 0 <= i < j < p.len() implies #[trigger] p[i]
            != #[trigger] p[j] by {
            assert(order::before(values, p[i] as int, p[j] as int));
        }
        lemma_large_enough_differ(values, p, least);
        lemma_large_enough_len(values, p, least);
        if order.len() > 0 {
            lemma_settled_one_each(
                values,
                order,
                whole,
                Seq::new(values.len(), |i: int| false),
                seq![],
                0,
                layout::MAX_LAYOUT_PASSES as int,
            );
        }
        lemma_visible_one_each(layout::settled(values, order, whole).tiles);
    }
}

// ── how many tiles there are ────────────────────────────────────────────────

proof fn lemma_large_enough_worth(values: Seq<u64>, at: Seq<usize>, least: Double, i: int)
    requires
        0 <= i < layout::large_enough(values, at, least).len(),
    ensures
        ({
            let v = values[layout::large_enough(values, at, least)[i] as int];
            v > 0 && double::at_most(least, double::of_int(v as nat))
        }),
    decreases at.len(),
{
    if at.len() > 0 {
        let before = layout::large_enough(values, at.drop_last(), least);
        if i < before.len() {
            lemma_large_enough_worth(values, at.drop_last(), least, i);
        }
    }
}

/// A value that is no less than what nine sub-cells stand for is worth nine
/// sub-cells, but for a rounding error.
proof fn lemma_worth_nine(total: u64, area: nat, v: u64)
    requires
        0 < total,
        0 < area <= 0xffff_ffff,
        0 < v,
        double::at_most(layout::least_value(total as int, area as int), double::of_int(v as nat)),
    ensures
        0x100_0000_0000 * (9 * total) <= 0x100_0000_0001 * (area * v),
{
    let p = double::one_units();
    let x = double::of_int(total as nat);
    let y = double::of_int(area);
    let nine = double::of_int(9);
    let w = double::of_int(v as nat);
    let q = double::quotient_of(x, y);
    let r = double::product_of(q, nine);
    tile_bounds::lemma_speck();
    double::lemma_of_within(total);
    double::lemma_of_within(area as u64);
    double::lemma_of_within(9);
    double::lemma_of_within(v);
    double::lemma_of_int_exact(area);
    double::lemma_of_int_exact(9);
    double::lemma_quotient_within(x, y, 64, 0);
    double::lemma_product_within(q, nine, 64, 64);
    assert(p >= 0x1_0000_0000_0000_0000_0000_0000_0000_0000) by {
        lemma2_to64();
        lemma_pow2_adds(64, 64);
        lemma_pow2_adds(128, 946);
        lemma_pow2_pos(946);
        let k = pow2(946);
        assert(pow2(128) * k >= pow2(128)) by (nonlinear_arith)
            requires
                k >= 1,
        ;
    }
    // The total.
    let tp = total * p;
    let xu = x.units();
    assert(tp >= p) by (nonlinear_arith)
        requires
            total >= 1,
            tp == total * p,
    ;
    reveal(double::of_int);
    double::lemma_nearest_error(total as nat * p, 1);
    assert(xu * 1 == xu);
    assert(MANT_END * tp <= MANT_END * xu + 2 * tp);
    // What one sub-cell stands for.
    let aq = area * q.units();
    assert(y.units() > 0) by (nonlinear_arith)
        requires
            y.units() == area * p,
            area > 0,
            p > 0,
    ;
    double::lemma_quotient_error(x, y);
    assert(MANT_END * xu <= MANT_END * aq + xu + MANT_MIN * area) by (nonlinear_arith)
        requires
            MANT_END * (xu * p) <= MANT_END * (q.units() * y.units()) + xu * p + MANT_MIN
                * y.units(),
            y.units() == area * p,
            aq == area * q.units(),
            p > 0,
    ;
    assert(MANT_END * xu <= MANT_END * aq + 2 * xu);
    // What nine stand for.
    let ar = area * r.units();
    double::lemma_product_error(q, nine);
    assert(MANT_END * (9 * q.units()) <= MANT_END * r.units() + 9 * q.units() + MANT_MIN)
        by (nonlinear_arith)
        requires
            MANT_END * (q.units() * nine.units()) <= MANT_END * (r.units() * p) + q.units()
                * nine.units() + MANT_MIN * p,
            nine.units() == 9 * p,
            p > 0,
    ;
    assert(MANT_END * (9 * aq) <= MANT_END * ar + 9 * aq + MANT_MIN * area) by (nonlinear_arith)
        requires
            MANT_END * (9 * q.units()) <= MANT_END * r.units() + 9 * q.units() + MANT_MIN,
            aq == area * q.units(),
            ar == area * r.units(),
            area > 0,
    ;
    assert(MANT_END * (9 * aq) <= MANT_END * ar + 10 * aq);
    // The value.
    let vp = v * p;
    let wu = w.units();
    assert(vp >= p) by (nonlinear_arith)
        requires
            v >= 1,
            vp == v * p,
    ;
    double::lemma_nearest_error(v as nat * p, 1);
    assert(wu * 1 == wu);
    assert(MANT_END * wu <= MANT_END * vp + 2 * vp);
    assert(r.units() <= wu) by {
        reveal(double::less);
    }
    let avp = area * vp;
    assert(MANT_END * ar <= MANT_END * avp + 2 * avp) by (nonlinear_arith)
        requires
            MANT_END * wu <= MANT_END * vp + 2 * vp,
            r.units() <= wu,
            ar == area * r.units(),
            avp == area * vp,
            area > 0,
            MANT_END > 0,
    ;
    assert(0x100_0000_0000 * (9 * tp) <= 0x100_0000_0001 * avp);
    let av = area * v;
    assert(avp == av * p) by (nonlinear_arith)
        requires
            avp == area * vp,
            vp == v * p,
            av == area * v,
    ;
    assert(0x100_0000_0000 * (9 * total) <= 0x100_0000_0001 * av) by (nonlinear_arith)
        requires
            0x100_0000_0000 * (9 * tp) <= 0x100_0000_0001 * avp,
            tp == total * p,
            avp == av * p,
            p > 0,
    ;
}

/// A value that is worth nine sub-cells, and a little more, is no less than what
/// nine sub-cells stand for.
proof fn lemma_nine_are_worth(total: u64, area: nat, v: u64)
    requires
        0 < total,
        0 < area <= 0xffff_ffff,
        0 < v,
        0x100_0000_0001 * (9 * total) <= 0x100_0000_0000 * (area * v),
    ensures
        double::at_most(layout::least_value(total as int, area as int), double::of_int(v as nat)),
{
    let p = double::one_units();
    let x = double::of_int(total as nat);
    let y = double::of_int(area);
    let nine = double::of_int(9);
    let w = double::of_int(v as nat);
    let one = double::of_int(1);
    let q = double::quotient_of(x, y);
    let r = double::product_of(q, nine);
    tile_bounds::lemma_speck();
    double::lemma_of_within(total);
    double::lemma_of_within(area as u64);
    double::lemma_of_within(9);
    double::lemma_of_within(v);
    double::lemma_of_within(1);
    double::lemma_of_int_exact(area);
    double::lemma_of_int_exact(9);
    double::lemma_of_int_exact(1);
    double::lemma_of_int_monotone(1, v as nat);
    double::lemma_quotient_within(x, y, 64, 0);
    double::lemma_product_within(q, nine, 64, 64);
    assert(p >= 0x1_0000_0000_0000_0000_0000_0000_0000_0000) by {
        lemma2_to64();
        lemma_pow2_adds(64, 64);
        lemma_pow2_adds(128, 946);
        lemma_pow2_pos(946);
        let k = pow2(946);
        assert(pow2(128) * k >= pow2(128)) by (nonlinear_arith)
            requires
                k >= 1,
        ;
    }
    let tp = total * p;
    let xu = x.units();
    assert(tp >= p) by (nonlinear_arith)
        requires
            total >= 1,
            tp == total * p,
    ;
    reveal(double::of_int);
    double::lemma_nearest_error(total as nat * p, 1);
    assert(xu * 1 == xu);
    assert(MANT_END * xu <= MANT_END * tp + 2 * tp);
    let aq = area * q.units();
    assert(y.units() > 0) by (nonlinear_arith)
        requires
            y.units() == area * p,
            area > 0,
            p > 0,
    ;
    double::lemma_quotient_error(x, y);
    assert(MANT_END * aq <= MANT_END * xu + xu + MANT_MIN * area) by (nonlinear_arith)
        requires
            MANT_END * (q.units() * y.units()) <= MANT_END * (xu * p) + xu * p + MANT_MIN
                * y.units(),
            y.units() == area * p,
            aq == area * q.units(),
            p > 0,
    ;
    assert(MANT_END * aq <= MANT_END * xu + 2 * xu + MANT_MIN * area);
    let ar = area * r.units();
    double::lemma_product_error(q, nine);
    assert(MANT_END * r.units() <= MANT_END * (9 * q.units()) + 9 * q.units() + MANT_MIN)
        by (nonlinear_arith)
        requires
            MANT_END * (r.units() * p) <= MANT_END * (q.units() * nine.units()) + q.units()
                * nine.units() + MANT_MIN * p,
            nine.units() == 9 * p,
            p > 0,
    ;
    assert(MANT_END * ar <= MANT_END * (9 * aq) + 9 * aq + MANT_MIN * area) by (nonlinear_arith)
        requires
            MANT_END * r.units() <= MANT_END * (9 * q.units()) + 9 * q.units() + MANT_MIN,
            aq == area * q.units(),
            ar == area * r.units(),
            area > 0,
    ;
    let vp = v * p;
    let wu = w.units();
    assert(vp >= p) by (nonlinear_arith)
        requires
            v >= 1,
            vp == v * p,
    ;
    double::lemma_nearest_error(v as nat * p, 1);
    assert(wu * 1 == wu);
    assert(MANT_END * vp <= MANT_END * wu + 2 * vp);
    let avp = area * vp;
    let aw = area * wu;
    assert(MANT_END * avp <= MANT_END * aw + 2 * avp) by (nonlinear_arith)
        requires
            MANT_END * vp <= MANT_END * wu + 2 * vp,
            avp == area * vp,
            aw == area * wu,
            area > 0,
    ;
    let av = area * v;
    assert(avp == av * p) by (nonlinear_arith)
        requires
            avp == area * vp,
            vp == v * p,
            av == area * v,
    ;
    assert(0x100_0000_0001 * (9 * tp) <= 0x100_0000_0000 * avp) by (nonlinear_arith)
        requires
            0x100_0000_0001 * (9 * total) <= 0x100_0000_0000 * av,
            tp == total * p,
            avp == av * p,
            p > 0,
    ;
    assert(ar <= aw);
    assert(r.units() <= wu) by (nonlinear_arith)
        requires
            ar <= aw,
            ar == area * r.units(),
            aw == area * wu,
            area > 0,
    ;
    reveal(double::less);
}

proof fn lemma_large_enough_all(values: Seq<u64>, at: Seq<usize>, least: Double, i: int)
    requires
        0 <= i < at.len(),
        values[at[i] as int] > 0,
        double::at_most(least, double::of_int(values[at[i] as int] as nat)),
    ensures
        layout::large_enough(values, at, least).contains(at[i]),
    decreases at.len(),
{
    let less = at.drop_last();
    let before = layout::large_enough(values, less, least);
    let now = layout::large_enough(values, at, least);
    if i < less.len() {
        assert(less[i] == at[i]);
        lemma_large_enough_all(values, less, least, i);
        let k = choose|k: int| 0 <= k < before.len() && before[k] == less[i];
        assert(now[k] == at[i]);
    } else {
        assert(now[before.len() as int] == at[i]);
    }
}

/// A value is laid out in a flat view if its share of the panel is nine
/// sub-cells, and not if it is less, but for one part in `2^40`.
pub proof fn values_worth_nine_subcells_are_laid_out(values: Seq<u64>, inner: Rect, k: int)
    requires
        values.len() <= usize::MAX,
        order::sum(values) <= u64::MAX,
        0 <= k < values.len(),
    ensures
        ({
            let area = inner.width * layout::doubled(inner.height);
            let total = order::sum(values);
            &&& values[k] > 0 && 0x100_0000_0001 * (9 * total) <= 0x100_0000_0000 * (area
                * values[k]) ==> layout::laid_out_in(values, inner).contains(k as usize)
            &&& layout::laid_out_in(values, inner).contains(k as usize) ==> values[k] > 0
                && 0x100_0000_0000 * (9 * total) <= 0x100_0000_0001 * (area * values[k])
        }),
{
    let total = order::sum(values);
    let area = inner.width * layout::doubled(inner.height);
    let v = values[k];
    assert(0 <= area <= 0xfffe_0001) by (nonlinear_arith)
        requires
            area == inner.width * layout::doubled(inner.height),
            0 <= inner.width <= 0xffff,
            0 <= layout::doubled(inner.height) <= 0xffff,
    ;
    order::lemma_sum_prefix(values, 0);
    order::lemma_sum_prefix(values, k);
    order::lemma_sum_prefix(values, k + 1);
    assert(values.take(0) =~= seq![]);
    assert(values.take(k + 1).drop_last() =~= values.take(k));
    assert(values.take(k + 1).last() == v);
    assert(total >= v);
    let p = order::ranking(values);
    order::lemma_ranking_exists(values);
    if total != 0 && area != 0 {
        let least = layout::least_value(total, area);
        let at = layout::laid_out_in(values, inner);
        if v > 0 && 0x100_0000_0001 * (9 * total) <= 0x100_0000_0000 * (area * v) {
            lemma_nine_are_worth(total as u64, area as nat, v);
            order::lemma_ranking_covers(values, p, k);
            let i = choose|i: int| 0 <= i < p.len() && p[i] == k;
            lemma_large_enough_all(values, p, least, i);
        }
        if at.contains(k as usize) {
            let i = choose|i: int| 0 <= i < at.len() && at[i] == k as usize;
            lemma_large_enough_worth(values, p, least, i);
            lemma_worth_nine(total as u64, area as nat, v);
        }
    } else {
        assert(area == 0 ==> area * v == 0) by (nonlinear_arith);
    }
}

/// Values that each are worth a part of the total are not many.
proof fn lemma_worth_sum(ns: Seq<u64>, part: int, area: int)
    requires
        forall|i: int| 0 <= i < ns.len() ==> part <= area * (#[trigger] ns[i]),
    ensures
        ns.len() * part <= area * order::sum(ns),
    decreases ns.len(),
{
    if ns.len() > 0 {
        let less = ns.drop_last();
        let last = ns.last() as int;
        let m = less.len() as int;
        assert forall|i: int| 0 <= i < less.len() implies part <= area * (#[trigger] less[i]) by {
            assert(less[i] == ns[i]);
        }
        lemma_worth_sum(less, part, area);
        assert(part <= area * ns[m]);
        let s = order::sum(less);
        assert((m + 1) * part <= area * (s + last)) by (nonlinear_arith)
            requires
                m * part <= area * s,
                part <= area * last,
        ;
    } else {
        assert(ns.len() * part == 0 && area * 0 == 0) by (nonlinear_arith)
            requires
                ns.len() == 0,
        ;
    }
}

/// Each value that the flat views lay out is worth nine sub-cells of the panel:
/// there are at most a ninth as many as the panel has sub-cells.
pub proof fn few_values_are_laid_out(values: Seq<u64>, inner: Rect)
    requires
        values.len() <= usize::MAX,
        order::sum(values) <= u64::MAX,
    ensures
        9 * layout::laid_out_in(values, inner).len() <= inner.width * layout::doubled(inner.height),
{
    let total = order::sum(values);
    let area = inner.width * layout::doubled(inner.height);
    let at = layout::laid_out_in(values, inner);
    assert(0 <= area <= 0xfffe_0001) by (nonlinear_arith)
        requires
            area == inner.width * layout::doubled(inner.height),
            0 <= inner.width <= 0xffff,
            0 <= layout::doubled(inner.height) <= 0xffff,
    ;
    order::lemma_sum_prefix(values, 0);
    assert(values.take(0) =~= seq![]);
    if total != 0 && area != 0 {
        let least = layout::least_value(total, area);
        let p = order::ranking(values);
        order::lemma_ranking_exists(values);
        assert forall|i: int, j: int| 0 <= i < j < p.len() implies #[trigger] p[i]
            != #[trigger] p[j] by {
            assert(order::before(values, p[i] as int, p[j] as int));
        }
        lemma_large_enough_differ(values, p, least);
        assert forall|i: int| 0 <= i < at.len() implies (#[trigger] at[i]) < values.len() by {
            assert(p.contains(at[i]));
        }
        let ns = order::at_places(values, at);
        order::lemma_sum_at_places(values, at);
        let part = 0x100_0000_0000 * (9 * total);
        let wide = 0x100_0000_0001 * area;
        assert forall|i: int| 0 <= i < ns.len() implies part <= wide * (#[trigger] ns[i]) by {
            let v = values[at[i] as int];
            lemma_large_enough_worth(values, p, least, i);
            lemma_worth_nine(total as u64, area as nat, v);
            assert(0x100_0000_0001 * (area * v) == wide * v) by (nonlinear_arith)
                requires
                    wide == 0x100_0000_0001 * area,
            ;
        }
        lemma_worth_sum(ns, part, wide);
        let m = at.len() as int;
        assert(wide * order::sum(ns) <= wide * total) by (nonlinear_arith)
            requires
                order::sum(ns) <= total,
                wide >= 0,
        ;
        assert(0x100_0000_0000 * (9 * m) <= wide) by (nonlinear_arith)
            requires
                m * part <= wide * total,
                part == 0x100_0000_0000 * (9 * total),
                total > 0,
        ;
    }
}

/// In the flat views a panel of up to some 35 million sub-cells never gets too
/// full, however many items there are: the laws on its tiles hold.
pub proof fn panels_are_never_too_full(values: Seq<u64>, inner: Rect)
    requires
        values.len() <= usize::MAX,
        order::sum(values) <= u64::MAX,
        inner.width < u16::MAX,
        inner.height <= 32767,
        ({
            let a = inflated(inner).width * inflated(inner).height;
            a * a <= 9 * tile_bounds::MOST_WORK
        }),
    ensures
        tile_bounds::bounded(layout::laid_out_in(values, inner).len(), inflated(inner)),
{
    let m = layout::laid_out_in(values, inner).len() as int;
    let w = inner.width as int;
    let h = layout::doubled(inner.height) as int;
    let a = (w + 1) * (h + 1);
    few_values_are_laid_out(values, inner);
    assert(w * h <= a) by (nonlinear_arith)
        requires
            a == (w + 1) * (h + 1),
            w >= 0,
            h >= 0,
    ;
    assert(9 * (m * a) <= a * a) by (nonlinear_arith)
        requires
            9 * m <= a,
            a >= 0,
    ;
    assert(a <= 9 * tile_bounds::MOST_VALUES) by (nonlinear_arith)
        requires
            a * a <= 9 * tile_bounds::MOST_WORK,
    ;
}

// ── the nested view ─────────────────────────────────────────────────────────

/// Whether this folder and every folder inside have at most `n` entries.
pub open spec fn at_most_entries(f: FolderModel, n: nat) -> bool
    decreases f,
{
    &&& f.children.len() <= n
    &&& forall|i: int| #![trigger f.children[i]]
        0 <= i < f.children.len() ==> match f.children[i].1 {
            NodeModel::File(_) => true,
            NodeModel::Folder(x) => at_most_entries(x, n),
        }
}

/// Whether of two boxes the second one is inside the first, which is a folder,
/// or has no cell in common with it.
pub open spec fn nests(a: BoxModel, b: BoxModel) -> bool {
    a.rect.apart_from(b.rect) || (a.is_folder && b.rect.lies_in(a.rect))
}

/// Whether every box lies in an area.
pub open spec fn all_in(bs: Seq<BoxModel>, area: Rect) -> bool {
    forall|j: int| 0 <= j < bs.len() ==> (#[trigger] bs[j]).rect.lies_in(area)
}

/// Whether every box is apart from all later ones or holds them.
pub open spec fn all_nest(bs: Seq<BoxModel>) -> bool {
    forall|j: int, l: int| 0 <= j < l < bs.len() ==> nests(#[trigger] bs[j], #[trigger] bs[l])
}

/// Whether a box lies in one of the first `k` tiles, without its gap.
pub open spec fn in_tile(b: BoxModel, tiles: Seq<Tile<usize>>, k: int) -> bool {
    exists|i: int|
        0 <= i < k && !layout::small((#[trigger] tiles[i]).rect) && b.rect.lies_in(
            nested::without_gap(tiles[i].rect),
        )
}

proof fn lemma_nonzero_len(values: Seq<u64>, at: Seq<usize>)
    ensures
        nested::nonzero(values, at).len() <= at.len(),
    decreases at.len(),
{
    if at.len() > 0 {
        lemma_nonzero_len(values, at.drop_last());
    }
}

proof fn lemma_boxes(
    f: FolderModel,
    tiles: Seq<Tile<usize>>,
    k: int,
    base: Seq<Seq<char>>,
    depth: u32,
    bitmaps: bool,
    max_scale: u16,
    n: nat,
    area: Rect,
)
    requires
        0 <= k <= tiles.len(),
        parted(tiles, area),
        at_most_entries(f, n),
        area.addressable(),
        tile_bounds::bounded(n, area),
    ensures
        ({
            let bs = nested::boxes(f, tiles, k, base, depth, bitmaps, max_scale);
            &&& all_nest(bs)
            &&& forall|j: int| 0 <= j < bs.len() ==> in_tile(#[trigger] bs[j], tiles, k)
        }),
    decreases f, 0int, k,
{
    if k > 0 {
        let before = nested::boxes(f, tiles, k - 1, base, depth, bitmaps, max_scale);
        let bs = nested::boxes(f, tiles, k, base, depth, bitmaps, max_scale);
        let at = tiles[k - 1].data as int;
        lemma_boxes(f, tiles, k - 1, base, depth, bitmaps, max_scale, n, area);
        assert forall|j: int| 0 <= j < before.len() implies in_tile(
            #[trigger] before[j],
            tiles,
            k,
        ) by {
            assert(in_tile(before[j], tiles, k - 1));
        }
        if !layout::small(tiles[k - 1].rect) && at < f.children.len() {
            let e = f.children[at];
            let r = nested::without_gap(tiles[k - 1].rect);
            let own = nested::entry_box(e, r, base, depth, bitmaps, max_scale);
            assert(tiles[k - 1].rect.lies_in(area));
            let rest = match e.1 {
                NodeModel::File(_) => seq![],
                NodeModel::Folder(sub) => {
                    let l = label::folder_label(r, e.0 + "/"@, bitmaps, max_scale);
                    nested::nested(
                        sub,
                        r,
                        base.push(e.0),
                        l.2,
                        nested::deeper(depth),
                        bitmaps && l.0 is Some,
                        if l.0 is Some {
                            l.0->0
                        } else {
                            0
                        },
                    )
                },
            };
            assert(bs =~= before.push(own) + rest);
            assert(all_nest(rest) && all_in(rest, r)) by {
                match e.1 {
                    NodeModel::File(_) => {},
                    NodeModel::Folder(sub) => {
                        let l = label::folder_label(r, e.0 + "/"@, bitmaps, max_scale);
                        lemma_bounded(n, r, n, area);
                        lemma_nested(
                            sub,
                            r,
                            base.push(e.0),
                            l.2,
                            nested::deeper(depth),
                            bitmaps && l.0 is Some,
                            if l.0 is Some {
                                l.0->0
                            } else {
                                0
                            },
                            n,
                        );
                    },
                }
            }
            let m = before.len() as int;
            assert forall|j: int| m <= j < bs.len() implies (#[trigger] bs[j]).rect.lies_in(r) by {
                if j > m {
                    assert(bs[j] == rest[j - m - 1]);
                }
            }
            assert forall|j: int| 0 <= j < bs.len() implies in_tile(#[trigger] bs[j], tiles, k) by {
                if j < m {
                    assert(bs[j] == before[j]);
                } else {
                    assert(!layout::small(tiles[k - 1].rect));
                }
            }
            assert forall|j: int, l: int| 0 <= j < l < bs.len() implies nests(
                #[trigger] bs[j],
                #[trigger] bs[l],
            ) by {
                if l < m {
                    assert(nests(before[j], before[l]));
                } else if j < m {
                    assert(bs[j] == before[j]);
                    assert(in_tile(before[j], tiles, k - 1));
                    let i = choose|i: int|
                        0 <= i < k - 1 && !layout::small((#[trigger] tiles[i]).rect)
                            && before[j].rect.lies_in(nested::without_gap(tiles[i].rect));
                    assert(tiles[i].rect.apart_from(tiles[k - 1].rect));
                } else if j > m {
                    assert(nests(rest[j - m - 1], rest[l - m - 1]));
                } else {
                    assert(bs[j] == own);
                    assert(bs[l] == rest[l - m - 1]);
                }
            }
        }
    }
}

proof fn lemma_nested(
    f: FolderModel,
    rect: Rect,
    base: Seq<Seq<char>>,
    band: u16,
    depth: u32,
    bitmaps: bool,
    max_scale: u16,
    n: nat,
)
    requires
        at_most_entries(f, n),
        rect.addressable(),
        tile_bounds::bounded(n, rect),
    ensures
        ({
            let bs = nested::nested(f, rect, base, band, depth, bitmaps, max_scale);
            &&& all_nest(bs)
            &&& all_in(bs, rect)
            &&& all_in(bs, nested::without_gap(nested::inside(rect, band, depth)))
        }),
    decreases f, 1int, 0int,
{
    if nested::has_inside(rect, band, depth) {
        let area = nested::inside(rect, band, depth);
        let values = nested::lines_of(f.children);
        let order = nested::nonzero(values, order::ranking(values));
        let tiles = layout::settled(values, order, area).tiles;
        let bs = nested::nested(f, rect, base, band, depth, bitmaps, max_scale);
        order::lemma_ranking_exists(values);
        lemma_nonzero_len(values, order::ranking(values));
        assert(area.lies_in(rect));
        lemma_bounded(order.len(), area, n, rect);
        lemma_bounded(n, area, n, rect);
        settled_tiles_are_parted(values, order, area);
        lemma_boxes(
            f,
            tiles,
            tiles.len() as int,
            base,
            depth,
            bitmaps,
            max_scale,
            n,
            area,
        );
        assert forall|j: int| 0 <= j < bs.len() implies (#[trigger] bs[j]).rect.lies_in(rect)
            && bs[j].rect.lies_in(nested::without_gap(area)) by {
            assert(in_tile(bs[j], tiles, tiles.len() as int));
            let i = choose|i: int|
                0 <= i < tiles.len() && !layout::small((#[trigger] tiles[i]).rect)
                    && bs[j].rect.lies_in(nested::without_gap(tiles[i].rect));
            assert(tiles[i].rect.lies_in(area));
        }
    }
}

/// In the nested view a folder's entries, and all inside them, lie in the part
/// of the folder's tile that is theirs.
pub proof fn boxes_stay_inside(
    f: FolderModel,
    rect: Rect,
    base: Seq<Seq<char>>,
    band: u16,
    depth: u32,
    bitmaps: bool,
    max_scale: u16,
    n: nat,
    k: int,
)
    requires
        at_most_entries(f, n),
        rect.addressable(),
        tile_bounds::bounded(n, rect),
        0 <= k < nested::nested(f, rect, base, band, depth, bitmaps, max_scale).len(),
    ensures
        nested::nested(f, rect, base, band, depth, bitmaps, max_scale)[k].rect.lies_in(
            nested::without_gap(nested::inside(rect, band, depth)),
        ),
{
    lemma_nested(f, rect, base, band, depth, bitmaps, max_scale, n);
}

/// In the nested view a box holds a later one, or they have no cell in common;
/// only folders hold boxes.
pub proof fn boxes_nest(
    f: FolderModel,
    rect: Rect,
    base: Seq<Seq<char>>,
    band: u16,
    depth: u32,
    bitmaps: bool,
    max_scale: u16,
    n: nat,
    j: int,
    l: int,
)
    requires
        at_most_entries(f, n),
        rect.addressable(),
        tile_bounds::bounded(n, rect),
        0 <= j < l < nested::nested(f, rect, base, band, depth, bitmaps, max_scale).len(),
    ensures
        nests(
            nested::nested(f, rect, base, band, depth, bitmaps, max_scale)[j],
            nested::nested(f, rect, base, band, depth, bitmaps, max_scale)[l],
        ),
{
    lemma_nested(f, rect, base, band, depth, bitmaps, max_scale, n);
}

/// Whether a box is the one of a node that names lead to from a folder whose
/// entries lie at a depth.
pub open spec fn is_box_of(
    b: BoxModel,
    base: Seq<Seq<char>>,
    depth: int,
    names: Seq<Seq<char>>,
    node: NodeModel,
) -> bool {
    &&& names.len() > 0
    &&& match node {
        NodeModel::File(f) => {
            &&& !b.is_folder
            &&& b.target == TargetModel::File(f.path)
            &&& b.color == lang::color_of(f.lang)
            &&& b.name == names.last()
        },
        NodeModel::Folder(g) => {
            &&& b.is_folder
            &&& b.target == TargetModel::Folder(base + names)
            &&& b.name == names.last() + "/"@
            &&& depth + names.len() <= u32::MAX ==> b.color == color::darkened(
                items::folder_color(g),
                nested::shade((depth + names.len() - 1) as u32),
            )
        },
    }
}

/// Whether a box is the one of something inside a folder.
pub open spec fn is_of_inside(
    b: BoxModel,
    f: FolderModel,
    base: Seq<Seq<char>>,
    depth: int,
) -> bool {
    exists|names: Seq<Seq<char>>, node: NodeModel|
        #[trigger] tree::leads_to(NodeModel::Folder(f), names, node) && is_box_of(
            b,
            base,
            depth,
            names,
            node,
        )
}

proof fn lemma_child(f: FolderModel, at: int, names: Seq<Seq<char>>, node: NodeModel)
    requires
        0 <= at < f.children.len(),
        tree::leads_to(f.children[at].1, names, node),
    ensures
        tree::leads_to(NodeModel::Folder(f), seq![f.children[at].0] + names, node),
{
    let all = seq![f.children[at].0] + names;
    let from = NodeModel::Folder(f);
    assert(all.drop_first() =~= names);
    assert(all[0] == from->Folder_0.children[at].0);
    assert(0 <= at < from->Folder_0.children.len() && from->Folder_0.children[at].0 == all[0]
        && tree::leads_to(from->Folder_0.children[at].1, all.drop_first(), node));
}

proof fn lemma_boxes_inside(
    f: FolderModel,
    tiles: Seq<Tile<usize>>,
    k: int,
    base: Seq<Seq<char>>,
    depth: u32,
    bitmaps: bool,
    max_scale: u16,
)
    requires
        0 <= k <= tiles.len(),
    ensures
        forall|j: int|
            0 <= j < nested::boxes(f, tiles, k, base, depth, bitmaps, max_scale).len()
                ==> is_of_inside(
                #[trigger] nested::boxes(f, tiles, k, base, depth, bitmaps, max_scale)[j],
                f,
                base,
                depth as int,
            ),
        forall|i: int|
            0 <= i < k && (#[trigger] tiles[i]).rect.width >= 3 && tiles[i].rect.height >= 3
                && tiles[i].data < f.children.len() ==> has_box(
                nested::boxes(f, tiles, k, base, depth, bitmaps, max_scale),
                base,
                depth as int,
                f.children[tiles[i].data as int],
                tiles[i].rect,
            ),
    decreases f, 0int, k,
{
    if k > 0 {
        let before = nested::boxes(f, tiles, k - 1, base, depth, bitmaps, max_scale);
        let bs = nested::boxes(f, tiles, k, base, depth, bitmaps, max_scale);
        let at = tiles[k - 1].data as int;
        lemma_boxes_inside(f, tiles, k - 1, base, depth, bitmaps, max_scale);
        if !layout::small(tiles[k - 1].rect) && at < f.children.len() {
            let e = f.children[at];
            let r = nested::without_gap(tiles[k - 1].rect);
            let own = nested::entry_box(e, r, base, depth, bitmaps, max_scale);
            let rest = match e.1 {
                NodeModel::File(_) => seq![],
                NodeModel::Folder(sub) => {
                    let l = label::folder_label(r, e.0 + "/"@, bitmaps, max_scale);
                    nested::nested(
                        sub,
                        r,
                        base.push(e.0),
                        l.2,
                        nested::deeper(depth),
                        bitmaps && l.0 is Some,
                        if l.0 is Some {
                            l.0->0
                        } else {
                            0
                        },
                    )
                },
            };
            assert(bs =~= before.push(own) + rest);
            let m = before.len() as int;
            assert forall|j: int| 0 <= j < bs.len() implies is_of_inside(
                #[trigger] bs[j],
                f,
                base,
                depth as int,
            ) by {
                if j < m {
                    assert(bs[j] == before[j]);
                } else if j == m {
                    let names = seq![e.0];
                    assert(tree::leads_to(e.1, Seq::<Seq<char>>::empty(), e.1));
                    lemma_child(f, at, seq![], e.1);
                    assert(seq![e.0] + Seq::<Seq<char>>::empty() =~= names);
                    assert(base + names =~= base.push(e.0));
                    assert(names.last() == e.0);
                    assert(is_box_of(own, base, depth as int, names, e.1));
                } else if let NodeModel::Folder(sub) = e.1 {
                    let l = label::folder_label(r, e.0 + "/"@, bitmaps, max_scale);
                    lemma_nested_inside(
                        sub,
                        r,
                        base.push(e.0),
                        l.2,
                        nested::deeper(depth),
                        bitmaps && l.0 is Some,
                        if l.0 is Some {
                            l.0->0
                        } else {
                            0
                        },
                    );
                    let b = rest[j - m - 1];
                    assert(bs[j] == b);
                    assert(is_of_inside(b, sub, base.push(e.0), nested::deeper(depth) as int));
                    let (names, node) = choose|names: Seq<Seq<char>>, node: NodeModel|
                        #[trigger] tree::leads_to(NodeModel::Folder(sub), names, node)
                            && is_box_of(
                            b,
                            base.push(e.0),
                            nested::deeper(depth) as int,
                            names,
                            node,
                        );
                    lemma_child(f, at, names, node);
                    let all = seq![e.0] + names;
                    assert(base + all =~= base.push(e.0) + names);
                    assert(all.last() == names.last());
                    assert(is_box_of(b, base, depth as int, all, node));
                }
            }
            assert forall|i: int|
                0 <= i < k && (#[trigger] tiles[i]).rect.width >= 3 && tiles[i].rect.height >= 3
                    && tiles[i].data < f.children.len() implies has_box(
                bs,
                base,
                depth as int,
                f.children[tiles[i].data as int],
                tiles[i].rect,
            ) by {
                let c = f.children[tiles[i].data as int];
                if i < k - 1 {
                    assert(has_box(before, base, depth as int, c, tiles[i].rect));
                    let j = choose|j: int|
                        0 <= j < before.len() && fits_tile(
                            #[trigger] before[j],
                            base,
                            depth as int,
                            c,
                            tiles[i].rect,
                        );
                    assert(bs[j] == before[j]);
                } else {
                    assert(bs[m] == own);
                    assert(base + seq![e.0] =~= base.push(e.0));
                    assert(seq![e.0].last() == e.0);
                    assert(fits_tile(bs[m], base, depth as int, c, tiles[i].rect));
                }
            }
        } else {
            assert forall|i: int|
                0 <= i < k && (#[trigger] tiles[i]).rect.width >= 3 && tiles[i].rect.height >= 3
                    && tiles[i].data < f.children.len() implies has_box(
                bs,
                base,
                depth as int,
                f.children[tiles[i].data as int],
                tiles[i].rect,
            ) by {
                assert(i < k - 1);
            }
        }
    }
}

/// Whether a box is the one of an entry, in its tile but for the gap.
pub open spec fn fits_tile(
    b: BoxModel,
    base: Seq<Seq<char>>,
    depth: int,
    e: (Seq<char>, NodeModel),
    tile: Rect,
) -> bool {
    &&& is_box_of(b, base, depth, seq![e.0], e.1)
    &&& b.rect.top == tile.top && b.rect.left == tile.left
    &&& b.rect.width == tile.width - 1 && b.rect.height == tile.height - 1
}

/// Whether one of the boxes is the one of an entry, in its tile but for the gap.
pub open spec fn has_box(
    bs: Seq<BoxModel>,
    base: Seq<Seq<char>>,
    depth: int,
    e: (Seq<char>, NodeModel),
    tile: Rect,
) -> bool {
    exists|j: int| 0 <= j < bs.len() && fits_tile(#[trigger] bs[j], base, depth, e, tile)
}

proof fn lemma_nested_inside(
    f: FolderModel,
    rect: Rect,
    base: Seq<Seq<char>>,
    band: u16,
    depth: u32,
    bitmaps: bool,
    max_scale: u16,
)
    ensures
        forall|j: int|
            0 <= j < nested::nested(f, rect, base, band, depth, bitmaps, max_scale).len()
                ==> is_of_inside(
                #[trigger] nested::nested(f, rect, base, band, depth, bitmaps, max_scale)[j],
                f,
                base,
                depth as int,
            ),
    decreases f, 1int, 0int,
{
    if nested::has_inside(rect, band, depth) {
        let values = nested::lines_of(f.children);
        let order = nested::nonzero(values, order::ranking(values));
        let tiles = layout::settled(values, order, nested::inside(rect, band, depth)).tiles;
        lemma_boxes_inside(f, tiles, tiles.len() as int, base, depth, bitmaps, max_scale);
        let bs = nested::boxes(f, tiles, tiles.len() as int, base, depth, bitmaps, max_scale);
        let all = nested::nested(f, rect, base, band, depth, bitmaps, max_scale);
        assert(all == bs);
        assert forall|j: int| 0 <= j < all.len() implies is_of_inside(
            #[trigger] all[j],
            f,
            base,
            depth as int,
        ) by {
            assert(is_of_inside(bs[j], f, base, depth as int));
        }
    }
}

/// In the nested view every box stands for a folder or a file that lies inside
/// the folder that is shown, however deep, under its name; a file has the colour
/// of its language, and a folder that of its dominant language, one shade darker
/// with each step down.
pub proof fn boxes_stand_for_what_is_inside(
    f: FolderModel,
    rect: Rect,
    base: Seq<Seq<char>>,
    band: u16,
    depth: u32,
    bitmaps: bool,
    max_scale: u16,
    k: int,
)
    requires
        0 <= k < nested::nested(f, rect, base, band, depth, bitmaps, max_scale).len(),
    ensures
        is_of_inside(
            nested::nested(f, rect, base, band, depth, bitmaps, max_scale)[k],
            f,
            base,
            depth as int,
        ),
{
    lemma_nested_inside(f, rect, base, band, depth, bitmaps, max_scale);
}

/// In the nested view every entry of the folder whose tile is large enough has
/// its box there; the tiles are the layout of all entries that have lines.
pub proof fn entries_have_their_boxes(
    f: FolderModel,
    rect: Rect,
    base: Seq<Seq<char>>,
    bitmaps: bool,
    max_scale: u16,
    i: int,
)
    requires
        rect.width > 0,
        rect.height > 0,
        ({
            let values = nested::lines_of(f.children);
            let tiles = layout::settled(
                values,
                nested::nonzero(values, order::ranking(values)),
                rect,
            ).tiles;
            &&& 0 <= i < tiles.len()
            &&& tiles[i].rect.width >= 3 && tiles[i].rect.height >= 3
            &&& tiles[i].data < f.children.len()
        }),
    ensures
        ({
            let values = nested::lines_of(f.children);
            let tiles = layout::settled(
                values,
                nested::nonzero(values, order::ranking(values)),
                rect,
            ).tiles;
            has_box(
                nested::nested(f, rect, base, 0, 0, bitmaps, max_scale),
                base,
                0,
                f.children[tiles[i].data as int],
                tiles[i].rect,
            )
        }),
{
    let values = nested::lines_of(f.children);
    let order = nested::nonzero(values, order::ranking(values));
    let tiles = layout::settled(values, order, nested::inside(rect, 0, 0)).tiles;
    lemma_boxes_inside(f, tiles, tiles.len() as int, base, 0, bitmaps, max_scale);
    assert(nested::has_inside(rect, 0, 0));
}

proof fn lemma_nonzero_all(values: Seq<u64>, at: Seq<usize>, i: int)
    requires
        0 <= i < at.len(),
    ensures
        values[at[i] as int] > 0 ==> nested::nonzero(values, at).contains(at[i]),
    decreases at.len(),
{
    let less = at.drop_last();
    let before = nested::nonzero(values, less);
    let now = nested::nonzero(values, at);
    if values[at[i] as int] > 0 {
        if i < less.len() {
            assert(less[i] == at[i]);
            lemma_nonzero_all(values, less, i);
            let k = choose|k: int| 0 <= k < before.len() && before[k] == less[i];
            assert(now[k] == at[i]);
        } else {
            assert(now[before.len() as int] == at[i]);
        }
    }
}

/// Every entry that has lines is laid out in the nested view.
pub proof fn entries_with_lines_are_laid_out(f: FolderModel, k: int)
    requires
        0 <= k < f.children.len() <= usize::MAX,
        match f.children[k].1 {
            NodeModel::File(x) => x.lines > 0,
            NodeModel::Folder(x) => x.total_lines > 0,
        },
    ensures
        ({
            let values = nested::lines_of(f.children);
            nested::nonzero(values, order::ranking(values)).contains(k as usize)
        }),
        nested::lines_of(f.children)[k] == match f.children[k].1 {
            NodeModel::File(x) => x.lines,
            NodeModel::Folder(x) => x.total_lines,
        },
{
    let values = nested::lines_of(f.children);
    let p = order::ranking(values);
    order::lemma_ranking_exists(values);
    order::lemma_ranking_covers(values, p, k);
    let i = choose|i: int| 0 <= i < p.len() && p[i] == k;
    lemma_nonzero_all(values, p, i);
}

// ── what can be hit ─────────────────────────────────────────────────────────

/// A cell of the screen belongs to what a click on a tile hits exactly if one
/// of its two sub-cells belongs to the tile.
pub proof fn painted_cells_are_hit(r: Rect, inner: Rect, row: int, col: int)
    requires
        r.lies_in(panel_area(inner)),
        r.height > 0,
        inner.addressable(),
        inner.height <= 32767,
    ensures
        panel::hit_rect(r, inner).covers(inner.top + row, inner.left + col) <==> r.covers(
            2 * row,
            col,
        ) || r.covers(2 * row + 1, col),
{
}

proof fn lemma_hit_inside(r: Rect, inner: Rect)
    requires
        r.lies_in(panel_area(inner)),
        inner.addressable(),
        inner.height <= 32767,
    ensures
        panel::hit_rect(r, inner).lies_in(inner),
{
}

/// In the flat views only cells of the panel can be hit.
pub proof fn flat_hits_stay_in_the_panel(its: Seq<ItemModel>, inner: Rect, k: int)
    requires
        inner.addressable(),
        inner.width < u16::MAX,
        inner.height <= 32767,
        tile_bounds::bounded(
            layout::laid_out_in(items::values_of(its), inner).len(),
            inflated(inner),
        ),
        0 <= k < layout::flat(items::values_of(its), inner).tiles.len(),
    ensures
        panel::item_hits(its, layout::flat(items::values_of(its), inner).tiles, inner)[k].0.lies_in(
            inner,
        ),
{
    let tiles = layout::flat(items::values_of(its), inner).tiles;
    flat_tiles_stay_in_the_panel(items::values_of(its), inner);
    assert(nested::without_gap(tiles[k].rect).lies_in(panel_area(inner)));
    lemma_hit_inside(nested::without_gap(tiles[k].rect), inner);
}

/// In the nested view all boxes lie in the panel, and only cells of the panel
/// can be hit.
pub proof fn nested_hits_stay_in_the_panel(m: AppModel, inner: Rect, n: nat, k: int)
    requires
        inner.addressable(),
        inner.width < u16::MAX,
        inner.height <= 32767,
        at_most_entries(m.folder(), n),
        tile_bounds::bounded(n, inflated(inner)),
        0 <= k < panel::boxes_of(m, inner).len(),
    ensures
        panel::boxes_of(m, inner)[k].rect.lies_in(panel_area(inner)),
        panel::box_hits(panel::boxes_of(m, inner), inner)[k].0.lies_in(inner),
{
    boxes_stay_inside(
        m.folder(),
        panel::nested_area(inner),
        m.current_path,
        0,
        0,
        label::has_bitmaps(inner),
        label::scale_limit(inner),
        n,
        k,
    );
    lemma_hit_inside(panel::boxes_of(m, inner)[k].rect, inner);
}

proof fn lemma_all_visible(tiles: Seq<Tile<usize>>)
    requires
        forall|j: int|
            0 <= j < tiles.len() ==> (#[trigger] tiles[j]).rect.width >= 3 && tiles[j].rect.height
                >= 3,
    ensures
        layout::visible(tiles) == tiles,
    decreases tiles.len(),
{
    if tiles.len() > 0 {
        let less = tiles.drop_last();
        assert forall|j: int| 0 <= j < less.len() implies (#[trigger] less[j]).rect.width >= 3
            && less[j].rect.height >= 3 by {
            assert(less[j] == tiles[j]);
        }
        lemma_all_visible(less);
        assert(tiles.last() == tiles[tiles.len() - 1]);
        assert(less.push(tiles.last()) =~= tiles);
    } else {
        assert(layout::visible(tiles) =~= tiles);
    }
}

/// In the flat views the tiles, with their gaps, take up the whole panel and one
/// sub-cell more to the right and below, where none comes out too small at once:
/// no part of the panel is left empty.
pub proof fn flat_tiles_cover_the_panel(values: Seq<u64>, inner: Rect, row: int, col: int)
    requires
        inner.width < u16::MAX,
        0 < inner.width,
        0 < inner.height <= 32766,
        values.len() <= usize::MAX,
        layout::laid_out_in(values, inner).len() > 0,
        ({
            let whole = Rect {
                top: 0,
                left: 0,
                width: (inner.width + 1) as u16,
                height: (2 * inner.height + 1) as u16,
            };
            let at = layout::laid_out_in(values, inner);
            &&& tile_bounds::bounded(at.len(), whole)
            &&& forall|j: int|
                0 <= j < layout::tiles_of(values, at, whole).len() ==> (#[trigger] layout::tiles_of(
                    values,
                    at,
                    whole,
                )[j]).rect.width >= 3 && layout::tiles_of(values, at, whole)[j].rect.height >= 3
        }),
        0 <= row <= 2 * inner.height,
        0 <= col <= inner.width,
    ensures
        exists|j: int|
            0 <= j < layout::flat(values, inner).tiles.len() && (#[trigger] layout::flat(
                values,
                inner,
            ).tiles[j]).rect.covers(row, col),
        layout::flat(values, inner).excluded == 0,
{
    let whole = Rect {
        top: 0,
        left: 0,
        width: (inner.width + 1) as u16,
        height: (2 * inner.height + 1) as u16,
    };
    let at = layout::laid_out_in(values, inner);
    let total = order::sum(values);
    let area = inner.width * layout::doubled(inner.height);
    let least = layout::least_value(total, area);
    let p = order::ranking(values);
    order::lemma_ranking_exists(values);
    lemma_large_enough_below(values, p, least);
    layout::nothing_is_left_out_without_need(values, at, whole);
    let tiles = layout::tiles_of(values, at, whole);
    lemma_all_visible(tiles);
    assert(layout::flat(values, inner).tiles == tiles);
    let ns = layout::picks(values, at);
    assert(ns[0] == values[at[0] as int]);
    tile_rows::something_is_laid_out(ns, whole, 0);
    tile_cover::tiles_cover_the_area(ns, whole, row, col);
    let sq = treemap::squarified(treemap::of_ints(ns), whole);
    let j = choose|j: int| 0 <= j < sq.len() && #[trigger] sq[j].rect.covers(row, col);
    assert(tiles[j].rect == sq[j].rect);
}

proof fn lemma_large_enough_below(values: Seq<u64>, at: Seq<usize>, least: Double)
    requires
        layout::below(at, values.len() as int),
    ensures
        layout::below(layout::large_enough(values, at, least), values.len() as int),
        layout::large_enough(values, at, least).len() <= at.len(),
        forall|i: int|
            0 <= i < layout::large_enough(values, at, least).len()
                ==> values[#[trigger] layout::large_enough(values, at, least)[i] as int] > 0,
    decreases at.len(),
{
    if at.len() > 0 {
        let less = at.drop_last();
        assert(layout::below(less, values.len() as int)) by {
            assert forall|i: int| 0 <= i < less.len() implies (#[trigger] less[i]) < values.len() by {
                assert(at[i] < values.len());
            }
        }
        lemma_large_enough_below(values, less, least);
        assert(at[at.len() - 1] == at.last());
        let before = layout::large_enough(values, less, least);
        let now = layout::large_enough(values, at, least);
        assert forall|i: int| 0 <= i < now.len() implies (#[trigger] now[i]) < values.len()
            && values[now[i] as int] > 0 by {
            if i < before.len() {
                assert(now[i] == before[i]);
            }
        }
    }
}

} // verus!
