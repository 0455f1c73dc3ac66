//! Laying out tiles so that none is too small to see.

use vstd::prelude::*;

use crate::double;
use crate::double::Double;
use crate::grid::Rect;
use crate::order;
use crate::treemap;
use crate::treemap::{Item, Tile};

verus! {

/// The gap between tiles.
pub const GAP_SUBCELLS: u16 = 1;

/// Tiles that are narrower or lower than this are left out.
pub const MIN_TILE_SUBCELLS: u16 = 3;

/// How often the layout is tried without the tiles that came out too small.
pub const MAX_LAYOUT_PASSES: u32 = 16;

/// Whether a tile is too small.
pub open spec fn small(r: Rect) -> bool {
    r.width < MIN_TILE_SUBCELLS || r.height < MIN_TILE_SUBCELLS
}

/// The positions in `order` that are not left out.
pub open spec fn active(order: Seq<usize>, out: Seq<bool>) -> Seq<usize>
    decreases order.len(),
{
    if order.len() == 0 {
        seq![]
    } else {
        let before = active(order.drop_last(), out);
        if out[order.last() as int] {
            before
        } else {
            before.push(order.last())
        }
    }
}

/// The values at positions.
pub open spec fn picks(values: Seq<u64>, at: Seq<usize>) -> Seq<u64> {
    at.map_values(|i: usize| values[i as int])
}

/// The tiles of the values at positions, with the positions as data.
pub open spec fn tiles_of(values: Seq<u64>, at: Seq<usize>, area: Rect) -> Seq<Tile<usize>> {
    treemap::squarified(treemap::of_ints(picks(values, at)), area).map_values(
        |t: Tile<usize>| Tile { rect: t.rect, data: at[t.data as int] },
    )
}

/// What is left out once the first `k` tiles were looked at.
pub open spec fn marked(out: Seq<bool>, tiles: Seq<Tile<usize>>, k: int) -> Seq<bool>
    decreases k,
{
    if k <= 0 {
        out
    } else {
        let before = marked(out, tiles, k - 1);
        if small(tiles[k - 1].rect) {
            before.update(tiles[k - 1].data as int, true)
        } else {
            before
        }
    }
}

/// How many are left out.
pub open spec fn count_true(out: Seq<bool>) -> int
    decreases out.len(),
{
    if out.len() == 0 {
        0
    } else {
        count_true(out.drop_last()) + if out.last() {
            1int
        } else {
            0int
        }
    }
}

/// A layout, and how it was found.
#[verifier::ext_equal]
pub struct Settled {
    pub tiles: Seq<Tile<usize>>,
    pub iters: int,
    pub excluded: int,
}

/// The layout after at most `left` more passes.
pub open spec fn settled_from(
    values: Seq<u64>,
    order: Seq<usize>,
    area: Rect,
    out: Seq<bool>,
    tiles: Seq<Tile<usize>>,
    iters: int,
    left: int,
) -> Settled
    decreases left,
{
    let now = active(order, out);
    if left <= 0 {
        Settled { tiles, iters, excluded: count_true(out) }
    } else if now.len() == 0 {
        Settled { tiles, iters: iters + 1, excluded: count_true(out) }
    } else {
        let new = tiles_of(values, now, area);
        let fewer = marked(out, new, new.len() as int);
        if count_true(fewer) == count_true(out) {
            Settled { tiles: new, iters: iters + 1, excluded: count_true(out) }
        } else {
            settled_from(values, order, area, fewer, new, iters + 1, left - 1)
        }
    }
}

/// The layout of the values at the positions of `order`: laid out again
/// without the tiles that come out too small, until none does.
pub open spec fn settled(values: Seq<u64>, order: Seq<usize>, area: Rect) -> Settled {
    if order.len() == 0 {
        Settled { tiles: seq![], iters: 0, excluded: 0 }
    } else {
        settled_from(
            values,
            order,
            area,
            Seq::new(values.len(), |i: int| false),
            seq![],
            0,
            MAX_LAYOUT_PASSES as int,
        )
    }
}

/// Whether `at` holds positions below `n`.
pub open spec fn below(at: Seq<usize>, n: int) -> bool {
    forall|i: int| 0 <= i < at.len() ==> (#[trigger] at[i]) < n
}

/// Whether the data of tiles are positions below `n`.
pub open spec fn data_below(tiles: Seq<Tile<usize>>, n: int) -> bool {
    forall|i: int| 0 <= i < tiles.len() ==> (#[trigger] tiles[i]).data < n
}

proof fn lemma_count_true(out: Seq<bool>)
    ensures
        0 <= count_true(out) <= out.len(),
    decreases out.len(),
{
    if out.len() > 0 {
        lemma_count_true(out.drop_last());
    }
}

proof fn lemma_count_true_set(out: Seq<bool>, i: int)
    requires
        0 <= i < out.len(),
    ensures
        count_true(out.update(i, true)) == count_true(out) + if out[i] {
            0int
        } else {
            1int
        },
    decreases out.len(),
{
    let new = out.update(i, true);
    if i == out.len() - 1 {
        assert(new.drop_last() =~= out.drop_last());
    } else {
        assert(new.drop_last() =~= out.drop_last().update(i, true));
        lemma_count_true_set(out.drop_last(), i);
    }
}

proof fn lemma_none_true(n: nat)
    ensures
        count_true(Seq::new(n, |i: int| false)) == 0,
    decreases n,
{
    if n > 0 {
        let s = Seq::new(n, |i: int| false);
        assert(s.drop_last() =~= Seq::new((n - 1) as nat, |i: int| false));
        lemma_none_true((n - 1) as nat);
    }
}

/// One pass: the tiles of what is not left out. `None` where all is.
fn one_pass(values: &Vec<u64>, order: &Vec<usize>, area: Rect, out: &Vec<bool>) -> (r: Option<
    Vec<Tile<usize>>,
>)
    requires
        below(order@, values@.len() as int),
        out@.len() == values@.len(),
    ensures
        r is None <==> active(order@, out@).len() == 0,
        r is Some ==> r->0@ == tiles_of(values@, active(order@, out@), area),
        r is Some ==> data_below(r->0@, values@.len() as int),
{
    let ghost now = active(order@, out@);
    let mut items: Vec<Item<usize>> = Vec::new();
    let mut i: usize = 0;
    proof {
        assert(order@.take(0) =~= seq![]);
    }
    while i < order.len()
        invariant
            i <= order@.len(),
            below(order@, values@.len() as int),
            out@.len() == values@.len(),
            items@.len() == active(order@.take(i as int), out@).len(),
            forall|k: int|
                0 <= k < items@.len() ==> (#[trigger] items@[k]).data == active(
                    order@.take(i as int),
                    out@,
                )[k] && items@[k].value == double::of_int(values@[items@[k].data as int] as nat)
                    && items@[k].data < values@.len(),
        decreases order@.len() - i,
    {
        let at: usize = order[i];
        proof {
            assert(order@.take(i + 1).drop_last() =~= order@.take(i as int));
            assert(order@.take(i + 1).last() == at);
        }
        if !out[at] {
            items.push(Item { value: Double::of(values[at]), data: at });
        }
        i = i + 1;
    }
    proof {
        assert(order@.take(order@.len() as int) =~= order@);
    }
    if items.len() == 0 {
        return None;
    }
    let ghost vs = treemap::of_ints(picks(values@, now));
    proof {
        treemap::lemma_integers_comparable(picks(values@, now), area);
        assert(treemap::values_of(items@) =~= vs);
    }
    let mut tiles: Vec<Tile<usize>> = Vec::new();
    treemap::squarify_into(items.as_slice(), area, &mut tiles);
    proof {
        let want = tiles_of(values@, now, area);
        assert forall|k: int| 0 <= k < tiles@.len() implies tiles@[k] == want[k] && (
        #[trigger] tiles@[k]).data < values@.len() by {
            let tile = treemap::squarified(vs, area)[k];
            assert(cloned(items@[tile.data as int].data, tiles@[k].data));
            assert(items@[tile.data as int].data == now[tile.data as int]);
        }
        assert(tiles@ =~= want);
    }
    Some(tiles)
}

/// Lays out the values at the positions of `order`.
pub fn settle(values: &Vec<u64>, order: &Vec<usize>, area: Rect) -> (r: (
    Vec<Tile<usize>>,
    u32,
    usize,
))
    requires
        below(order@, values@.len() as int),
    ensures
        r.0@ == settled(values@, order@, area).tiles,
        r.1 == settled(values@, order@, area).iters,
        r.2 == settled(values@, order@, area).excluded,
        data_below(r.0@, values@.len() as int),
        r.1 <= MAX_LAYOUT_PASSES,
{
    let n: usize = values.len();
    let mut tiles: Vec<Tile<usize>> = Vec::new();
    if order.len() == 0 {
        return (tiles, 0, 0);
    }
    let mut out: Vec<bool> = Vec::new();
    let mut i: usize = 0;
    while i < n
        invariant
            i <= n,
            out@ =~= Seq::new(i as nat, |k: int| false),
        decreases n - i,
    {
        out.push(false);
        i = i + 1;
    }
    proof {
        lemma_none_true(n as nat);
    }
    let mut iters: u32 = 0;
    let mut count: usize = 0;
    let mut left: u32 = MAX_LAYOUT_PASSES;
    while left > 0
        invariant
            left <= MAX_LAYOUT_PASSES,
            iters == MAX_LAYOUT_PASSES - left,
            n == values@.len(),
            order@.len() > 0,
            below(order@, n as int),
            out@.len() == n,
            data_below(tiles@, n as int),
            count == count_true(out@),
            settled(values@, order@, area) == settled_from(
                values@,
                order@,
                area,
                out@,
                tiles@,
                iters as int,
                left as int,
            ),
        decreases left,
    {
        let new = match one_pass(values, order, area, &out) {
            Some(t) => t,
            None => {
                return (tiles, iters + 1, count);
            },
        };
        let before: usize = count;
        let ghost out0 = out@;
        let mut k: usize = 0;
        while k < new.len()
            invariant
                k <= new@.len(),
                n == values@.len() == out@.len(),
                data_below(new@, n as int),
                out@ == marked(out0, new@, k as int),
                count == count_true(out@),
            decreases new@.len() - k,
        {
            let at: usize = new[k].data;
            if new[k].rect.width < MIN_TILE_SUBCELLS || new[k].rect.height < MIN_TILE_SUBCELLS {
                proof {
                    lemma_count_true_set(out@, at as int);
                    lemma_count_true(out@.update(at as int, true));
                    if out@[at as int] {
                        assert(out@.update(at as int, true) =~= out@);
                    }
                }
                if !out[at] {
                    out.set(at, true);
                    count = count + 1;
                }
            }
            k = k + 1;
        }
        tiles = new;
        iters = iters + 1;
        if count == before {
            return (tiles, iters, count);
        }
        left = left - 1;
    }
    (tiles, iters, count)
}

/// Twice a height, or the most that fits.
pub open spec fn doubled(h: u16) -> u16 {
    if h > 32767 {
        65535
    } else {
        (2 * h) as u16
    }
}

/// The least value that is laid out: what a tile of the least size stands
/// for, and at least one.
pub open spec fn least_value(total: int, area: int) -> Double {
    double::larger(
        double::product_of(
            double::quotient_of(double::of_int(total as nat), double::of_int(area as nat)),
            double::of_int(9),
        ),
        double::of_int(1),
    )
}

/// The positions in `at` whose values are laid out.
pub open spec fn large_enough(values: Seq<u64>, at: Seq<usize>, least: Double) -> Seq<usize>
    decreases at.len(),
{
    if at.len() == 0 {
        seq![]
    } else {
        let before = large_enough(values, at.drop_last(), least);
        let v = values[at.last() as int];
        if v > 0 && double::at_most(least, double::of_int(v as nat)) {
            before.push(at.last())
        } else {
            before
        }
    }
}

/// The tiles that are not too small.
pub open spec fn visible(tiles: Seq<Tile<usize>>) -> Seq<Tile<usize>>
    decreases tiles.len(),
{
    if tiles.len() == 0 {
        seq![]
    } else {
        let before = visible(tiles.drop_last());
        if small(tiles.last().rect) {
            before
        } else {
            before.push(tiles.last())
        }
    }
}

/// The positions of the values that are laid out in a panel, largest first.
pub open spec fn laid_out_in(values: Seq<u64>, inner: Rect) -> Seq<usize> {
    let total = order::sum(values);
    let area = inner.width * doubled(inner.height);
    if total == 0 || area == 0 {
        seq![]
    } else {
        large_enough(values, order::ranking(values), least_value(total, area))
    }
}

/// The layout of all values in a panel: one gap wider and higher than the
/// panel, so that the tiles at the edge reach it once their gap is taken off.
pub open spec fn flat(values: Seq<u64>, inner: Rect) -> Settled {
    let whole = Rect {
        top: 0,
        left: 0,
        width: (inner.width + GAP_SUBCELLS) as u16,
        height: (doubled(inner.height) + GAP_SUBCELLS) as u16,
    };
    let s = settled(values, laid_out_in(values, inner), whole);
    Settled { tiles: visible(s.tiles), ..s }
}

/// Picks the values that are worth a tile in a panel.
pub fn pick(values: &Vec<u64>, inner: Rect) -> (r: Vec<usize>)
    requires
        order::sum(values@) <= u64::MAX,
        inner.height <= 32767,
    ensures
        r@ == laid_out_in(values@, inner),
        below(r@, values@.len() as int),
{
    let cols: u16 = inner.width;
    let rows: u16 = 2 * inner.height;
    proof {
        assert(cols * rows <= 65535 * 65535) by (nonlinear_arith)
            requires
                cols <= 65535,
                rows <= 65535,
        ;
        assert(cols * rows >= 0) by (nonlinear_arith);
    }
    let area: u64 = cols as u64 * rows as u64;
    let mut total: u64 = 0;
    let mut i: usize = 0;
    proof {
        assert(values@.take(0) =~= seq![]);
    }
    while i < values.len()
        invariant
            i <= values@.len(),
            order::sum(values@) <= u64::MAX,
            total == order::sum(values@.take(i as int)),
        decreases values@.len() - i,
    {
        proof {
            assert(values@.take(i + 1).drop_last() =~= values@.take(i as int));
            assert(values@.take(i + 1).last() == values@[i as int]);
            order::lemma_sum_prefix(values@, i + 1);
        }
        total = total + values[i];
        i = i + 1;
    }
    proof {
        assert(values@.take(values@.len() as int) =~= values@);
    }
    if total == 0 || area == 0 {
        return Vec::new();
    }
    let least = Double::of(total).over(Double::of(area)).times(Double::of(9)).max(Double::of(1));
    let all = order::rank(values);
    let mut order: Vec<usize> = Vec::new();
    i = 0;
    proof {
        assert(all@.take(0) =~= seq![]);
    }
    while i < all.len()
        invariant
            i <= all@.len() == values@.len(),
            order::is_ranking(values@, all@),
            least.wf(),
            order@ =~= large_enough(values@, all@.take(i as int), least),
            below(order@, values@.len() as int),
        decreases all@.len() - i,
    {
        let at: usize = all[i];
        proof {
            assert(all@.take(i + 1).drop_last() =~= all@.take(i as int));
            assert(all@.take(i + 1).last() == at);
        }
        let v: u64 = values[at];
        if v > 0 && least.le(Double::of(v)) {
            order.push(at);
        }
        i = i + 1;
    }
    proof {
        assert(all@.take(all@.len() as int) =~= all@);
    }
    order
}

/// Lays out the values that were picked for a panel.
pub fn lay_out(values: &Vec<u64>, order: &Vec<usize>, inner: Rect) -> (r: (
    Vec<Tile<usize>>,
    u32,
    usize,
))
    requires
        order@ == laid_out_in(values@, inner),
        below(order@, values@.len() as int),
        inner.width < 65535,
        inner.height <= 32767,
    ensures
        r.0@ == flat(values@, inner).tiles,
        r.1 == flat(values@, inner).iters,
        r.2 == flat(values@, inner).excluded,
        data_below(r.0@, values@.len() as int),
        forall|i: int| 0 <= i < r.0@.len() ==> !small((#[trigger] r.0@[i]).rect),
{
    let whole = Rect::new(0, 0, inner.width + GAP_SUBCELLS, 2 * inner.height + GAP_SUBCELLS);
    let (tiles, iters, excluded) = settle(values, order, whole);
    let mut kept: Vec<Tile<usize>> = Vec::new();
    let mut k: usize = 0;
    proof {
        assert(tiles@.take(0) =~= seq![]);
    }
    while k < tiles.len()
        invariant
            k <= tiles@.len(),
            data_below(tiles@, values@.len() as int),
            kept@ =~= visible(tiles@.take(k as int)),
            data_below(kept@, values@.len() as int),
            forall|i: int| 0 <= i < kept@.len() ==> !small((#[trigger] kept@[i]).rect),
        decreases tiles@.len() - k,
    {
        proof {
            assert(tiles@.take(k + 1).drop_last() =~= tiles@.take(k as int));
            assert(tiles@.take(k + 1).last() == tiles@[k as int]);
        }
        if tiles[k].rect.width >= MIN_TILE_SUBCELLS && tiles[k].rect.height >= MIN_TILE_SUBCELLS {
            kept.push(Tile { rect: tiles[k].rect, data: tiles[k].data });
        }
        k = k + 1;
    }
    proof {
        assert(tiles@.take(tiles@.len() as int) =~= tiles@);
    }
    (kept, iters, excluded)
}

/// Lays out all values in a panel.
pub fn layout_tiles(values: &Vec<u64>, inner: Rect) -> (r: (Vec<Tile<usize>>, u32, usize))
    requires
        order::sum(values@) <= u64::MAX,
        inner.width < 65535,
        inner.height <= 32767,
    ensures
        r.0@ == flat(values@, inner).tiles,
        r.1 == flat(values@, inner).iters,
        r.2 == flat(values@, inner).excluded,
        data_below(r.0@, values@.len() as int),
        forall|i: int| 0 <= i < r.0@.len() ==> !small((#[trigger] r.0@[i]).rect),
{
    let order = pick(values, inner);
    lay_out(values, &order, inner)
}

// ── what is left out ────────────────────────────────────────────────────────

/// Whether all positions of `at` are among those of `order`.
pub open spec fn drawn_from(at: Seq<usize>, order: Seq<usize>) -> bool {
    forall|i: int| 0 <= i < at.len() ==> order.contains(#[trigger] at[i])
}

/// Whether the tile of a position comes out narrower or lower than three
/// sub-cells when the positions of `at` are laid out.
pub open spec fn comes_out_small(values: Seq<u64>, at: Seq<usize>, area: Rect, v: usize) -> bool {
    exists|j: int|
        0 <= j < tiles_of(values, at, area).len() && {
            let t = #[trigger] tiles_of(values, at, area)[j];
            t.data == v && (t.rect.width < 3 || t.rect.height < 3)
        }
}

/// Whether the tile of a position comes out small when some of the positions of
/// `order` are laid out.
pub open spec fn once_small(values: Seq<u64>, order: Seq<usize>, area: Rect, v: usize) -> bool {
    exists|at: Seq<usize>|
        drawn_from(at, order) && #[trigger] comes_out_small(values, at, area, v)
}

proof fn lemma_active(order: Seq<usize>, out: Seq<bool>, n: int)
    requires
        below(order, n),
        out.len() == n,
    ensures
        drawn_from(active(order, out), order),
        forall|i: int|
            0 <= i < active(order, out).len() ==> !out[(#[trigger] active(order, out)[i]) as int],
        forall|i: int|
            0 <= i < order.len() && !out[(#[trigger] order[i]) as int] ==> active(
                order,
                out,
            ).contains(order[i]),
    decreases order.len(),
{
    if order.len() > 0 {
        let less = order.drop_last();
        let before = active(less, out);
        let now = active(order, out);
        assert(below(less, n)) by {
            assert forall|i: int| 0 <= i < less.len() implies (#[trigger] less[i]) < n by {
                assert(order[i] < n);
            }
        }
        lemma_active(less, out, n);
        assert forall|i: int| 0 <= i < now.len() implies order.contains(#[trigger] now[i])
            && !out[now[i] as int] by {
            if i < before.len() {
                assert(less.contains(before[i]));
                let k = choose|k: int| 0 <= k < less.len() && less[k] == before[i];
                assert(order[k] == now[i]);
            } else {
                assert(order[order.len() - 1] == now[i]);
            }
        }
        assert forall|i: int| 0 <= i < order.len() && !out[(#[trigger] order[i]) as int] implies
            now.contains(order[i]) by {
            if i < less.len() {
                assert(less[i] == order[i]);
                let k = choose|k: int| 0 <= k < before.len() && before[k] == less[i];
                assert(now[k] == order[i]);
            } else {
                assert(now[before.len() as int] == order[i]);
            }
        }
    }
}

proof fn lemma_marked(out: Seq<bool>, tiles: Seq<Tile<usize>>, k: int)
    requires
        0 <= k <= tiles.len(),
        data_below(tiles, out.len() as int),
    ensures
        marked(out, tiles, k).len() == out.len(),
        count_true(marked(out, tiles, k)) >= count_true(out),
        forall|v: int| 0 <= v < out.len() && out[v] ==> #[trigger] marked(out, tiles, k)[v],
        forall|v: int|
            0 <= v < out.len() && #[trigger] marked(out, tiles, k)[v] && !out[v] ==> exists|j: int|
                0 <= j < k && (#[trigger] tiles[j]).data == v && small(tiles[j].rect),
        (exists|j: int|
            0 <= j < k && small((#[trigger] tiles[j]).rect) && !out[tiles[j].data as int])
            ==> count_true(marked(out, tiles, k)) > count_true(out),
    decreases k,
{
    if k > 0 {
        lemma_marked(out, tiles, k - 1);
        let before = marked(out, tiles, k - 1);
        let now = marked(out, tiles, k);
        let at = tiles[k - 1].data as int;
        assert(at < out.len());
        lemma_count_true_set(before, at);
        assert forall|v: int| 0 <= v < out.len() && #[trigger] now[v] && !out[v] implies exists|
            j: int,
        |
            0 <= j < k && (#[trigger] tiles[j]).data == v && small(tiles[j].rect) by {
            if before[v] {
                let j = choose|j: int|
                    0 <= j < k - 1 && (#[trigger] tiles[j]).data == v && small(tiles[j].rect);
                assert(tiles[j].data == v);
            } else {
                assert(tiles[k - 1].data == v);
            }
        }
        if exists|j: int|
            0 <= j < k && small((#[trigger] tiles[j]).rect) && !out[tiles[j].data as int] {
            let j = choose|j: int|
                0 <= j < k && small((#[trigger] tiles[j]).rect) && !out[tiles[j].data as int];
            if j < k - 1 {
                assert(small(tiles[j].rect) && !out[tiles[j].data as int]);
            } else if before[at] {
                let l = choose|l: int|
                    0 <= l < k - 1 && (#[trigger] tiles[l]).data == at && small(tiles[l].rect);
                assert(small(tiles[l].rect) && !out[tiles[l].data as int]);
            }
        }
    }
}

/// The data of tiles are positions that were laid out.
proof fn lemma_tiles_data(values: Seq<u64>, at: Seq<usize>, area: Rect, n: int)
    requires
        below(at, n),
        at.len() <= usize::MAX,
    ensures
        data_below(tiles_of(values, at, area), n),
        forall|j: int|
            0 <= j < tiles_of(values, at, area).len() ==> at.contains(
                (#[trigger] tiles_of(values, at, area)[j]).data,
            ),
{
    let ns = picks(values, at);
    let us = treemap::of_ints(ns);
    let tiles = tiles_of(values, at, area);
    assert forall|j: int| 0 <= j < tiles.len() implies at.contains((#[trigger] tiles[j]).data)
        && tiles[j].data < n by {
        let vs = treemap::areas(us, area);
        let p = order::ranking(treemap::codes(vs));
        order::lemma_ranking_exists(treemap::codes(vs));
        treemap::lemma_laid_out_rises(treemap::picked(vs, p), 0, treemap::bounds_of(area));
        let t = treemap::squarified(us, area)[j];
        let placed = treemap::laid_out(treemap::picked(vs, p), 0, treemap::bounds_of(area));
        assert(placed[j].at < p.len());
        assert(p[placed[j].at as int] < at.len());
        assert(tiles[j].data == at[t.data as int]);
    }
}

proof fn lemma_settled_keeps(
    values: Seq<u64>,
    order: Seq<usize>,
    area: Rect,
    out: Seq<bool>,
    prev: Seq<usize>,
    iters: int,
    left: int,
) -> (at: Seq<usize>)
    requires
        below(order, values.len() as int),
        order.len() <= usize::MAX,
        out.len() == values.len(),
        0 <= left,
        iters + left == MAX_LAYOUT_PASSES,
        drawn_from(prev, order),
        forall|i: int|
            0 <= i < order.len() && out[(#[trigger] order[i]) as int] ==> once_small(
                values,
                order,
                area,
                order[i],
            ),
        iters > 0 ==> forall|i: int|
            0 <= i < order.len() ==> prev.contains(#[trigger] order[i]) || once_small(
                values,
                order,
                area,
                order[i],
            ),
    ensures
        ({
            let s = settled_from(
                values,
                order,
                area,
                out,
                tiles_of(values, prev, area),
                iters,
                left,
            );
            &&& s.tiles == tiles_of(values, at, area)
            &&& drawn_from(at, order)
            &&& forall|i: int|
                0 <= i < order.len() ==> at.contains(#[trigger] order[i]) || once_small(
                    values,
                    order,
                    area,
                    order[i],
                )
            &&& s.iters >= 16 || (forall|j: int|
                0 <= j < s.tiles.len() ==> !small((#[trigger] s.tiles[j]).rect)) || (forall|i: int|
                0 <= i < order.len() ==> once_small(values, order, area, #[trigger] order[i]))
        }),
    decreases left,
{
    let n = values.len() as int;
    let now = active(order, out);
    lemma_active(order, out, n);
    if left <= 0 {
        prev
    } else if now.len() == 0 {
        assert forall|i: int| 0 <= i < order.len() implies once_small(
            values,
            order,
            area,
            #[trigger] order[i],
        ) by {
            if !out[order[i] as int] {
                assert(now.contains(order[i]));
            }
        }
        prev
    } else {
        let new = tiles_of(values, now, area);
        let fewer = marked(out, new, new.len() as int);
        lemma_active_below(order, out, n);
        lemma_tiles_data(values, now, area, n);
        lemma_marked(out, new, new.len() as int);
        assert forall|i: int| 0 <= i < order.len() implies now.contains(#[trigger] order[i])
            || once_small(values, order, area, order[i]) by {}
        assert forall|i: int| 0 <= i < order.len() && fewer[(#[trigger] order[i]) as int] implies
            once_small(values, order, area, order[i]) by {
            let v = order[i] as int;
            if !out[v] {
                let j = choose|j: int|
                    0 <= j < new.len() && (#[trigger] new[j]).data == v && small(new[j].rect);
                assert(comes_out_small(values, now, area, order[i])) by {
                    assert(tiles_of(values, now, area)[j].data == order[i]);
                }
            }
        }
        if count_true(fewer) == count_true(out) {
            assert forall|j: int| 0 <= j < new.len() implies !small((#[trigger] new[j]).rect) by {
                assert(now.contains(new[j].data));
                let k = choose|k: int| 0 <= k < now.len() && now[k] == new[j].data;
                assert(!out[now[k] as int]);
            }
            now
        } else {
            lemma_settled_keeps(values, order, area, fewer, now, iters + 1, left - 1)
        }
    }
}

proof fn lemma_active_below(order: Seq<usize>, out: Seq<bool>, n: int)
    requires
        below(order, n),
        out.len() == n,
    ensures
        below(active(order, out), n),
        active(order, out).len() <= order.len(),
    decreases order.len(),
{
    lemma_active(order, out, n);
    assert forall|i: int| 0 <= i < active(order, out).len() implies (#[trigger] active(
        order,
        out,
    )[i]) < n by {
        assert(order.contains(active(order, out)[i]));
    }
    if order.len() > 0 {
        let less = order.drop_last();
        assert(below(less, n)) by {
            assert forall|i: int| 0 <= i < less.len() implies (#[trigger] less[i]) < n by {
                assert(order[i] < n);
            }
        }
        lemma_active_below(less, out, n);
    }
}

/// What is shown is the layout of some of the values; a value is left out only
/// if its tile comes out narrower or lower than three sub-cells at some time,
/// and what is left has no such tile unless all have, or the layout was tried
/// sixteen times.
pub proof fn only_small_tiles_are_left_out(values: Seq<u64>, order: Seq<usize>, area: Rect) -> (at:
    Seq<usize>)
    requires
        below(order, values.len() as int),
        order.len() <= usize::MAX,
        order.len() > 0,
    ensures
        ({
            let s = settled(values, order, area);
            &&& s.tiles == tiles_of(values, at, area)
            &&& drawn_from(at, order)
            &&& forall|i: int|
                0 <= i < order.len() ==> at.contains(#[trigger] order[i]) || once_small(
                    values,
                    order,
                    area,
                    order[i],
                )
            &&& s.iters >= 16 || (forall|j: int|
                0 <= j < s.tiles.len() ==> (#[trigger] s.tiles[j]).rect.width >= 3
                    && s.tiles[j].rect.height >= 3) || (forall|i: int|
                0 <= i < order.len() ==> once_small(values, order, area, #[trigger] order[i]))
        }),
{
    let none = Seq::new(values.len(), |i: int| false);
    assert(tiles_of(values, seq![], area) =~= seq![]) by {
        assert(picks(values, seq![]).len() == 0);
        assert(treemap::of_ints(picks(values, seq![])).len() == 0);
    }
    lemma_settled_keeps(values, order, area, none, seq![], 0, MAX_LAYOUT_PASSES as int)
}

/// Where no tile comes out small at once, all values are shown as they are laid
/// out.
pub proof fn nothing_is_left_out_without_need(values: Seq<u64>, order: Seq<usize>, area: Rect)
    requires
        below(order, values.len() as int),
        0 < order.len() <= usize::MAX,
        forall|j: int|
            0 <= j < tiles_of(values, order, area).len() ==> (#[trigger] tiles_of(
                values,
                order,
                area,
            )[j]).rect.width >= 3 && tiles_of(values, order, area)[j].rect.height >= 3,
    ensures
        settled(values, order, area).tiles == tiles_of(values, order, area),
        settled(values, order, area).excluded == 0,
        settled(values, order, area).iters == 1,
{
    let n = values.len() as int;
    let none = Seq::new(values.len(), |i: int| false);
    let tiles = tiles_of(values, order, area);
    lemma_all_active(order, none, n);
    lemma_none_true(values.len());
    lemma_tiles_data(values, order, area, n);
    lemma_none_marked(none, tiles, tiles.len() as int);
}

proof fn lemma_all_active(order: Seq<usize>, out: Seq<bool>, n: int)
    requires
        below(order, n),
        out == Seq::new(n as nat, |i: int| false),
        n >= 0,
    ensures
        active(order, out) == order,
    decreases order.len(),
{
    if order.len() > 0 {
        let less = order.drop_last();
        assert(below(less, n)) by {
            assert forall|i: int| 0 <= i < less.len() implies (#[trigger] less[i]) < n by {
                assert(order[i] < n);
            }
        }
        lemma_all_active(less, out, n);
        assert(order[order.len() - 1] < n);
        assert(less.push(order.last()) =~= order);
    } else {
        assert(active(order, out) =~= order);
    }
}

proof fn lemma_none_marked(out: Seq<bool>, tiles: Seq<Tile<usize>>, k: int)
    requires
        0 <= k <= tiles.len(),
        forall|j: int| 0 <= j < tiles.len() ==> !small((#[trigger] tiles[j]).rect),
    ensures
        marked(out, tiles, k) == out,
    decreases k,
{
    if k > 0 {
        lemma_none_marked(out, tiles, k - 1);
    }
}

} // verus!
