//! The treemap panel.

use vstd::prelude::*;
use vstd::string::*;

use crate::app;
use crate::app::{App, AppModel, TargetModel, TileTarget};
use crate::bitmap_font;
use crate::double::Double;
use crate::grid;
use crate::grid::{Cell, Color, Rect, Style};
use crate::order;
use crate::time::Span;
use crate::tree;
use crate::treemap;
use crate::treemap::Tile;
use crate::ui::color;
use crate::ui::items;
use crate::ui::items::{ItemModel, TileItem};
use crate::ui::label;
use crate::ui::layout;
use crate::ui::nested;
use crate::ui::nested::{BoxModel, NestedNode};
use crate::ui::paint;
use crate::ui::paint::{Label, RowModel, Shape, ShapeModel, TextRow};
use crate::view;

verus! {

/// Half of what a label leaves of a space, or nothing where it leaves none.
pub open spec fn margin(space: u16, n: int, scale: u16) -> int {
    let w = bitmap_font::label_cells(n, scale as int);
    if w <= space {
        (space - w) / 2
    } else {
        0
    }
}

/// Half of what the height of a label leaves.
pub open spec fn top_margin(space: u16, scale: u16) -> int {
    if 8 * scale <= space {
        (space - 8 * scale) / 2
    } else {
        0
    }
}

/// How text on a tile is limited and styled.
#[derive(Clone, Copy)]
pub struct TextRules {
    /// No more rows than this.
    pub max_rows: u16,
    /// Whether the name is bold.
    pub bold: bool,
    /// Whether a long second subtitle loses its start, not its end.
    pub cut_left: bool,
}

/// A text style in a colour.
pub open spec fn inked(fg: Color, bold: bool, dim: bool) -> Style {
    Style { fg: Some(fg), bg: None, bold, dim }
}

/// The lines of text on a tile: its name, and as far as there is room its
/// subtitles.
pub open spec fn text_rows(
    r: Rect,
    fg: Color,
    name: Seq<char>,
    subtitle1: Seq<char>,
    subtitle2: Seq<char>,
    rules: TextRules,
) -> Seq<RowModel> {
    let first = (r.top + 1) / 2;
    let end = (r.top + r.height) / 2;
    let w = r.width as nat;
    let rows = label::least(end - first, rules.max_rows as int);
    if rows < 1 || w < 3 {
        seq![]
    } else {
        seq![
            RowModel {
                y: first as u32,
                text: crate::format::truncated_text(name, w),
                style: inked(fg, rules.bold, false),
            },
        ] + (if rows >= 2 && subtitle1.len() <= w {
            seq![
                RowModel { y: (first + 1) as u32, text: subtitle1, style: inked(fg, false, false) },
            ]
        } else {
            seq![]
        }) + (if rows >= 3 && subtitle2.len() > 0 {
            seq![
                RowModel {
                    y: (first + 2) as u32,
                    text: if rules.cut_left {
                        crate::format::truncated_left_text(subtitle2, w)
                    } else {
                        crate::format::truncated_text(subtitle2, w)
                    },
                    style: inked(fg, false, true),
                },
            ]
        } else {
            seq![]
        })
    }
}

/// Whether a target is the one that is selected.
pub open spec fn is_selected(selected: Option<TargetModel>, t: TargetModel) -> bool {
    match selected {
        Some(s) => app::same_target(s, t),
        None => false,
    }
}

/// The shape of an item's tile.
pub open spec fn item_shape(
    item: ItemModel,
    r: Rect,
    selected: Option<TargetModel>,
    inner: Rect,
) -> ShapeModel {
    let bg = color::shown(item.color, is_selected(selected, item.target));
    let scale = if label::has_bitmaps(inner) {
        label::picked_scale(item.name, r.width, r.height, label::scale_limit(inner))
    } else {
        None
    };
    ShapeModel {
        rect: r,
        bg,
        name: item.name,
        label: match scale {
            Some(s) => Some(
                Label {
                    scale: s,
                    x: (r.left + margin(r.width, item.name.len() as int, s)) as i32,
                    y: (r.top + top_margin(r.height, s)) as i32,
                },
            ),
            None => None,
        },
        rows: if scale is Some {
            seq![]
        } else {
            text_rows(
                r,
                color::readable_on(bg),
                item.name,
                item.subtitle1,
                item.subtitle2,
                TextRules { max_rows: 65535, bold: true, cut_left: true },
            )
        },
    }
}

/// The shape of a folder or file in the nested view. A folder's large label
/// stands in its band, a file's in its middle.
pub open spec fn box_shape(b: BoxModel, selected: Option<TargetModel>, inner: Rect) -> ShapeModel {
    let r = b.rect;
    let bg = color::shown(b.color, is_selected(selected, b.target));
    let scale = if !label::has_bitmaps(inner) {
        None
    } else if b.is_folder {
        b.bitmap_scale
    } else {
        label::picked_scale(b.name, r.width, r.height, label::scale_limit(inner))
    };
    ShapeModel {
        rect: r,
        bg,
        name: b.name,
        label: match scale {
            Some(s) => Some(
                Label {
                    scale: s,
                    x: (r.left + margin(r.width, b.name.len() as int, s)) as i32,
                    y: (r.top + if b.is_folder {
                        label::NESTED_BAND_PAD_SUBROWS as int
                    } else {
                        top_margin(r.height, s)
                    }) as i32,
                },
            ),
            None => None,
        },
        rows: if scale is Some {
            seq![]
        } else {
            text_rows(
                r,
                color::readable_on(bg),
                b.name,
                b.subtitle1,
                b.subtitle2,
                TextRules { max_rows: b.label_rows, bold: b.is_folder, cut_left: false },
            )
        },
    }
}

/// The shapes of the tiles of items.
pub open spec fn item_shapes(
    its: Seq<ItemModel>,
    tiles: Seq<Tile<usize>>,
    selected: Option<TargetModel>,
    inner: Rect,
) -> Seq<ShapeModel> {
    tiles.map_values(
        |t: Tile<usize>|
            item_shape(its[t.data as int], nested::without_gap(t.rect), selected, inner),
    )
}

/// The shapes of boxes.
pub open spec fn box_shapes(
    bs: Seq<BoxModel>,
    selected: Option<TargetModel>,
    inner: Rect,
) -> Seq<ShapeModel> {
    bs.map_values(|b: BoxModel| box_shape(b, selected, inner))
}

/// The cells of the screen that sub-cells of a panel take part in.
pub open spec fn hit_rect(r: Rect, inner: Rect) -> Rect {
    Rect {
        top: treemap::narrow(inner.top + r.top as int / 2),
        left: treemap::narrow(inner.left + r.left),
        width: r.width,
        height: ((r.top + r.height + 1) / 2 - r.top as int / 2) as u16,
    }
}

/// What a click on the tiles of items hits.
pub open spec fn item_hits(its: Seq<ItemModel>, tiles: Seq<Tile<usize>>, inner: Rect) -> Seq<
    (Rect, TargetModel),
> {
    tiles.map_values(
        |t: Tile<usize>|
            (hit_rect(nested::without_gap(t.rect), inner), its[t.data as int].target),
    )
}

/// What a click on boxes hits.
pub open spec fn box_hits(bs: Seq<BoxModel>, inner: Rect) -> Seq<(Rect, TargetModel)> {
    bs.map_values(|b: BoxModel| (hit_rect(b.rect, inner), b.target))
}

/// The area of the nested view, one gap wider and higher than the panel.
pub open spec fn nested_area(inner: Rect) -> Rect {
    Rect {
        top: 0,
        left: 0,
        width: (inner.width + layout::GAP_SUBCELLS) as u16,
        height: (2 * inner.height + layout::GAP_SUBCELLS) as u16,
    }
}

/// The boxes of the nested view.
pub open spec fn boxes_of(m: AppModel, inner: Rect) -> Seq<BoxModel> {
    if m.folder().total_files == 0 {
        seq![]
    } else {
        nested::nested(
            m.folder(),
            nested_area(inner),
            m.current_path,
            0,
            0,
            label::has_bitmaps(inner),
            label::scale_limit(inner),
        )
    }
}

/// The items of the flat views, as they were last built.
pub struct Panel {
    pub items: Vec<TileItem>,
}

/// The values of a panel's items, and which of them are worth a tile.
pub struct Picked {
    pub values: Vec<u64>,
    pub order: Vec<usize>,
}

impl Picked {
    /// Whether these are the picks from items for a panel.
    pub open spec fn picks_from(self, its: Seq<ItemModel>, inner: Rect) -> bool {
        &&& self.values@ == items::values_of(its)
        &&& self.order@ == layout::laid_out_in(self.values@, inner)
        &&& layout::below(self.order@, self.values@.len() as int)
    }
}

/// What is to be drawn.
pub enum Plan {
    /// Nothing.
    Blank,
    /// The items at these tiles.
    Flat { tiles: Vec<Tile<usize>>, iters: u32, excluded: usize },
    /// These boxes.
    Nested { nodes: Vec<NestedNode> },
}

/// What is to be drawn.
pub enum PlanModel {
    Blank,
    Flat { tiles: Seq<Tile<usize>>, iters: u32, excluded: usize },
    Nested { nodes: Seq<BoxModel> },
}

impl Plan {
    /// What is to be drawn.
    pub open spec fn model(self) -> PlanModel {
        match self {
            Plan::Blank => PlanModel::Blank,
            Plan::Flat { tiles, iters, excluded } => PlanModel::Flat {
                tiles: tiles@,
                iters,
                excluded,
            },
            Plan::Nested { nodes } => PlanModel::Nested { nodes: nested::models(nodes@) },
        }
    }
}

/// Whether the coordinates of a panel fit 16 bits with a gap added.
pub open spec fn drawable(inner: Rect) -> bool {
    &&& inner.width < 65535
    &&& inner.height <= 32767
    &&& 2 * inner.height * inner.width <= usize::MAX
}

/// Whether a panel shows the items of the state.
pub open spec fn builds(m: AppModel, inner: Rect) -> bool {
    m.items_dirty && inner.width > 0 && inner.height > 0 && m.view != view::View::Nested
}

/// The items after planning.
pub open spec fn planned_items(m: AppModel, its: Seq<ItemModel>, inner: Rect) -> Seq<ItemModel> {
    if builds(m, inner) {
        items::items_of(m)
    } else {
        its
    }
}

/// The state after planning: no tile can be hit until they are drawn.
pub open spec fn planned_app(m: AppModel, inner: Rect) -> AppModel {
    AppModel {
        last_tiles: seq![],
        items_dirty: m.items_dirty && !builds(m, inner),
        ..m
    }
}

/// The plan for a panel.
pub open spec fn planned(m: AppModel, its: Seq<ItemModel>, inner: Rect) -> PlanModel {
    if inner.width == 0 || inner.height == 0 {
        PlanModel::Blank
    } else if m.view == view::View::Nested {
        let bs = boxes_of(m, inner);
        if bs.len() == 0 {
            PlanModel::Blank
        } else {
            PlanModel::Nested { nodes: bs }
        }
    } else {
        let shown = planned_items(m, its, inner);
        if shown.len() == 0 {
            PlanModel::Blank
        } else {
            let s = layout::flat(items::values_of(shown), inner);
            PlanModel::Flat {
                tiles: s.tiles,
                iters: s.iters as u32,
                excluded: s.excluded as usize,
            }
        }
    }
}

/// Whether a plan can be drawn over these items.
pub open spec fn fits_items(p: PlanModel, n: int) -> bool {
    match p {
        PlanModel::Flat { tiles, .. } => {
            &&& layout::data_below(tiles, n)
            &&& forall|i: int| 0 <= i < tiles.len() ==> !layout::small((#[trigger] tiles[i]).rect)
        },
        _ => true,
    }
}

/// The low 32 bits of a number.
pub open spec fn narrow32(n: int) -> u32 {
    (n % 0x1_0000_0000) as u32
}

/// The state after drawing a plan.
pub open spec fn drawn_app(
    m: AppModel,
    its: Seq<ItemModel>,
    p: PlanModel,
    inner: Rect,
    elapsed: Span,
) -> AppModel {
    match p {
        PlanModel::Blank => m,
        PlanModel::Flat { tiles, iters, excluded } => AppModel {
            bench: m.bench.laid_out(
                elapsed,
                iters,
                narrow32(excluded as int),
                narrow32(tiles.len() as int),
            ),
            last_tiles: item_hits(its, tiles, inner),
            ..m
        },
        PlanModel::Nested { nodes } => AppModel {
            bench: m.bench.laid_out(elapsed, 1, 0, narrow32(nodes.len() as int)),
            last_tiles: box_hits(nodes, inner),
            ..m
        },
    }
}

/// The shapes that a plan draws.
pub open spec fn plan_shapes(m: AppModel, its: Seq<ItemModel>, p: PlanModel, inner: Rect) -> Seq<
    ShapeModel,
> {
    match p {
        PlanModel::Blank => seq![],
        PlanModel::Flat { tiles, .. } => item_shapes(its, tiles, m.selected, inner),
        PlanModel::Nested { nodes } => box_shapes(nodes, m.selected, inner),
    }
}

fn margin_of(space: u16, n: usize, scale: u16) -> (r: u16)
    ensures
        r == margin(space, n as int, scale),
        r <= space,
{
    if n == 0 || scale == 0 {
        return space / 2;
    }
    proof {
        assert(n * 8 * scale + (n - 1) * 1 * scale >= n) by (nonlinear_arith)
            requires
                n > 0,
                scale >= 1,
        ;
    }
    if n > 65535 {
        return 0;
    }
    proof {
        assert(n * 8 <= 65535 * 8);
        assert(n * 8 * scale <= 65535 * 8 * 65535) by (nonlinear_arith)
            requires
                n <= 65535,
                scale <= 65535,
        ;
        assert((n - 1) * 1 * scale <= 65535 * 65535) by (nonlinear_arith)
            requires
                0 < n <= 65535,
                scale <= 65535,
        ;
        assert((n - 1) * 1 * scale >= 0) by (nonlinear_arith)
            requires
                n > 0,
        ;
        assert(n * 8 * scale >= 0) by (nonlinear_arith);
    }
    let w: u64 = n as u64 * 8 * scale as u64 + (n as u64 - 1) * 1 * scale as u64;
    if w <= space as u64 {
        (space - w as u16) / 2
    } else {
        0
    }
}

fn top_margin_of(space: u16, scale: u16) -> (r: u16)
    ensures
        r == top_margin(space, scale),
        r <= space,
{
    let h: u32 = 8 * scale as u32;
    if h <= space as u32 {
        (space - h as u16) / 2
    } else {
        0
    }
}

fn rows_of(
    r: Rect,
    fg: Color,
    name: &str,
    subtitle1: &str,
    subtitle2: &str,
    rules: TextRules,
) -> (out: Vec<TextRow>)
    ensures
        paint::row_models(out@) == text_rows(r, fg, name@, subtitle1@, subtitle2@, rules),
{
    let ghost want = text_rows(r, fg, name@, subtitle1@, subtitle2@, rules);
    let mut out: Vec<TextRow> = Vec::new();
    let first: u32 = (r.top as u32 + 1) / 2;
    let end: u32 = (r.top as u32 + r.height as u32) / 2;
    let w: usize = r.width as usize;
    if end <= first || w < 3 || rules.max_rows == 0 {
        proof {
            assert(paint::row_models(out@) =~= want);
        }
        return out;
    }
    let room: u32 = end - first;
    let rows: u32 = if room < rules.max_rows as u32 {
        room
    } else {
        rules.max_rows as u32
    };
    out.push(
        TextRow {
            y: first,
            text: crate::format::truncate(name, w),
            style: Style { fg: Some(fg), bg: None, bold: rules.bold, dim: false },
        },
    );
    if rows >= 2 && subtitle1.unicode_len() <= w {
        out.push(
            TextRow {
                y: first + 1,
                text: subtitle1.to_string(),
                style: Style { fg: Some(fg), bg: None, bold: false, dim: false },
            },
        );
    }
    if rows >= 3 && subtitle2.unicode_len() > 0 {
        let text = if rules.cut_left {
            crate::format::truncate_left(subtitle2, w)
        } else {
            crate::format::truncate(subtitle2, w)
        };
        out.push(
            TextRow {
                y: first + 2,
                text,
                style: Style { fg: Some(fg), bg: None, bold: false, dim: true },
            },
        );
    }
    proof {
        assert(paint::row_models(out@) =~= want);
    }
    out
}

fn selects(selected: &Option<TileTarget>, t: &TileTarget) -> (r: bool)
    ensures
        r == is_selected(app::target_model(*selected), t.model()),
{
    match selected {
        Some(s) => s.same(t),
        None => false,
    }
}

fn shape_of_item(item: &TileItem, r: Rect, selected: &Option<TileTarget>, inner: Rect) -> (s: Shape)
    ensures
        s.model() == item_shape(item.model(), r, app::target_model(*selected), inner),
{
    let bg = color::tile_color(item.color, selects(selected, &item.target), Double::zero());
    proof {
        color::lemma_no_pulse(
            color::shown(item.color, is_selected(app::target_model(*selected), item.target.model())),
        );
    }
    let scale = if label::bitmap_enabled(inner) {
        label::pick_label_scale(
            item.name.as_str(),
            r.width,
            r.height,
            label::max_label_scale(inner),
        )
    } else {
        None
    };
    let s = match scale {
        Some(s) => {
            let n = item.name.as_str().unicode_len();
            Shape {
                rect: r,
                bg,
                name: item.name.clone(),
                label: Some(
                    Label {
                        scale: s,
                        x: r.left as i32 + margin_of(r.width, n, s) as i32,
                        y: r.top as i32 + top_margin_of(r.height, s) as i32,
                    },
                ),
                rows: Vec::new(),
            }
        },
        None => Shape {
            rect: r,
            bg,
            name: item.name.clone(),
            label: None,
            rows: rows_of(
                r,
                color::readable_fg(bg),
                item.name.as_str(),
                item.subtitle1.as_str(),
                item.subtitle2.as_str(),
                TextRules { max_rows: 65535, bold: true, cut_left: true },
            ),
        },
    };
    proof {
        assert(s.model() =~= item_shape(item.model(), r, app::target_model(*selected), inner));
    }
    s
}

fn shape_of_box(b: &NestedNode, selected: &Option<TileTarget>, inner: Rect) -> (s: Shape)
    ensures
        s.model() == box_shape(b.model(), app::target_model(*selected), inner),
{
    let r = b.rect;
    let bg = color::tile_color(b.color, selects(selected, &b.target), Double::zero());
    proof {
        color::lemma_no_pulse(
            color::shown(b.color, is_selected(app::target_model(*selected), b.target.model())),
        );
    }
    let scale = if !label::bitmap_enabled(inner) {
        None
    } else if b.is_folder {
        b.bitmap_scale
    } else {
        label::pick_label_scale(b.name.as_str(), r.width, r.height, label::max_label_scale(inner))
    };
    let s = match scale {
        Some(s) => {
            let n = b.name.as_str().unicode_len();
            let down: u16 = if b.is_folder {
                label::NESTED_BAND_PAD_SUBROWS
            } else {
                top_margin_of(r.height, s)
            };
            Shape {
                rect: r,
                bg,
                name: b.name.clone(),
                label: Some(
                    Label {
                        scale: s,
                        x: r.left as i32 + margin_of(r.width, n, s) as i32,
                        y: r.top as i32 + down as i32,
                    },
                ),
                rows: Vec::new(),
            }
        },
        None => Shape {
            rect: r,
            bg,
            name: b.name.clone(),
            label: None,
            rows: rows_of(
                r,
                color::readable_fg(bg),
                b.name.as_str(),
                b.subtitle1.as_str(),
                b.subtitle2.as_str(),
                TextRules { max_rows: b.label_rows, bold: b.is_folder, cut_left: false },
            ),
        },
    };
    proof {
        assert(s.model() =~= box_shape(b.model(), app::target_model(*selected), inner));
    }
    s
}

fn hit_of(r: Rect, inner: Rect) -> (h: Rect)
    ensures
        h == hit_rect(r, inner),
{
    let y0: u32 = r.top as u32 / 2;
    let y1: u32 = (r.top as u32 + r.height as u32 + 1) / 2;
    Rect {
        top: ((inner.top as u32 + y0) % 0x10000) as u16,
        left: ((inner.left as u32 + r.left as u32) % 0x10000) as u16,
        width: r.width,
        height: (y1 - y0) as u16,
    }
}

fn low32(n: usize) -> (r: u32)
    ensures
        r == narrow32(n as int),
{
    (n as u64 % 0x1_0000_0000) as u32
}

impl Panel {
    /// The values of the items add up within 64 bits.
    pub open spec fn wf(self) -> bool {
        order::sum(items::values_of(items::models(self.items@))) <= u64::MAX
    }

    /// A panel without items.
    pub fn new() -> (r: Panel)
        ensures
            r.wf(),
            items::models(r.items@) == Seq::<ItemModel>::empty(),
    {
        let r = Panel { items: Vec::new() };
        proof {
            assert(items::models(r.items@) =~= seq![]);
            assert(items::values_of(items::models(r.items@)) =~= seq![]);
        }
        r
    }

    /// Builds the items of a flat view again, where something changed.
    pub fn prepare(&mut self, app: &mut App, inner: Rect)
        requires
            old(self).wf(),
            old(app).model().tree.wf(),
        ensures
            final(self).wf(),
            final(app).model() == (AppModel {
                items_dirty: old(app).model().items_dirty && !builds(old(app).model(), inner),
                ..old(app).model()
            }),
            final(app).files == old(app).files,
            items::models(final(self).items@) == planned_items(
                old(app).model(),
                items::models(old(self).items@),
                inner,
            ),
    {
        if !app.items_dirty || inner.width == 0 || inner.height == 0 || app.view
            == view::View::Nested {
            return;
        }
        let ghost m = app.model();
        self.items = items::build_items(app);
        app.items_dirty = false;
        proof {
            assert(app.model() =~= AppModel { items_dirty: false, ..m });
        }
    }

    /// Picks the items of a flat view that are worth a tile.
    pub fn pick(&self, inner: Rect) -> (r: Picked)
        requires
            self.wf(),
            inner.height <= 32767,
        ensures
            r.picks_from(items::models(self.items@), inner),
    {
        let ghost its = items::models(self.items@);
        let mut values: Vec<u64> = Vec::new();
        let mut i: usize = 0;
        while i < self.items.len()
            invariant
                i <= self.items@.len() == its.len(),
                its == items::models(self.items@),
                values@ =~= items::values_of(its).take(i as int),
            decreases self.items@.len() - i,
        {
            proof {
                assert(its[i as int] == self.items@[i as int].model());
            }
            values.push(self.items[i].value);
            i = i + 1;
        }
        proof {
            assert(items::values_of(its).take(its.len() as int) =~= items::values_of(its));
        }
        let order = layout::pick(&values, inner);
        Picked { values, order }
    }

    /// Plans a flat view whose items are up to date and picked.
    pub fn lay_out(&self, app: &mut App, inner: Rect, picked: &Picked) -> (r: Plan)
        requires
            drawable(inner),
            old(app).model().view != view::View::Nested,
            !builds(old(app).model(), inner),
            picked.picks_from(items::models(self.items@), inner),
        ensures
            final(app).model() == planned_app(old(app).model(), inner),
            final(app).files == old(app).files,
            r.model() == planned(old(app).model(), items::models(self.items@), inner),
            fits_items(r.model(), self.items@.len() as int),
    {
        let ghost m = app.model();
        app.last_tiles.clear();
        proof {
            assert(app.model() =~= planned_app(m, inner));
        }
        if inner.width == 0 || inner.height == 0 || self.items.len() == 0 {
            return Plan::Blank;
        }
        let (tiles, iters, excluded) = layout::lay_out(&picked.values, &picked.order, inner);
        Plan::Flat { tiles, iters, excluded }
    }

    /// Plans what to draw. Items are built again only where something changed.
    pub fn plan(&mut self, app: &mut App, inner: Rect) -> (r: Plan)
        requires
            old(self).wf(),
            old(app).model().tree.wf(),
            drawable(inner),
        ensures
            final(self).wf(),
            final(app).model() == planned_app(old(app).model(), inner),
            final(app).files == old(app).files,
            items::models(final(self).items@) == planned_items(
                old(app).model(),
                items::models(old(self).items@),
                inner,
            ),
            r.model() == planned(old(app).model(), items::models(old(self).items@), inner),
            fits_items(r.model(), final(self).items@.len() as int),
    {
        let ghost m = app.model();
        if app.view == view::View::Nested {
            app.last_tiles.clear();
            proof {
                assert(app.model() =~= planned_app(m, inner));
            }
            if inner.width == 0 || inner.height == 0 {
                return Plan::Blank;
            }
            let nodes = plan_nested(app, inner);
            proof {
                assert(boxes_of(app.model(), inner) == boxes_of(m, inner));
            }
            if nodes.len() == 0 {
                return Plan::Blank;
            }
            return Plan::Nested { nodes };
        }
        self.prepare(app, inner);
        let picked = self.pick(inner);
        let r = self.lay_out(app, inner, &picked);
        proof {
            assert(app.model() =~= planned_app(m, inner));
        }
        r
    }

    /// Draws a plan: the picture row by row, or nothing. Afterwards the tiles
    /// can be hit, and how the layout went is remembered.
    pub fn draw(&self, app: &mut App, plan: &Plan, inner: Rect, elapsed: Span) -> (r: Option<
        Vec<Cell>,
    >)
        requires
            drawable(inner),
            elapsed.wf(),
            fits_items(plan.model(), self.items@.len() as int),
            old(app).model().last_tiles.len() == 0,
        ensures
            final(app).model() == drawn_app(
                old(app).model(),
                items::models(self.items@),
                plan.model(),
                inner,
                elapsed,
            ),
            final(app).files == old(app).files,
            ({
                let shapes = plan_shapes(
                    old(app).model(),
                    items::models(self.items@),
                    plan.model(),
                    inner,
                );
                &&& r is Some <==> shapes.len() > 0
                &&& r is Some ==> {
                    &&& r->0@.len() == inner.height * inner.width
                    &&& forall|row: int, col: int|
                        0 <= row < inner.height && 0 <= col < inner.width ==> #[trigger] grid::at(
                            r->0@,
                            inner.width as int,
                            row,
                            col,
                        ) == paint::picture(shapes, shapes.len() as int, row, col)
                }
            }),
    {
        let ghost m = app.model();
        let ghost its = items::models(self.items@);
        match plan {
            Plan::Blank => None,
            Plan::Flat { tiles, iters, excluded } => {
                app.bench.record_layout(elapsed, *iters, low32(*excluded), low32(tiles.len()));
                let ghost want = item_shapes(its, tiles@, m.selected, inner);
                let ghost hits = item_hits(its, tiles@, inner);
                let mut shapes: Vec<Shape> = Vec::new();
                let mut found: Vec<(Rect, TileTarget)> = Vec::new();
                let mut k: usize = 0;
                while k < tiles.len()
                    invariant
                        k <= tiles@.len() == want.len() == hits.len(),
                        its == items::models(self.items@),
                        fits_items(plan.model(), self.items@.len() as int),
                        plan.model() matches PlanModel::Flat { tiles: ts, .. } && ts == tiles@,
                        m.selected == app::target_model(app.selected),
                        want == item_shapes(its, tiles@, m.selected, inner),
                        hits == item_hits(its, tiles@, inner),
                        paint::shape_models(shapes@) =~= want.take(k as int),
                        app::tiles_model(found@) =~= hits.take(k as int),
                    decreases tiles@.len() - k,
                {
                    let t = &tiles[k];
                    proof {
                        assert(!layout::small(tiles@[k as int].rect));
                        assert(its[t.data as int] == self.items@[t.data as int].model());
                    }
                    let rect = Rect {
                        top: t.rect.top,
                        left: t.rect.left,
                        width: t.rect.width - layout::GAP_SUBCELLS,
                        height: t.rect.height - layout::GAP_SUBCELLS,
                    };
                    let item = &self.items[t.data];
                    let shape = shape_of_item(item, rect, &app.selected, inner);
                    let hit = (hit_of(rect, inner), item.target.clone());
                    let ghost shapes0 = shapes@;
                    let ghost found0 = found@;
                    shapes.push(shape);
                    found.push(hit);
                    proof {
                        assert(rect == nested::without_gap(t.rect));
                        assert(paint::shape_models(shapes@) =~= paint::shape_models(shapes0).push(
                            want[k as int],
                        ));
                        assert(app::tiles_model(found@) =~= app::tiles_model(found0).push(
                            hits[k as int],
                        ));
                        assert(want.take(k + 1) =~= want.take(k as int).push(want[k as int]));
                        assert(hits.take(k + 1) =~= hits.take(k as int).push(hits[k as int]));
                    }
                    k = k + 1;
                }
                proof {
                    assert(want.take(k as int) =~= want);
                    assert(hits.take(k as int) =~= hits);
                }
                app.last_tiles = found;
                if shapes.len() == 0 {
                    return None;
                }
                Some(paint::draw(&shapes, inner.width, inner.height))
            },
            Plan::Nested { nodes } => {
                app.bench.record_layout(elapsed, 1, 0, low32(nodes.len()));
                let ghost bs = nested::models(nodes@);
                let ghost want = box_shapes(bs, m.selected, inner);
                let ghost hits = box_hits(bs, inner);
                let mut shapes: Vec<Shape> = Vec::new();
                let mut found: Vec<(Rect, TileTarget)> = Vec::new();
                let mut k: usize = 0;
                while k < nodes.len()
                    invariant
                        k <= nodes@.len() == want.len() == hits.len() == bs.len(),
                        bs == nested::models(nodes@),
                        m.selected == app::target_model(app.selected),
                        want == box_shapes(bs, m.selected, inner),
                        hits == box_hits(bs, inner),
                        paint::shape_models(shapes@) =~= want.take(k as int),
                        app::tiles_model(found@) =~= hits.take(k as int),
                    decreases nodes@.len() - k,
                {
                    proof {
                        assert(bs[k as int] == nodes@[k as int].model());
                    }
                    let shape = shape_of_box(&nodes[k], &app.selected, inner);
                    let hit = (hit_of(nodes[k].rect, inner), nodes[k].target.clone());
                    let ghost shapes0 = shapes@;
                    let ghost found0 = found@;
                    shapes.push(shape);
                    found.push(hit);
                    proof {
                        assert(paint::shape_models(shapes@) =~= paint::shape_models(shapes0).push(
                            want[k as int],
                        ));
                        assert(app::tiles_model(found@) =~= app::tiles_model(found0).push(
                            hits[k as int],
                        ));
                        assert(want.take(k + 1) =~= want.take(k as int).push(want[k as int]));
                        assert(hits.take(k + 1) =~= hits.take(k as int).push(hits[k as int]));
                    }
                    k = k + 1;
                }
                proof {
                    assert(want.take(k as int) =~= want);
                    assert(hits.take(k as int) =~= hits);
                }
                app.last_tiles = found;
                if shapes.len() == 0 {
                    return None;
                }
                Some(paint::draw(&shapes, inner.width, inner.height))
            },
        }
    }
}

fn plan_nested(app: &App, inner: Rect) -> (nodes: Vec<NestedNode>)
    requires
        app.model().tree.wf(),
        drawable(inner),
    ensures
        nested::models(nodes@) == boxes_of(app.model(), inner),
{
    let folder = app.current_folder();
    if folder.total_files == 0 {
        let nodes: Vec<NestedNode> = Vec::new();
        proof {
            assert(nested::models(nodes@) =~= seq![]);
        }
        return nodes;
    }
    let area = Rect::new(
        0,
        0,
        inner.width + layout::GAP_SUBCELLS,
        2 * inner.height + layout::GAP_SUBCELLS,
    );
    nested::build_nested(
        folder,
        area,
        &app.current_path,
        label::bitmap_enabled(inner),
        label::max_label_scale(inner),
    )
}

/// After a flat view was drawn every tile can be hit, in the order in which the
/// tiles were drawn, and stands for its item.
pub proof fn drawn_tiles_can_be_hit(
    m: AppModel,
    its: Seq<ItemModel>,
    tiles: Seq<Tile<usize>>,
    iters: u32,
    excluded: usize,
    inner: Rect,
    elapsed: Span,
    k: int,
)
    requires
        0 <= k < tiles.len(),
        tiles[k].data < its.len(),
        tiles[k].rect.width > 0,
        tiles[k].rect.height > 0,
        inner.top + inner.height <= u16::MAX,
        inner.left + inner.width <= u16::MAX,
        tiles[k].rect.top + tiles[k].rect.height - 1 <= 2 * inner.height,
        tiles[k].rect.left + tiles[k].rect.width - 1 <= inner.width,
    ensures
        ({
            let now = drawn_app(
                m,
                its,
                PlanModel::Flat { tiles, iters, excluded },
                inner,
                elapsed,
            );
            let r = tiles[k].rect;
            let hit = now.last_tiles[k].0;
            &&& now.last_tiles.len() == tiles.len()
            &&& now.last_tiles[k].1 == its[tiles[k].data as int].target
            &&& hit.left == inner.left + r.left
            &&& hit.width == r.width - 1
            &&& hit.top == inner.top + r.top as int / 2
            &&& hit.top + hit.height == inner.top + (r.top + r.height) / 2
            &&& now == (AppModel { bench: now.bench, last_tiles: now.last_tiles, ..m })
        }),
{
}

/// After the nested view was drawn every box can be hit, in the order in which
/// the boxes were drawn, and stands for its folder or file.
pub proof fn drawn_boxes_can_be_hit(
    m: AppModel,
    its: Seq<ItemModel>,
    nodes: Seq<BoxModel>,
    inner: Rect,
    elapsed: Span,
    k: int,
)
    requires
        0 <= k < nodes.len(),
        inner.top + inner.height <= u16::MAX,
        inner.left + inner.width <= u16::MAX,
        nodes[k].rect.top + nodes[k].rect.height <= 2 * inner.height,
        nodes[k].rect.left + nodes[k].rect.width <= inner.width,
    ensures
        ({
            let now = drawn_app(m, its, PlanModel::Nested { nodes }, inner, elapsed);
            let r = nodes[k].rect;
            let hit = now.last_tiles[k].0;
            &&& now.last_tiles.len() == nodes.len()
            &&& now.last_tiles[k].1 == nodes[k].target
            &&& hit.left == inner.left + r.left
            &&& hit.width == r.width
            &&& hit.top == inner.top + r.top as int / 2
            &&& hit.top + hit.height == inner.top + (r.top + r.height + 1) / 2
            &&& now == (AppModel { bench: now.bench, last_tiles: now.last_tiles, ..m })
        }),
{
}

/// A tile is drawn where it was laid out, but for the gap, in the colour of its
/// item; the one that is selected is brighter. Its text can be read on it.
pub proof fn tiles_are_drawn_in_their_colours(
    item: ItemModel,
    r: Rect,
    selected: Option<TargetModel>,
    inner: Rect,
    i: int,
)
    ensures
        ({
            let s = item_shape(item, r, selected, inner);
            let lit = selected is Some && app::same_target(selected->0, item.target);
            &&& s.rect == r
            &&& s.name == item.name
            &&& !lit ==> s.bg == item.color
            &&& lit ==> s.bg == color::brightened(item.color, crate::double::fraction(4, 10))
            &&& s.label is Some ==> s.rows.len() == 0
            &&& 0 <= i < s.rows.len() ==> s.rows[i].style.fg == Some(color::readable_on(s.bg))
                && s.rows[i].style.bg is None && s.rows[i].text.len() <= r.width && 2
                * s.rows[i].y >= r.top && 2 * s.rows[i].y + 2 <= r.top + r.height
        }),
{
}

/// A box is drawn where it lies, in its colour; the one that is selected is
/// brighter. Its text can be read on it.
pub proof fn boxes_are_drawn_in_their_colours(
    b: BoxModel,
    selected: Option<TargetModel>,
    inner: Rect,
    i: int,
)
    ensures
        ({
            let s = box_shape(b, selected, inner);
            let lit = selected is Some && app::same_target(selected->0, b.target);
            &&& s.rect == b.rect
            &&& s.name == b.name
            &&& !lit ==> s.bg == b.color
            &&& lit ==> s.bg == color::brightened(b.color, crate::double::fraction(4, 10))
            &&& s.label is Some ==> s.rows.len() == 0
            &&& 0 <= i < s.rows.len() ==> s.rows[i].style.fg == Some(color::readable_on(s.bg))
                && s.rows[i].style.bg is None && s.rows[i].text.len() <= b.rect.width && 2
                * s.rows[i].y >= b.rect.top && 2 * s.rows[i].y + 2 <= b.rect.top + b.rect.height
        }),
{
}

/// A tile with room for a line of text shows its name: all of it where it fits,
/// else its start.
pub proof fn tiles_show_their_names(
    r: Rect,
    fg: Color,
    name: Seq<char>,
    subtitle1: Seq<char>,
    subtitle2: Seq<char>,
    rules: TextRules,
)
    requires
        (r.top + r.height) / 2 > (r.top + 1) / 2,
        r.width >= 3,
        rules.max_rows >= 1,
    ensures
        ({
            let rows = text_rows(r, fg, name, subtitle1, subtitle2, rules);
            &&& rows.len() >= 1
            &&& rows[0].y == (r.top + 1) / 2
            &&& name.len() <= r.width ==> rows[0].text == name
            &&& name.len() > r.width ==> rows[0].text.len() == r.width && forall|i: int|
                0 <= i < r.width - 1 ==> rows[0].text[i] == name[i]
        }),
{
}

/// What a panel draws goes by what is to be shown: the items of the view, or the
/// boxes of the nested view. Items are built again only when something changed.
pub proof fn panels_show_the_view(m: AppModel, its: Seq<ItemModel>, inner: Rect)
    requires
        inner.width > 0,
        inner.height > 0,
    ensures
        m.view != view::View::Nested && m.items_dirty ==> planned_items(m, its, inner)
            == items::items_of(m),
        m.view != view::View::Nested && !m.items_dirty ==> planned_items(m, its, inner) == its,
        m.view != view::View::Nested && planned_items(m, its, inner).len() > 0 ==> planned(
            m,
            its,
            inner,
        ) is Flat && planned(m, its, inner)->Flat_tiles == layout::flat(
            items::values_of(planned_items(m, its, inner)),
            inner,
        ).tiles,
        m.view == view::View::Nested && m.folder().total_files > 0 && nested::nested(
            m.folder(),
            nested_area(inner),
            m.current_path,
            0,
            0,
            label::has_bitmaps(inner),
            label::scale_limit(inner),
        ).len() > 0 ==> planned(m, its, inner) == (PlanModel::Nested {
            nodes: nested::nested(
                m.folder(),
                nested_area(inner),
                m.current_path,
                0,
                0,
                label::has_bitmaps(inner),
                label::scale_limit(inner),
            ),
        }),
        planned_app(m, inner).last_tiles.len() == 0,
        planned_app(m, inner) == (AppModel {
            last_tiles: seq![],
            items_dirty: planned_app(m, inner).items_dirty,
            ..m
        }),
        m.view != view::View::Nested ==> !planned_app(m, inner).items_dirty,
{
}

} // verus!
