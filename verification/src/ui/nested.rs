//! The nested view: every folder holds its entries.

use vstd::prelude::*;
use vstd::string::*;

use crate::app;
use crate::app::{TargetModel, TileTarget};
use crate::bitmap_font;
use crate::double;
use crate::double::Double;
use crate::grid::{Color, Rect};
use crate::lang;
use crate::order;
use crate::text;
use crate::tree;
use crate::tree::{FolderModel, FolderNode, Node, NodeModel};
use crate::treemap;
use crate::treemap::Tile;
use crate::ui::color;
use crate::ui::items;
use crate::ui::label;
use crate::ui::layout;

verus! {

/// The sub-cells between a folder's side and its entries.
pub const NESTED_INNER_PAD: u16 = 1;

/// A folder or a file in the nested view.
#[derive(Debug)]
pub struct NestedNode {
    pub rect: Rect,
    pub color: Color,
    pub target: TileTarget,
    pub name: String,
    pub subtitle1: String,
    pub subtitle2: String,
    pub is_folder: bool,
    pub label_rows: u16,
    pub bitmap_scale: Option<u16>,
}

/// A folder or a file in the nested view, with texts as sequences.
#[verifier::ext_equal]
pub struct BoxModel {
    pub rect: Rect,
    pub color: Color,
    pub target: TargetModel,
    pub name: Seq<char>,
    pub subtitle1: Seq<char>,
    pub subtitle2: Seq<char>,
    pub is_folder: bool,
    pub label_rows: u16,
    pub bitmap_scale: Option<u16>,
}

impl NestedNode {
    /// What is shown.
    pub open spec fn model(self) -> BoxModel {
        BoxModel {
            rect: self.rect,
            color: self.color,
            target: self.target.model(),
            name: self.name@,
            subtitle1: self.subtitle1@,
            subtitle2: self.subtitle2@,
            is_folder: self.is_folder,
            label_rows: self.label_rows,
            bitmap_scale: self.bitmap_scale,
        }
    }
}

/// What is shown.
pub open spec fn models(v: Seq<NestedNode>) -> Seq<BoxModel> {
    v.map_values(|n: NestedNode| n.model())
}

/// The lines of entries.
pub open spec fn lines_of(cs: Seq<(Seq<char>, NodeModel)>) -> Seq<u64> {
    cs.map_values(|e: (Seq<char>, NodeModel)| tree::node_lines(e.1) as u64)
}

/// The positions in `at` whose values are not zero.
pub open spec fn nonzero(values: Seq<u64>, at: Seq<usize>) -> Seq<usize>
    decreases at.len(),
{
    if at.len() == 0 {
        seq![]
    } else {
        let before = nonzero(values, at.drop_last());
        if values[at.last() as int] > 0 {
            before.push(at.last())
        } else {
            before
        }
    }
}

/// How much darker than its language a folder is at a depth.
pub open spec fn shade(depth: u32) -> Double {
    double::smaller(
        double::sum_of(
            double::fraction(35, 100),
            double::product_of(double::fraction(1, 10), double::of_int(depth as nat)),
        ),
        double::fraction(7, 10),
    )
}

/// Whether entries fit into a folder's tile under a band of `top` sub-rows.
pub open spec fn has_inside(rect: Rect, top: u16, depth: u32) -> bool {
    if depth == 0 {
        rect.width > 0 && rect.height > 0
    } else {
        rect.width > 2 * NESTED_INNER_PAD && rect.height > top + 1
    }
}

/// The part of a folder's tile that its entries share.
pub open spec fn inside(rect: Rect, top: u16, depth: u32) -> Rect {
    if depth == 0 {
        rect
    } else {
        Rect {
            top: treemap::narrow(rect.top + top),
            left: treemap::narrow(rect.left + NESTED_INNER_PAD),
            width: (rect.width - 2 * NESTED_INNER_PAD) as u16,
            height: (rect.height - top - 1) as u16,
        }
    }
}

/// A tile without its gap.
pub open spec fn without_gap(r: Rect) -> Rect {
    Rect {
        width: (r.width - layout::GAP_SUBCELLS) as u16,
        height: (r.height - layout::GAP_SUBCELLS) as u16,
        ..r
    }
}

/// The next depth.
pub open spec fn deeper(depth: u32) -> u32 {
    if depth < u32::MAX {
        (depth + 1) as u32
    } else {
        depth
    }
}

/// The box of an entry.
pub open spec fn entry_box(
    e: (Seq<char>, NodeModel),
    r: Rect,
    base: Seq<Seq<char>>,
    depth: u32,
    bitmaps: bool,
    max_scale: u16,
) -> BoxModel {
    match e.1 {
        NodeModel::File(f) => BoxModel {
            rect: r,
            color: lang::color_of(f.lang),
            target: TargetModel::File(f.path),
            name: e.0,
            subtitle1: crate::format::compact_text(f.lines as nat),
            subtitle2: seq![],
            is_folder: false,
            label_rows: 2,
            bitmap_scale: None,
        },
        NodeModel::Folder(f) => {
            let l = label::folder_label(r, e.0 + "/"@, bitmaps, max_scale);
            BoxModel {
                rect: r,
                color: color::darkened(items::folder_color(f), shade(depth)),
                target: TargetModel::Folder(base.push(e.0)),
                name: e.0 + "/"@,
                subtitle1: seq![],
                subtitle2: seq![],
                is_folder: true,
                label_rows: l.1,
                bitmap_scale: l.0,
            }
        },
    }
}

/// The boxes of a folder's entries in a tile, each followed by what is inside.
pub open spec fn nested(
    f: FolderModel,
    rect: Rect,
    base: Seq<Seq<char>>,
    band: u16,
    depth: u32,
    bitmaps: bool,
    max_scale: u16,
) -> Seq<BoxModel>
    decreases f, 1int, 0int,
{
    if !has_inside(rect, band, depth) {
        seq![]
    } else {
        let values = lines_of(f.children);
        let order = nonzero(values, order::ranking(values));
        let tiles = layout::settled(values, order, inside(rect, band, depth)).tiles;
        boxes(f, tiles, tiles.len() as int, base, depth, bitmaps, max_scale)
    }
}

/// The boxes of the first `k` tiles that are not too small.
pub open spec fn boxes(
    f: FolderModel,
    tiles: Seq<Tile<usize>>,
    k: int,
    base: Seq<Seq<char>>,
    depth: u32,
    bitmaps: bool,
    max_scale: u16,
) -> Seq<BoxModel>
    decreases f, 0int, k,
{
    if k <= 0 {
        seq![]
    } else {
        let before = boxes(f, tiles, k - 1, base, depth, bitmaps, max_scale);
        let at = tiles[k - 1].data as int;
        if layout::small(tiles[k - 1].rect) || at >= f.children.len() {
            before
        } else {
            let e = f.children[at];
            let r = without_gap(tiles[k - 1].rect);
            let own = before.push(entry_box(e, r, base, depth, bitmaps, max_scale));
            match e.1 {
                NodeModel::File(_) => own,
                NodeModel::Folder(sub) => {
                    let l = label::folder_label(r, e.0 + "/"@, bitmaps, max_scale);
                    own + nested(
                        sub,
                        r,
                        base.push(e.0),
                        l.2,
                        deeper(depth),
                        bitmaps && l.0 is Some,
                        if l.0 is Some {
                            l.0->0
                        } else {
                            0
                        },
                    )
                },
            }
        }
    }
}

fn shade_at(depth: u32) -> (r: Double)
    ensures
        r == shade(depth),
        r.wf(),
{
    Double::fraction(35, 100).plus(
        Double::fraction(1, 10).times(Double::of(depth as u64)),
    ).min(Double::fraction(7, 10))
}

proof fn lemma_models_push(v: Seq<NestedNode>, n: NestedNode)
    ensures
        models(v.push(n)) == models(v).push(n.model()),
{
    assert(models(v.push(n)) =~= models(v).push(n.model()));
}

/// The tiles of a folder's entries.
fn entry_tiles(folder: &FolderNode, area: Rect) -> (r: Vec<Tile<usize>>)
    ensures
        ({
            let values = lines_of(folder.model().children);
            let order = nonzero(values, order::ranking(values));
            r@ == layout::settled(values, order, area).tiles
        }),
        layout::data_below(r@, folder.children.entries@.len() as int),
{
    let ghost es = folder.children.entries@;
    let ghost cs = folder.model().children;
    proof {
        tree::lemma_entries_model(es);
    }
    let mut values: Vec<u64> = Vec::new();
    let mut i: usize = 0;
    while i < folder.children.entries.len()
        invariant
            i <= es.len() == cs.len(),
            es == folder.children.entries@,
            forall|k: int| 0 <= k < cs.len() ==> #[trigger] cs[k] == (es[k].0@, es[k].1.model()),
            values@ =~= lines_of(cs).take(i as int),
        decreases es.len() - i,
    {
        let n: u64 = match &folder.children.entries[i].1 {
            Node::File(f) => f.lines,
            Node::Folder(f) => f.total_lines,
        };
        proof {
            assert(cs[i as int].1 == es[i as int].1.model());
            assert(lines_of(cs)[i as int] == n);
            assert(lines_of(cs).take(i + 1) =~= lines_of(cs).take(i as int).push(n));
        }
        values.push(n);
        i = i + 1;
    }
    proof {
        assert(lines_of(cs).take(cs.len() as int) =~= lines_of(cs));
    }
    let all = order::rank(&values);
    let mut order: Vec<usize> = Vec::new();
    i = 0;
    proof {
        assert(all@.take(0) =~= seq![]);
    }
    while i < all.len()
        invariant
            i <= all@.len() == values@.len(),
            order::is_ranking(values@, all@),
            order@ =~= nonzero(values@, all@.take(i as int)),
            layout::below(order@, values@.len() as int),
        decreases all@.len() - i,
    {
        let at: usize = all[i];
        proof {
            assert(all@.take(i + 1).drop_last() =~= all@.take(i as int));
            assert(all@.take(i + 1).last() == at);
        }
        if values[at] > 0 {
            order.push(at);
        }
        i = i + 1;
    }
    proof {
        assert(all@.take(all@.len() as int) =~= all@);
    }
    let (tiles, _, _) = layout::settle(&values, &order, area);
    tiles
}

/// The part of a folder's tile that its entries share.
fn inside_of(rect: Rect, band: u16, depth: u32) -> (r: Option<Rect>)
    requires
        band <= 26,
    ensures
        r is Some <==> has_inside(rect, band, depth),
        r is Some ==> r->0 == inside(rect, band, depth),
{
    if depth == 0 {
        if rect.width > 0 && rect.height > 0 {
            Some(rect)
        } else {
            None
        }
    } else if rect.width > 2 * NESTED_INNER_PAD && rect.height > band + 1 {
        let top: u32 = rect.top as u32 + band as u32;
        let left: u32 = rect.left as u32 + NESTED_INNER_PAD as u32;
        Some(
            Rect {
                top: (top % 0x10000) as u16,
                left: (left % 0x10000) as u16,
                width: rect.width - 2 * NESTED_INNER_PAD,
                height: rect.height - band - 1,
            },
        )
    } else {
        None
    }
}

/// Appends the boxes of a folder's entries in a tile.
fn build_nested_at(
    folder: &FolderNode,
    rect: Rect,
    base_path: &Vec<String>,
    band: u16,
    depth: u32,
    bitmap_enabled: bool,
    max_scale: u16,
    out: &mut Vec<NestedNode>,
)
    requires
        band <= 26,
        max_scale <= bitmap_font::MAX_SCALE,
    ensures
        models(final(out)@) == models(old(out)@) + nested(
            folder.model(),
            rect,
            tree::texts(base_path@),
            band,
            depth,
            bitmap_enabled,
            max_scale,
        ),
    decreases folder,
{
    let ghost f = folder.model();
    let ghost base = tree::texts(base_path@);
    let ghost start = models(out@);
    let area = match inside_of(rect, band, depth) {
        Some(r) => r,
        None => {
            proof {
                assert(start + seq![] =~= start);
            }
            return;
        },
    };
    let tiles = entry_tiles(folder, area);
    let ghost es = folder.children.entries@;
    proof {
        tree::lemma_entries_model(es);
        assert(start + seq![] =~= start);
    }
    let mut k: usize = 0;
    while k < tiles.len()
        invariant
            k <= tiles@.len(),
            es == folder.children.entries@,
            f == folder.model(),
            base == tree::texts(base_path@),
            max_scale <= bitmap_font::MAX_SCALE,
            layout::data_below(tiles@, es.len() as int),
            f.children.len() == es.len(),
            forall|i: int|
                0 <= i < es.len() ==> #[trigger] f.children[i] == (es[i].0@, es[i].1.model()),
            models(out@) =~= start + boxes(
                f,
                tiles@,
                k as int,
                base,
                depth,
                bitmap_enabled,
                max_scale,
            ),
        decreases tiles@.len() - k,
    {
        let tile = &tiles[k];
        if tile.rect.width < layout::MIN_TILE_SUBCELLS || tile.rect.height
            < layout::MIN_TILE_SUBCELLS {
            k = k + 1;
            continue;
        }
        let at: usize = tile.data;
        let r = Rect {
            top: tile.rect.top,
            left: tile.rect.left,
            width: tile.rect.width - layout::GAP_SUBCELLS,
            height: tile.rect.height - layout::GAP_SUBCELLS,
        };
        let name = folder.children.entries[at].0.as_str();
        let ghost e = f.children[at as int];
        let ghost so_far = out@;
        proof {
            assert(e == (es[at as int].0@, es[at as int].1.model()));
            assert(r == without_gap(tiles@[k as int].rect));
        }
        match &folder.children.entries[at].1 {
            Node::File(file) => {
                let node = NestedNode {
                    rect: r,
                    color: lang::color(file.lang),
                    target: TileTarget::File(file.path.clone()),
                    name: name.to_string(),
                    subtitle1: crate::format::fmt_compact(file.lines),
                    subtitle2: String::new(),
                    is_folder: false,
                    label_rows: 2,
                    bitmap_scale: None,
                };
                proof {
                    lemma_models_push(so_far, node);
                    assert(node.model() =~= entry_box(
                        e,
                        r,
                        base,
                        depth,
                        bitmap_enabled,
                        max_scale,
                    ));
                }
                out.push(node);
            },
            Node::Folder(sub) => {
                let mut sub_path = app::copy_names(base_path);
                let ghost names = sub_path@;
                sub_path.push(name.to_string());
                proof {
                    assert(tree::texts(sub_path@) =~= tree::texts(names).push(name@));
                }
                let shown = text::join(name, "/");
                let (scale, rows, child_band) = label::folder_label_info(
                    r,
                    shown.as_str(),
                    bitmap_enabled,
                    max_scale,
                );
                let node = NestedNode {
                    rect: r,
                    color: color::darken(items::color_of_folder(sub), shade_at(depth)),
                    target: TileTarget::Folder(app::copy_names(&sub_path)),
                    name: shown,
                    subtitle1: String::new(),
                    subtitle2: String::new(),
                    is_folder: true,
                    label_rows: rows,
                    bitmap_scale: scale,
                };
                proof {
                    lemma_models_push(so_far, node);
                    assert(node.model() =~= entry_box(
                        e,
                        r,
                        base,
                        depth,
                        bitmap_enabled,
                        max_scale,
                    ));
                }
                out.push(node);
                let (child_bitmaps, child_scale) = match scale {
                    Some(s) => (bitmap_enabled, s),
                    None => (false, 0),
                };
                let next: u32 = if depth < u32::MAX {
                    depth + 1
                } else {
                    depth
                };
                build_nested_at(
                    sub,
                    r,
                    &sub_path,
                    child_band,
                    next,
                    child_bitmaps,
                    child_scale,
                    out,
                );
            },
        }
        k = k + 1;
    }
}

/// The boxes of a folder's entries, and of all inside, in an area.
pub fn build_nested(
    folder: &FolderNode,
    rect: Rect,
    base_path: &Vec<String>,
    bitmap_enabled: bool,
    max_scale: u16,
) -> (out: Vec<NestedNode>)
    requires
        max_scale <= bitmap_font::MAX_SCALE,
    ensures
        models(out@) == nested(
            folder.model(),
            rect,
            tree::texts(base_path@),
            0,
            0,
            bitmap_enabled,
            max_scale,
        ),
{
    let mut out: Vec<NestedNode> = Vec::new();
    build_nested_at(folder, rect, base_path, 0, 0, bitmap_enabled, max_scale, &mut out);
    proof {
        assert(models(out@) =~= nested(
            folder.model(),
            rect,
            tree::texts(base_path@),
            0,
            0,
            bitmap_enabled,
            max_scale,
        ));
    }
    out
}

/// The deeper a folder lies, the darker it is: by 35 hundredths at first, ten
/// hundredths more with each step, and 70 at most.
pub proof fn folders_darken_with_depth(depth: u32)
    requires
        depth <= 255,
    ensures
        ({
            let one = double::one_units() as int;
            let part = if depth <= 3 {
                350 + 100 * depth as int
            } else {
                700
            };
            &&& shade(depth) is Finite
            &&& 1000 * shade(depth).units() <= part * one + one
            &&& part * one <= 1000 * shade(depth).units() + one
        }),
{
    let one = double::one_units();
    double::lemma_one_is_many();
    double::lemma_nearest_scale(35 * one, 100, 100);
    double::lemma_nearest_scale(1 * one, 10, 1000);
    double::lemma_nearest_scale(7 * one, 10, 1000);
    assert(double::fraction(35, 100) == double::fraction(3500, 10000)) by {
        assert((35 * one) * 100 == 3500 * one);
    }
    assert(double::fraction(1, 10) == double::fraction(1000, 10000)) by {
        assert((1 * one) * 1000 == 1000 * one);
    }
    assert(double::fraction(7, 10) == double::fraction(7000, 10000)) by {
        assert((7 * one) * 1000 == 7000 * one);
    }
    color::lemma_parts(3500);
    color::lemma_parts(7000);
    color::lemma_share(1000, depth as u8);
    let x = double::fraction(3500, 10000);
    let y = double::product_of(double::fraction(1000, 10000), double::of_int(depth as nat));
    color::lemma_small_sum(x, y, 256);
    let s = double::sum_of(x, y);
    reveal(double::less);
    let m = (10 * 1000 * depth) as int;
    assert(m * one == 10000 * (depth * one)) by (nonlinear_arith)
        requires
            m == 10000 * depth,
    ;
    let d = depth * one;
    if depth <= 3 {
        assert(d <= 3 * one) by (nonlinear_arith)
            requires
                d == depth * one,
                depth <= 3,
        ;
        assert((350 + 100 * depth as int) * one == 350 * one + 100 * d) by (nonlinear_arith)
            requires
                d == depth * one,
        ;
    } else {
        assert(d >= 4 * one) by (nonlinear_arith)
            requires
                d == depth * one,
                depth >= 4,
        ;
    }
}

/// A folder has the colour of its dominant language, darker by its depth, its
/// name with a slash, and no other text; a file has its lines below its name.
pub proof fn boxes_say_what_they_are(
    e: (Seq<char>, NodeModel),
    r: Rect,
    base: Seq<Seq<char>>,
    depth: u32,
    bitmaps: bool,
    max_scale: u16,
)
    ensures
        ({
            let b = entry_box(e, r, base, depth, bitmaps, max_scale);
            &&& b.rect == r
            &&& match e.1 {
                NodeModel::File(f) => {
                    &&& b.color == lang::color_of(f.lang)
                    &&& b.name == e.0
                    &&& b.subtitle1 == crate::format::compact_text(f.lines as nat)
                    &&& b.subtitle2.len() == 0
                    &&& b.target == TargetModel::File(f.path)
                    &&& !b.is_folder && b.bitmap_scale is None && b.label_rows == 2
                },
                NodeModel::Folder(f) => {
                    &&& tree::most_lines(f.lang_lines) is Some ==> b.color == color::darkened(
                        lang::color_of((tree::most_lines(f.lang_lines)->0).0),
                        shade(depth),
                    )
                    &&& b.name == e.0.push('/')
                    &&& b.subtitle1.len() == 0
                    &&& b.subtitle2.len() == 0
                    &&& b.target == TargetModel::Folder(base.push(e.0))
                    &&& b.is_folder
                },
            }
        }),
{
    reveal_strlit("/");
    assert(e.0 + "/"@ =~= e.0.push('/'));
}

/// Inside a folder's box one sub-cell stays free on the left, on the right and
/// below, and the band of its label above; the folder that is shown has no box
/// and no border.
pub proof fn boxes_leave_a_border(rect: Rect, top: u16, depth: u32)
    requires
        rect.top + rect.height <= u16::MAX,
        rect.left + rect.width <= u16::MAX,
    ensures
        depth == 0 ==> inside(rect, top, depth) == rect && (has_inside(rect, top, depth)
            <==> rect.width > 0 && rect.height > 0),
        depth > 0 ==> (has_inside(rect, top, depth) <==> rect.width >= 3 && rect.height >= top + 2),
        depth > 0 && has_inside(rect, top, depth) ==> {
            let i = inside(rect, top, depth);
            &&& i.left == rect.left + 1
            &&& i.left + i.width == rect.left + rect.width - 1
            &&& i.top == rect.top + top
            &&& i.top + i.height == rect.top + rect.height - 1
        },
        rect.width > 0 && rect.height > 0 ==> without_gap(rect) == (Rect {
            width: (rect.width - 1) as u16,
            height: (rect.height - 1) as u16,
            ..rect
        }),
{
}

} // verus!
