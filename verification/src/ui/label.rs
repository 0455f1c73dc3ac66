//! How large a label can be.

use vstd::prelude::*;
use vstd::string::*;

use crate::bitmap_font;
use crate::grid::Rect;

verus! {

/// Panels narrower than this have no large labels.
pub const BITMAP_MIN_TERMINAL_W: u16 = 144;

/// Panels lower than this have no large labels.
pub const BITMAP_MIN_TERMINAL_H: u16 = 44;

/// A label larger than the smallest takes at most this part of its tile.
pub const LABEL_MAX_TILE_FRAC_NUM: u16 = 3;

/// See [`LABEL_MAX_TILE_FRAC_NUM`].
pub const LABEL_MAX_TILE_FRAC_DEN: u16 = 5;

/// Rows above and below a large label in a folder's band.
pub const NESTED_BAND_PAD_SUBROWS: u16 = 1;

/// Rows that stay free at the bottom of a folder.
pub const FOLDER_BOTTOM_PAD: u16 = 1;

/// Whether a panel has large labels.
pub open spec fn has_bitmaps(area: Rect) -> bool {
    area.width >= BITMAP_MIN_TERMINAL_W && area.height >= BITMAP_MIN_TERMINAL_H
}

/// The largest scale of labels in a panel.
pub open spec fn scale_limit(area: Rect) -> u16 {
    if area.width >= 312 && area.height >= 92 {
        3
    } else if area.width >= 264 && area.height >= 80 {
        2
    } else if area.width >= 96 && area.height >= 30 {
        1
    } else {
        0
    }
}

/// What two sub-cells of padding leave.
pub open spec fn padded(n: u16) -> int {
    if n >= 2 {
        n - 2
    } else {
        0
    }
}

/// The smaller of two numbers.
pub open spec fn least(a: int, b: int) -> int {
    if a < b {
        a
    } else {
        b
    }
}

/// Whether a label of `n` characters fits a tile at a scale: inside its
/// padding, and above the smallest scale also inside three fifths of it.
pub open spec fn label_fits(n: int, tile_w: u16, tile_h: u16, scale: int) -> bool {
    let w = bitmap_font::label_cells(n, scale);
    let h = 8 * scale;
    if scale == 1 {
        w <= padded(tile_w) && h <= padded(tile_h)
    } else {
        &&& w <= least(
            padded(tile_w),
            tile_w * LABEL_MAX_TILE_FRAC_NUM / LABEL_MAX_TILE_FRAC_DEN as int,
        )
        &&& h <= least(
            padded(tile_h),
            tile_h * LABEL_MAX_TILE_FRAC_NUM / LABEL_MAX_TILE_FRAC_DEN as int,
        )
    }
}

/// The largest scale up to `s` at which a label fits.
pub open spec fn largest_fit(n: int, tile_w: u16, tile_h: u16, s: int) -> Option<u16>
    decreases s,
{
    if s <= 0 {
        None
    } else if label_fits(n, tile_w, tile_h, s) {
        Some(s as u16)
    } else {
        largest_fit(n, tile_w, tile_h, s - 1)
    }
}

/// The scale of a tile's label. Only ASCII names have one.
pub open spec fn picked_scale(name: Seq<char>, tile_w: u16, tile_h: u16, max_scale: u16) -> Option<
    u16,
> {
    if name.len() == 0 || !vstd::utf8::is_ascii_chars(name) {
        None
    } else {
        largest_fit(name.len() as int, tile_w, tile_h, max_scale as int)
    }
}

/// Whether a panel has large labels.
pub fn bitmap_enabled(area: Rect) -> (r: bool)
    ensures
        r == has_bitmaps(area),
{
    area.width >= BITMAP_MIN_TERMINAL_W && area.height >= BITMAP_MIN_TERMINAL_H
}

/// The largest scale of labels in a panel.
pub fn max_label_scale(area: Rect) -> (r: u16)
    ensures
        r == scale_limit(area),
        r <= bitmap_font::MAX_SCALE,
{
    if area.width >= 312 && area.height >= 92 {
        3
    } else if area.width >= 264 && area.height >= 80 {
        2
    } else if area.width >= 96 && area.height >= 30 {
        1
    } else {
        0
    }
}

/// The scale of a tile's label.
pub fn pick_label_scale(name: &str, tile_w: u16, tile_h: u16, max_scale: u16) -> (r: Option<u16>)
    requires
        max_scale <= bitmap_font::MAX_SCALE,
    ensures
        r == picked_scale(name@, tile_w, tile_h, max_scale),
        r is Some ==> 1 <= r->0 <= max_scale,
{
    let n = name.unicode_len();
    if n == 0 || !name.is_ascii() {
        return None;
    }
    let mut s: u16 = max_scale;
    while s > 0
        invariant
            s <= max_scale <= bitmap_font::MAX_SCALE,
            n == name@.len() > 0,
            vstd::utf8::is_ascii_chars(name@),
            largest_fit(n as int, tile_w, tile_h, s as int) == largest_fit(
                n as int,
                tile_w,
                tile_h,
                max_scale as int,
            ),
        decreases s,
    {
        if fits(n, tile_w, tile_h, s) {
            return Some(s);
        }
        s = s - 1;
    }
    None
}

fn fits(n: usize, tile_w: u16, tile_h: u16, s: u16) -> (r: bool)
    requires
        n > 0,
        1 <= s <= bitmap_font::MAX_SCALE,
    ensures
        r == label_fits(n as int, tile_w, tile_h, s as int),
{
    proof {
        assert(n * 8 * s + (n - 1) * 1 * s >= n) by (nonlinear_arith)
            requires
                n > 0,
                s >= 1,
        ;
    }
    if n > 65535 {
        return false;
    }
    proof {
        assert(n * 8 * s <= 65535 * 8 * 3) by (nonlinear_arith)
            requires
                n <= 65535,
                s <= 3,
        ;
        assert((n - 1) * 1 * s <= 65535 * 3) by (nonlinear_arith)
            requires
                0 < n <= 65535,
                s <= 3,
        ;
        assert((n - 1) * 1 * s >= 0) by (nonlinear_arith)
            requires
                n > 0,
        ;
        assert(n * 8 * s >= 0) by (nonlinear_arith);
    }
    let w: u32 = n as u32 * 8 * s as u32 + (n as u32 - 1) * 1 * s as u32;
    let h: u32 = 8 * s as u32;
    let pad_w: u32 = if tile_w >= 2 {
        tile_w as u32 - 2
    } else {
        0
    };
    let pad_h: u32 = if tile_h >= 2 {
        tile_h as u32 - 2
    } else {
        0
    };
    if s == 1 {
        w <= pad_w && h <= pad_h
    } else {
        let frac_w: u32 = tile_w as u32 * 3 / 5;
        let frac_h: u32 = tile_h as u32 * 3 / 5;
        w <= pad_w && w <= frac_w && h <= pad_h && h <= frac_h
    }
}

/// The label of a folder: its scale if it is a large one, else its rows of
/// text, and how many sub-rows its band takes.
pub open spec fn folder_label(rect: Rect, name: Seq<char>, bitmaps: bool, max_scale: u16) -> (
    Option<u16>,
    u16,
    u16,
) {
    let below = if rect.height >= 1 {
        (rect.height - FOLDER_BOTTOM_PAD) as u16
    } else {
        0
    };
    let scale = picked_scale(name, rect.width, below, max_scale);
    if rect.width < 4 {
        (None, 0, 0)
    } else if bitmaps && scale is Some && rect.height >= 2 * NESTED_BAND_PAD_SUBROWS + 8 * scale->0
        + FOLDER_BOTTOM_PAD {
        (scale, 0, (2 * NESTED_BAND_PAD_SUBROWS + 8 * scale->0) as u16)
    } else if rect.height >= NESTED_BAND_PAD_SUBROWS + 2 + FOLDER_BOTTOM_PAD {
        (None, 1, (NESTED_BAND_PAD_SUBROWS + 2) as u16)
    } else {
        (None, 0, 0)
    }
}

/// The label of a folder.
pub fn folder_label_info(rect: Rect, name: &str, bitmap_enabled: bool, max_scale: u16) -> (r: (
    Option<u16>,
    u16,
    u16,
))
    requires
        max_scale <= bitmap_font::MAX_SCALE,
    ensures
        r == folder_label(rect, name@, bitmap_enabled, max_scale),
        r.0 is Some ==> 1 <= r.0->0 <= max_scale,
        r.2 <= 26,
{
    if rect.width < 4 {
        return (None, 0, 0);
    }
    if bitmap_enabled {
        let below: u16 = if rect.height >= 1 {
            rect.height - FOLDER_BOTTOM_PAD
        } else {
            0
        };
        if let Some(scale) = pick_label_scale(name, rect.width, below, max_scale) {
            let band: u16 = 2 * NESTED_BAND_PAD_SUBROWS + bitmap_font::label_height(scale);
            if rect.height >= band + FOLDER_BOTTOM_PAD {
                return (Some(scale), 0, band);
            }
        }
    }
    let plain: u16 = NESTED_BAND_PAD_SUBROWS + 2;
    if rect.height >= plain + FOLDER_BOTTOM_PAD {
        return (None, 1, plain);
    }
    (None, 0, 0)
}

/// A label that is picked fits its tile, and no larger one would.
pub proof fn picked_label_fits(name: Seq<char>, tile_w: u16, tile_h: u16, max_scale: u16)
    ensures
        ({
            let s = picked_scale(name, tile_w, tile_h, max_scale);
            &&& s is Some ==> {
                &&& 1 <= s->0 <= max_scale
                &&& bitmap_font::label_cells(name.len() as int, s->0 as int) + 2 <= tile_w
                &&& 8 * s->0 + 2 <= tile_h
                &&& forall|t: int|
                    s->0 < t <= max_scale ==> !label_fits(
                        name.len() as int,
                        tile_w,
                        tile_h,
                        t,
                    )
            }
        }),
{
    lemma_largest_fit(name.len() as int, tile_w, tile_h, max_scale as int);
    if let Some(s) = picked_scale(name, tile_w, tile_h, max_scale) {
        let n = name.len() as int;
        assert(n * 8 * s + (n - 1) * 1 * s >= 1) by (nonlinear_arith)
            requires
                n > 0,
                s >= 1,
        ;
    }
}

proof fn lemma_largest_fit(n: int, tile_w: u16, tile_h: u16, s: int)
    requires
        s <= u16::MAX,
    ensures
        ({
            let r = largest_fit(n, tile_w, tile_h, s);
            &&& r is Some ==> {
                &&& 1 <= r->0 <= s
                &&& label_fits(n, tile_w, tile_h, r->0 as int)
                &&& forall|t: int| r->0 < t <= s ==> !label_fits(n, tile_w, tile_h, t)
            }
        }),
    decreases s,
{
    if s > 0 && !label_fits(n, tile_w, tile_h, s) {
        lemma_largest_fit(n, tile_w, tile_h, s - 1);
    }
}

/// Whether a tile has room for `n` characters that are `9 * scale` sub-cells
/// apart and `8 * scale` high, with one sub-cell left on each side; above the
/// smallest scale they take no more than three fifths of the tile.
pub open spec fn has_room(n: int, tile_w: u16, tile_h: u16, scale: int) -> bool {
    &&& (9 * n - 1) * scale + 2 <= tile_w
    &&& 8 * scale + 2 <= tile_h
    &&& scale > 1 ==> 5 * ((9 * n - 1) * scale) <= 3 * tile_w && 5 * (8 * scale) <= 3 * tile_h
}

proof fn lemma_room(n: int, tile_w: u16, tile_h: u16, scale: int)
    requires
        n >= 1,
        scale >= 1,
    ensures
        label_fits(n, tile_w, tile_h, scale) <==> has_room(n, tile_w, tile_h, scale),
{
    assert(n * 8 * scale + (n - 1) * 1 * scale == (9 * n - 1) * scale && (9 * n - 1) * scale >= 1)
        by (nonlinear_arith)
        requires
            n >= 1,
            scale >= 1,
    ;
}

proof fn lemma_largest_room(n: int, tile_w: u16, tile_h: u16, max: u16)
    requires
        n >= 1,
    ensures
        ({
            let r = largest_fit(n, tile_w, tile_h, max as int);
            &&& r is None ==> forall|s: int|
                1 <= s <= max ==> !#[trigger] has_room(n, tile_w, tile_h, s)
            &&& r is Some ==> 1 <= r->0 <= max && has_room(n, tile_w, tile_h, r->0 as int)
                && forall|s: int|
                r->0 < s <= max ==> !#[trigger] has_room(n, tile_w, tile_h, s)
        }),
    decreases max,
{
    if max > 0 {
        lemma_room(n, tile_w, tile_h, max as int);
        if !label_fits(n, tile_w, tile_h, max as int) {
            lemma_largest_room(n, tile_w, tile_h, (max - 1) as u16);
            assert(largest_fit(n, tile_w, tile_h, max as int) == largest_fit(
                n,
                tile_w,
                tile_h,
                max - 1,
            ));
        }
    }
}

/// A label is as large as its tile has room for, and is left out only where the
/// tile has no room for the smallest or the name cannot be written.
pub proof fn labels_are_as_large_as_they_fit(
    name: Seq<char>,
    tile_w: u16,
    tile_h: u16,
    max_scale: u16,
)
    ensures
        ({
            let n = name.len() as int;
            let r = picked_scale(name, tile_w, tile_h, max_scale);
            let writable = n > 0 && forall|i: int| 0 <= i < n ==> '\0' <= #[trigger] name[i] <= '\u{7f}';
            &&& r is None ==> !writable || forall|s: int|
                1 <= s <= max_scale ==> !#[trigger] has_room(n, tile_w, tile_h, s)
            &&& r is Some ==> writable && 1 <= r->0 <= max_scale && has_room(
                n,
                tile_w,
                tile_h,
                r->0 as int,
            ) && forall|s: int|
                r->0 < s <= max_scale ==> !#[trigger] has_room(n, tile_w, tile_h, s)
        }),
{
    let n = name.len() as int;
    if n >= 1 {
        lemma_largest_room(n, tile_w, tile_h, max_scale);
    }
}

/// Large labels begin with panels of 144 columns and 44 rows, and their scale
/// rises with the panel.
pub proof fn large_panels_have_large_labels(area: Rect)
    ensures
        has_bitmaps(area) <==> area.width >= 144 && area.height >= 44,
        scale_limit(area) <= 3,
        scale_limit(area) >= 1 <==> area.width >= 96 && area.height >= 30,
        scale_limit(area) >= 2 <==> area.width >= 264 && area.height >= 80,
        scale_limit(area) >= 3 <==> area.width >= 312 && area.height >= 92,
{
}

/// A folder's label is a large one where large labels are shown and there is
/// room for the label, a sub-row above and below it, and the border; else a line
/// of text where there is room for that; else there is none.
pub proof fn folders_are_labelled_if_there_is_room(
    rect: Rect,
    name: Seq<char>,
    bitmaps: bool,
    max_scale: u16,
)
    requires
        max_scale <= 3,
    ensures
        ({
            let (scale, rows, band) = folder_label(rect, name, bitmaps, max_scale);
            let fits = picked_scale(
                name,
                rect.width,
                if rect.height > 0 {
                    (rect.height - 1) as u16
                } else {
                    0
                },
                max_scale,
            );
            &&& scale is Some ==> bitmaps && scale == fits && rows == 0 && band == 8 * scale->0 + 2
                && band + 1 <= rect.height && rect.width >= 4
            &&& scale is None && bitmaps && rect.width >= 4 && fits is Some ==> rect.height < 8
                * fits->0 + 3
            &&& scale is None && rect.width >= 4 && rect.height >= 4 ==> rows == 1 && band == 3
            &&& scale is None && (rect.width < 4 || rect.height < 4) ==> rows == 0 && band == 0
        }),
{
    let below = if rect.height > 0 {
        (rect.height - 1) as u16
    } else {
        0
    };
    lemma_largest_fit(name.len() as int, rect.width, below, max_scale as int);
}

} // verus!
