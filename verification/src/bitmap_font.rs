//! Large labels, drawn into the colour grid from a bitmap font.
//!
//! Each pixel of a glyph becomes `scale` by `scale` sub-cells. The labels go
//! into the same grid as the tiles, so a sub-cell that is on becomes the upper
//! or the lower half of a character like any other.

use vstd::prelude::*;
use vstd::string::*;

use crate::grid;
use crate::grid::Color;

verus! {

/// The largest scale. Every scale from one up to this is a size for labels.
pub const MAX_SCALE: u16 = 3;

/// How many pixels a glyph is wide and high.
pub const GLYPH_PX: u16 = 8;

/// How many pixels stand between two glyphs.
pub const GLYPH_SPACING_PX: u16 = 1;

/// The rows of the glyph for a code below 128, from the top; the lowest bit of
/// a row is its left end.
pub uninterp spec fn legacy_rows(code: int) -> Seq<u8>;

/// `font8x8::legacy::BASIC_LEGACY` is a table of 128 glyphs of eight rows each.
#[verifier::external_body]
fn legacy_glyph(code: usize) -> (r: [u8; 8])
    requires
        code < 128,
    ensures
        r@ == legacy_rows(code as int),
{
    font8x8::legacy::BASIC_LEGACY[code]
}

/// The rows of the glyph for a character: that of a question mark where there
/// is none.
pub open spec fn glyph_rows(c: char) -> Seq<u8> {
    legacy_rows(
        if (c as int) < 128 {
            c as int
        } else {
            63
        },
    )
}

/// Whether a bit of a row is set.
pub open spec fn bit_set(row: u8, i: int) -> bool {
    (row >> (i as u8)) & 1 == 1
}

/// How many sub-cells wide a label of `n` characters is.
pub open spec fn label_cells(n: int, scale: int) -> int {
    if n == 0 || scale == 0 {
        0
    } else {
        n * GLYPH_PX * scale + (n - 1) * GLYPH_SPACING_PX * scale
    }
}

/// Whether a sub-cell lies on a set pixel of a glyph whose corner is at `x`
/// and `y`.
pub open spec fn glyph_on(rows: Seq<u8>, x: int, y: int, scale: int, row: int, col: int) -> bool {
    &&& x <= col < x + 8 * scale
    &&& y <= row < y + 8 * scale
    &&& bit_set(rows[(row - y) / scale], (col - x) / scale)
}

/// Whether a sub-cell lies on a set pixel of one of the first `n` glyphs of a
/// label whose corner is at `x` and `y`.
pub open spec fn label_on(
    text: Seq<char>,
    n: int,
    x: int,
    y: int,
    scale: int,
    row: int,
    col: int,
) -> bool {
    exists|k: int|
        0 <= k < n && #[trigger] glyph_on(
            glyph_rows(text[k]),
            x + k * (9 * scale),
            y,
            scale,
            row,
            col,
        )
}

/// Width in sub-cells `text` would occupy at `scale`.
pub fn label_width(text: &str, scale: u16) -> (r: u16)
    requires
        text@.len() * 9 * scale <= u16::MAX,
        text@.len() <= u16::MAX,
    ensures
        r == label_cells(text@.len() as int, scale as int),
{
    let n: u16 = text.unicode_len() as u16;
    if n == 0 || scale == 0 {
        return 0;
    }
    proof {
        assert(n * 8 * scale <= n * 9 * scale) by (nonlinear_arith);
        assert((n - 1) * 1 * scale >= 0) by (nonlinear_arith)
            requires
                n >= 1,
        ;
        assert(n * 8 * scale + (n - 1) * 1 * scale <= n * 9 * scale) by (nonlinear_arith);
        assert(n * 8 <= n * 8 * scale) by (nonlinear_arith)
            requires
                scale >= 1,
        ;
        assert((n - 1) * 1 <= (n - 1) * 1 * scale) by (nonlinear_arith)
            requires
                scale >= 1,
                n >= 1,
        ;
        assert(n * 8 * scale >= 0) by (nonlinear_arith);
    }
    n * GLYPH_PX * scale + (n - 1) * GLYPH_SPACING_PX * scale
}

/// Height in sub-cells a label at `scale` occupies.
pub fn label_height(scale: u16) -> (r: u16)
    requires
        scale <= 8191,
    ensures
        r == 8 * scale,
{
    GLYPH_PX * scale
}

/// Paints one glyph. Pixels outside the grid are clipped.
fn paint_glyph(
    cells: &mut Vec<Option<Color>>,
    cols: usize,
    sub_rows: usize,
    x: i64,
    y: i64,
    rows: &[u8; 8],
    fg: Color,
    s: i64,
)
    requires
        old(cells)@.len() == sub_rows * cols,
        cols <= i32::MAX,
        sub_rows <= i32::MAX,
        0 < s <= u16::MAX,
        -0x1_0000_0000 <= x <= 0x1_0000_0000,
        -0x1_0000_0000 <= y <= 0x1_0000_0000,
    ensures
        final(cells)@.len() == old(cells)@.len(),
        forall|r: int, c: int|
            0 <= r < sub_rows && 0 <= c < cols ==> #[trigger] grid::at(
                final(cells)@,
                cols as int,
                r,
                c,
            ) == if glyph_on(rows@, x as int, y as int, s as int, r, c) {
                Some(fg)
            } else {
                grid::at(old(cells)@, cols as int, r, c)
            },
{
    let y_end: i64 = if y + 8 * s < sub_rows as i64 {
        y + 8 * s
    } else {
        sub_rows as i64
    };
    let x_end: i64 = if x + 8 * s < cols as i64 {
        x + 8 * s
    } else {
        cols as i64
    };
    let y_start: i64 = if y > 0 {
        y
    } else {
        0
    };
    let x_start: i64 = if x > 0 {
        x
    } else {
        0
    };
    let mut sy: i64 = y_start;
    while sy < y_end
        invariant
            y_start <= sy,
            sy <= y_end || sy == y_start,
            y_start == if y > 0 { y } else { 0 },
            x_start == if x > 0 { x } else { 0 },
            y_end == if y + 8 * s < sub_rows { y + 8 * s } else { sub_rows as int },
            x_end == if x + 8 * s < cols { x + 8 * s } else { cols as int },
            cells@.len() == old(cells)@.len() == sub_rows * cols,
            cols <= i32::MAX,
            sub_rows <= i32::MAX,
            0 < s <= u16::MAX,
            -0x1_0000_0000 <= x <= 0x1_0000_0000,
            -0x1_0000_0000 <= y <= 0x1_0000_0000,
            forall|r: int, c: int|
                0 <= r < sub_rows && 0 <= c < cols ==> #[trigger] grid::at(
                    cells@,
                    cols as int,
                    r,
                    c,
                ) == if r < sy && glyph_on(rows@, x as int, y as int, s as int, r, c) {
                    Some(fg)
                } else {
                    grid::at(old(cells)@, cols as int, r, c)
                },
        decreases y_end - sy,
    {
        proof {
            lemma_pixel(sy as int, y as int, s as int);
        }
        let g: usize = ((sy - y) / s) as usize;
        let bits: u8 = rows[g];
        let mut sx: i64 = x_start;
        while sx < x_end
            invariant
                y_start <= sy < y_end,
                x_start <= sx,
                sx <= x_end || sx == x_start,
                y_start == if y > 0 { y } else { 0 },
                x_start == if x > 0 { x } else { 0 },
                y_end == if y + 8 * s < sub_rows { y + 8 * s } else { sub_rows as int },
                x_end == if x + 8 * s < cols { x + 8 * s } else { cols as int },
                cells@.len() == old(cells)@.len() == sub_rows * cols,
                cols <= i32::MAX,
                sub_rows <= i32::MAX,
                0 < s <= u16::MAX,
                -0x1_0000_0000 <= x <= 0x1_0000_0000,
                -0x1_0000_0000 <= y <= 0x1_0000_0000,
                bits == rows@[(sy - y) / s as int],
                forall|r: int, c: int|
                    0 <= r < sub_rows && 0 <= c < cols ==> #[trigger] grid::at(
                        cells@,
                        cols as int,
                        r,
                        c,
                    ) == if (r < sy || (r == sy && c < sx)) && glyph_on(
                        rows@,
                        x as int,
                        y as int,
                        s as int,
                        r,
                        c,
                    ) {
                        Some(fg)
                    } else {
                        grid::at(old(cells)@, cols as int, r, c)
                    },
            decreases x_end - sx,
        {
            proof {
                lemma_pixel(sx as int, x as int, s as int);
            }
            let p: u8 = ((sx - x) / s) as u8;
            if (bits >> p) & 1 == 1 {
                grid::set_at(cells, cols, sub_rows, sy as usize, sx as usize, Some(fg));
            }
            sx = sx + 1;
        }
        sy = sy + 1;
    }
}

proof fn lemma_pixel(a: int, o: int, s: int)
    requires
        o <= a < o + 8 * s,
        s > 0,
    ensures
        0 <= (a - o) / s < 8,
{
    let d = a - o;
    let q = d / s;
    vstd::arithmetic::div_mod::lemma_fundamental_div_mod(d, s);
    assert(0 <= q < 8) by (nonlinear_arith)
        requires
            d == s * q + d % s,
            0 <= d % s < s,
            0 <= d < 8 * s,
    ;
}

/// Paints `text` into the grid with its corner at sub-cell `x` and `y`, scaled
/// by `scale`. Pixels outside the grid are clipped.
pub fn paint(
    cells: &mut Vec<Option<Color>>,
    cols: usize,
    sub_rows: usize,
    x: i32,
    y: i32,
    text: &str,
    fg: Color,
    scale: u16,
)
    requires
        old(cells)@.len() == sub_rows * cols,
        cols <= i32::MAX,
        sub_rows <= i32::MAX,
    ensures
        final(cells)@.len() == old(cells)@.len(),
        forall|r: int, c: int|
            0 <= r < sub_rows && 0 <= c < cols ==> #[trigger] grid::at(
                final(cells)@,
                cols as int,
                r,
                c,
            ) == if label_on(
                text@,
                text@.len() as int,
                x as int,
                y as int,
                scale as int,
                r,
                c,
            ) {
                Some(fg)
            } else {
                grid::at(old(cells)@, cols as int, r, c)
            },
{
    if scale == 0 {
        return;
    }
    let s: i64 = scale as i64;
    let n = text.unicode_len();
    let mut pen_x: i64 = x as i64;
    let mut k: usize = 0;
    proof {
        assert(0 * (9 * s) == 0);
    }
    while k < n && pen_x < cols as i64
        invariant
            k <= n == text@.len(),
            cells@.len() == old(cells)@.len() == sub_rows * cols,
            cols <= i32::MAX,
            sub_rows <= i32::MAX,
            0 < s == scale,
            pen_x == x + k * (9 * s),
            x <= pen_x <= cols + 9 * s || k == 0,
            forall|r: int, c: int|
                0 <= r < sub_rows && 0 <= c < cols ==> #[trigger] grid::at(
                    cells@,
                    cols as int,
                    r,
                    c,
                ) == if label_on(text@, k as int, x as int, y as int, s as int, r, c) {
                    Some(fg)
                } else {
                    grid::at(old(cells)@, cols as int, r, c)
                },
        decreases n - k,
    {
        let ch = text.get_char(k);
        let code: u32 = ch as u32;
        let glyph = if code < 128 {
            legacy_glyph(code as usize)
        } else {
            legacy_glyph(63)
        };
        let ghost so_far = cells@;
        paint_glyph(cells, cols, sub_rows, pen_x, y as i64, &glyph, fg, s);
        proof {
            assert(x + (k + 1) * (9 * s) == pen_x + 9 * s) by (nonlinear_arith)
                requires
                    pen_x == x + k * (9 * s),
            ;
            assert forall|r: int, c: int| 0 <= r < sub_rows && 0 <= c < cols implies #[trigger] grid::at(
                cells@,
                cols as int,
                r,
                c,
            ) == if label_on(text@, k + 1, x as int, y as int, s as int, r, c) {
                Some(fg)
            } else {
                grid::at(old(cells)@, cols as int, r, c)
            } by {
                let now = glyph_on(glyph@, pen_x as int, y as int, s as int, r, c);
                assert(glyph@ == glyph_rows(text@[k as int]));
                if now {
                    assert(glyph_on(
                        glyph_rows(text@[k as int]),
                        x + (k as int) * (9 * s),
                        y as int,
                        s as int,
                        r,
                        c,
                    ));
                }
                assert(grid::at(so_far, cols as int, r, c) == if label_on(
                    text@,
                    k as int,
                    x as int,
                    y as int,
                    s as int,
                    r,
                    c,
                ) {
                    Some(fg)
                } else {
                    grid::at(old(cells)@, cols as int, r, c)
                });
            }
        }
        pen_x = pen_x + 9 * s;
        k = k + 1;
    }
    proof {
        assert forall|r: int, c: int| 0 <= r < sub_rows && 0 <= c < cols implies #[trigger] label_on(
            text@,
            n as int,
            x as int,
            y as int,
            s as int,
            r,
            c,
        ) == label_on(text@, k as int, x as int, y as int, s as int, r, c) by {
            if label_on(text@, n as int, x as int, y as int, s as int, r, c) {
                let j = choose|j: int|
                    0 <= j < n && #[trigger] glyph_on(
                        glyph_rows(text@[j]),
                        x + j * (9 * s),
                        y as int,
                        s as int,
                        r,
                        c,
                    );
                if j >= k {
                    assert(j * (9 * s) >= k * (9 * s)) by (nonlinear_arith)
                        requires
                            j >= k,
                            s > 0,
                    ;
                }
            }
        }
    }
}

} // verus!
