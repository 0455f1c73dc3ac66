//! Painting shapes: filled rectangles of sub-cells, two of which share a
//! character, with labels over them.

use vstd::prelude::*;
use vstd::string::*;

use crate::bitmap_font;
use crate::grid;
use crate::grid::{Cell, Color, Rect, Style};
use crate::ui::color;

verus! {

/// A large label: its scale, and the sub-cell of its corner.
#[derive(Clone, Copy, Debug, PartialEq, Eq, Structural)]
pub struct Label {
    pub scale: u16,
    pub x: i32,
    pub y: i32,
}

/// A line of text in a row of cells.
#[derive(Debug)]
pub struct TextRow {
    pub y: u32,
    pub text: String,
    pub style: Style,
}

/// A filled rectangle with its label: a large one, or lines of text.
#[derive(Debug)]
pub struct Shape {
    pub rect: Rect,
    pub bg: Color,
    pub name: String,
    pub label: Option<Label>,
    pub rows: Vec<TextRow>,
}

/// A line of text, as a sequence.
#[verifier::ext_equal]
pub struct RowModel {
    pub y: u32,
    pub text: Seq<char>,
    pub style: Style,
}

/// A shape, with texts as sequences.
#[verifier::ext_equal]
pub struct ShapeModel {
    pub rect: Rect,
    pub bg: Color,
    pub name: Seq<char>,
    pub label: Option<Label>,
    pub rows: Seq<RowModel>,
}

impl TextRow {
    /// The line.
    pub open spec fn model(self) -> RowModel {
        RowModel { y: self.y, text: self.text@, style: self.style }
    }
}

/// The lines.
pub open spec fn row_models(v: Seq<TextRow>) -> Seq<RowModel> {
    v.map_values(|r: TextRow| r.model())
}

impl Shape {
    /// The shape.
    pub open spec fn model(self) -> ShapeModel {
        ShapeModel {
            rect: self.rect,
            bg: self.bg,
            name: self.name@,
            label: self.label,
            rows: row_models(self.rows@),
        }
    }
}

/// The shapes.
pub open spec fn shape_models(v: Seq<Shape>) -> Seq<ShapeModel> {
    v.map_values(|s: Shape| s.model())
}

/// The colour of a sub-cell: that of the last of the first `k` shapes that
/// covers it.
pub open spec fn fill(shapes: Seq<ShapeModel>, k: int, row: int, col: int) -> Option<Color>
    decreases k,
{
    if k <= 0 {
        None
    } else if shapes[k - 1].rect.covers(row, col) {
        Some(shapes[k - 1].bg)
    } else {
        fill(shapes, k - 1, row, col)
    }
}

/// Whether a sub-cell lies on the large label of a shape.
pub open spec fn on_label(s: ShapeModel, row: int, col: int) -> bool {
    match s.label {
        Some(l) => bitmap_font::label_on(
            s.name,
            s.name.len() as int,
            l.x as int,
            l.y as int,
            l.scale as int,
            row,
            col,
        ),
        None => false,
    }
}

/// The colour of a sub-cell under the large labels of the first `k` shapes.
pub open spec fn labelled(shapes: Seq<ShapeModel>, k: int, row: int, col: int) -> Option<Color>
    decreases k,
{
    if k <= 0 {
        fill(shapes, shapes.len() as int, row, col)
    } else if on_label(shapes[k - 1], row, col) {
        Some(color::readable_on(shapes[k - 1].bg))
    } else {
        labelled(shapes, k - 1, row, col)
    }
}

/// A style with nothing set.
pub open spec fn plain() -> Style {
    Style { fg: None, bg: None, bold: false, dim: false }
}

/// The character whose halves have these colours.
pub open spec fn halves(top: Option<Color>, bottom: Option<Color>) -> Cell {
    match (top, bottom) {
        (Some(t), Some(b)) => if t == b {
            Cell { symbol: ' ', style: Style { bg: Some(t), ..plain() } }
        } else {
            Cell { symbol: '▀', style: Style { fg: Some(t), bg: Some(b), ..plain() } }
        },
        (Some(t), None) => Cell {
            symbol: '▀',
            style: Style { fg: Some(t), bg: Some(Color::Reset), ..plain() },
        },
        (None, Some(b)) => Cell {
            symbol: '▄',
            style: Style { fg: Some(b), bg: Some(Color::Reset), ..plain() },
        },
        (None, None) => Cell { symbol: ' ', style: Style { bg: Some(Color::Reset), ..plain() } },
    }
}

/// A cell under a line of text that starts at column `x`. The background stays
/// where the text has none of its own.
pub open spec fn under_row(cell: Cell, r: RowModel, x: int, row: int, col: int) -> Cell {
    if row == r.y && x <= col < x + r.text.len() {
        Cell {
            symbol: r.text[col - x],
            style: Style {
                bg: if r.style.bg is None {
                    cell.style.bg
                } else {
                    r.style.bg
                },
                ..r.style
            },
        }
    } else {
        cell
    }
}

/// A cell under the first `k` lines of a shape.
pub open spec fn under_rows(cell: Cell, s: ShapeModel, k: int, row: int, col: int) -> Cell
    decreases k,
{
    if k <= 0 {
        cell
    } else {
        under_row(
            under_rows(cell, s, k - 1, row, col),
            s.rows[k - 1],
            s.rect.left as int,
            row,
            col,
        )
    }
}

/// A cell of the picture, under the text of the first `k` shapes.
pub open spec fn picture(shapes: Seq<ShapeModel>, k: int, row: int, col: int) -> Cell
    decreases k,
{
    if k <= 0 {
        let n = shapes.len() as int;
        halves(labelled(shapes, n, 2 * row, col), labelled(shapes, n, 2 * row + 1, col))
    } else {
        under_rows(
            picture(shapes, k - 1, row, col),
            shapes[k - 1],
            shapes[k - 1].rows.len() as int,
            row,
            col,
        )
    }
}

/// The character whose halves have these colours.
fn half_block(top: Option<Color>, bottom: Option<Color>) -> (r: Cell)
    ensures
        r == halves(top, bottom),
{
    match (top, bottom) {
        (Some(t), Some(b)) => if t == b {
            Cell { symbol: ' ', style: Style { fg: None, bg: Some(t), bold: false, dim: false } }
        } else {
            Cell { symbol: '▀', style: Style { fg: Some(t), bg: Some(b), bold: false, dim: false } }
        },
        (Some(t), None) => Cell {
            symbol: '▀',
            style: Style { fg: Some(t), bg: Some(Color::Reset), bold: false, dim: false },
        },
        (None, Some(b)) => Cell {
            symbol: '▄',
            style: Style { fg: Some(b), bg: Some(Color::Reset), bold: false, dim: false },
        },
        (None, None) => Cell {
            symbol: ' ',
            style: Style { fg: None, bg: Some(Color::Reset), bold: false, dim: false },
        },
    }
}

/// Fills one rectangle. What lies outside the grid is clipped.
fn fill_rect(cells: &mut Vec<Option<Color>>, cols: usize, sub_rows: usize, r: Rect, c: Color)
    requires
        old(cells)@.len() == sub_rows * cols,
    ensures
        final(cells)@.len() == old(cells)@.len(),
        forall|row: int, col: int|
            0 <= row < sub_rows && 0 <= col < cols ==> #[trigger] grid::at(
                final(cells)@,
                cols as int,
                row,
                col,
            ) == if r.covers(row, col) {
                Some(c)
            } else {
                grid::at(old(cells)@, cols as int, row, col)
            },
{
    let right: u32 = r.left as u32 + r.width as u32;
    let bottom: u32 = r.top as u32 + r.height as u32;
    let x_end: usize = if (right as u64) < cols as u64 {
        right as usize
    } else {
        cols
    };
    let y_end: usize = if (bottom as u64) < sub_rows as u64 {
        bottom as usize
    } else {
        sub_rows
    };
    let mut sy: usize = r.top as usize;
    while sy < y_end
        invariant
            r.top <= sy,
            y_end == if r.top + r.height < sub_rows { r.top + r.height } else { sub_rows as int },
            x_end == if r.left + r.width < cols { r.left + r.width } else { cols as int },
            cells@.len() == old(cells)@.len() == sub_rows * cols,
            forall|row: int, col: int|
                0 <= row < sub_rows && 0 <= col < cols ==> #[trigger] grid::at(
                    cells@,
                    cols as int,
                    row,
                    col,
                ) == if row < sy && r.covers(row, col) {
                    Some(c)
                } else {
                    grid::at(old(cells)@, cols as int, row, col)
                },
        decreases y_end - sy,
    {
        let mut sx: usize = r.left as usize;
        while sx < x_end
            invariant
                r.top <= sy < y_end,
                r.left <= sx,
                y_end == if r.top + r.height < sub_rows { r.top + r.height } else { sub_rows as int },
                x_end == if r.left + r.width < cols { r.left + r.width } else { cols as int },
                cells@.len() == old(cells)@.len() == sub_rows * cols,
                forall|row: int, col: int|
                    0 <= row < sub_rows && 0 <= col < cols ==> #[trigger] grid::at(
                        cells@,
                        cols as int,
                        row,
                        col,
                    ) == if (row < sy || (row == sy && col < sx)) && r.covers(row, col) {
                        Some(c)
                    } else {
                        grid::at(old(cells)@, cols as int, row, col)
                    },
            decreases x_end - sx,
        {
            grid::set_at(cells, cols, sub_rows, sy, sx, Some(c));
            sx = sx + 1;
        }
        sy = sy + 1;
    }
}

/// The colours of all sub-cells.
fn raster(shapes: &Vec<Shape>, cols: usize, sub_rows: usize) -> (r: Vec<Option<Color>>)
    requires
        sub_rows * cols <= usize::MAX,
        cols <= i32::MAX,
        sub_rows <= i32::MAX,
    ensures
        r@.len() == sub_rows * cols,
        forall|row: int, col: int|
            0 <= row < sub_rows && 0 <= col < cols ==> #[trigger] grid::at(
                r@,
                cols as int,
                row,
                col,
            ) == labelled(shape_models(shapes@), shapes@.len() as int, row, col),
{
    let ghost ms = shape_models(shapes@);
    let mut cells: Vec<Option<Color>> = grid::filled(cols, sub_rows, None);
    let mut k: usize = 0;
    while k < shapes.len()
        invariant
            k <= shapes@.len() == ms.len(),
            ms == shape_models(shapes@),
            cells@.len() == sub_rows * cols,
            forall|row: int, col: int|
                0 <= row < sub_rows && 0 <= col < cols ==> #[trigger] grid::at(
                    cells@,
                    cols as int,
                    row,
                    col,
                ) == fill(ms, k as int, row, col),
        decreases shapes@.len() - k,
    {
        proof {
            assert(ms[k as int] == shapes@[k as int].model());
        }
        fill_rect(&mut cells, cols, sub_rows, shapes[k].rect, shapes[k].bg);
        k = k + 1;
    }
    k = 0;
    while k < shapes.len()
        invariant
            k <= shapes@.len() == ms.len(),
            ms == shape_models(shapes@),
            cells@.len() == sub_rows * cols,
            cols <= i32::MAX,
            sub_rows <= i32::MAX,
            forall|row: int, col: int|
                0 <= row < sub_rows && 0 <= col < cols ==> #[trigger] grid::at(
                    cells@,
                    cols as int,
                    row,
                    col,
                ) == labelled(ms, k as int, row, col),
        decreases shapes@.len() - k,
    {
        proof {
            assert(ms[k as int] == shapes@[k as int].model());
        }
        if let Some(l) = shapes[k].label {
            let fg = color::readable_fg(shapes[k].bg);
            bitmap_font::paint(
                &mut cells,
                cols,
                sub_rows,
                l.x,
                l.y,
                shapes[k].name.as_str(),
                fg,
                l.scale,
            );
        }
        k = k + 1;
    }
    cells
}

/// Writes one line of text, starting at column `x`. What lies outside the
/// picture is clipped.
fn write_row(cells: &mut Vec<Cell>, cols: usize, rows: usize, r: &TextRow, x: u16)
    requires
        old(cells)@.len() == rows * cols,
        cols <= 0xffff,
    ensures
        final(cells)@.len() == old(cells)@.len(),
        forall|row: int, col: int|
            0 <= row < rows && 0 <= col < cols ==> #[trigger] grid::at(
                final(cells)@,
                cols as int,
                row,
                col,
            ) == under_row(
                grid::at(old(cells)@, cols as int, row, col),
                r.model(),
                x as int,
                row,
                col,
            ),
{
    if r.y as u64 >= rows as u64 {
        return;
    }
    let y: usize = r.y as usize;
    let n = r.text.as_str().unicode_len();
    let mut i: usize = 0;
    while i < n && x as usize + i < cols
        invariant
            i <= n == r.text@.len(),
            y == r.y,
            y < rows,
            cols <= 0xffff,
            i <= cols,
            cells@.len() == old(cells)@.len() == rows * cols,
            forall|row: int, col: int|
                0 <= row < rows && 0 <= col < cols ==> #[trigger] grid::at(
                    cells@,
                    cols as int,
                    row,
                    col,
                ) == if col < x + i {
                    under_row(
                        grid::at(old(cells)@, cols as int, row, col),
                        r.model(),
                        x as int,
                        row,
                        col,
                    )
                } else {
                    grid::at(old(cells)@, cols as int, row, col)
                },
        decreases n - i,
    {
        let col: usize = x as usize + i;
        let cell = grid::get_at(cells, cols, rows, y, col);
        let mut style = r.style;
        if style.bg.is_none() {
            style.bg = cell.style.bg;
        }
        let symbol = r.text.as_str().get_char(i);
        grid::set_at(cells, cols, rows, y, col, Cell { symbol, style });
        i = i + 1;
    }
}

/// The picture of shapes in a panel, row by row.
pub fn draw(shapes: &Vec<Shape>, width: u16, height: u16) -> (cells: Vec<Cell>)
    requires
        2 * height * width <= usize::MAX,
    ensures
        cells@.len() == height * width,
        forall|row: int, col: int|
            0 <= row < height && 0 <= col < width ==> #[trigger] grid::at(
                cells@,
                width as int,
                row,
                col,
            ) == picture(shape_models(shapes@), shapes@.len() as int, row, col),
{
    let ghost ms = shape_models(shapes@);
    let ghost n = shapes@.len() as int;
    let cols: usize = width as usize;
    let rows: usize = height as usize;
    proof {
        assert(2 * height * width == (2 * rows) * cols) by (nonlinear_arith)
            requires
                rows == height,
                cols == width,
        ;
        assert(rows * cols <= (2 * rows) * cols) by (nonlinear_arith);
        assert(2 * height * width >= 0) by (nonlinear_arith);
    }
    let colors = raster(shapes, cols, 2 * rows);
    let blank = Cell {
        symbol: ' ',
        style: Style { fg: None, bg: None, bold: false, dim: false },
    };
    let mut cells: Vec<Cell> = grid::filled(cols, rows, blank);
    let mut cy: usize = 0;
    while cy < rows
        invariant
            cy <= rows,
            rows <= 0xffff,
            cells@.len() == rows * cols,
            colors@.len() == (2 * rows) * cols,
            n == ms.len(),
            forall|row: int, col: int|
                0 <= row < 2 * rows && 0 <= col < cols ==> #[trigger] grid::at(
                    colors@,
                    cols as int,
                    row,
                    col,
                ) == labelled(ms, n, row, col),
            forall|row: int, col: int|
                0 <= row < cy && 0 <= col < cols ==> #[trigger] grid::at(
                    cells@,
                    cols as int,
                    row,
                    col,
                ) == picture(ms, 0, row, col),
        decreases rows - cy,
    {
        let mut cx: usize = 0;
        while cx < cols
            invariant
                cx <= cols,
                cy < rows,
                rows <= 0xffff,
                cells@.len() == rows * cols,
                colors@.len() == (2 * rows) * cols,
                n == ms.len(),
                forall|row: int, col: int|
                    0 <= row < 2 * rows && 0 <= col < cols ==> #[trigger] grid::at(
                        colors@,
                        cols as int,
                        row,
                        col,
                    ) == labelled(ms, n, row, col),
                forall|row: int, col: int|
                    0 <= row < rows && 0 <= col < cols && (row < cy || (row == cy && col < cx))
                        ==> #[trigger] grid::at(cells@, cols as int, row, col) == picture(
                        ms,
                        0,
                        row,
                        col,
                    ),
            decreases cols - cx,
        {
            let top = grid::get_at(&colors, cols, 2 * rows, 2 * cy, cx);
            let bottom = grid::get_at(&colors, cols, 2 * rows, 2 * cy + 1, cx);
            grid::set_at(&mut cells, cols, rows, cy, cx, half_block(top, bottom));
            cx = cx + 1;
        }
        cy = cy + 1;
    }
    let mut k: usize = 0;
    while k < shapes.len()
        invariant
            k <= shapes@.len() == ms.len(),
            ms == shape_models(shapes@),
            cols <= 0xffff,
            cells@.len() == rows * cols,
            forall|row: int, col: int|
                0 <= row < rows && 0 <= col < cols ==> #[trigger] grid::at(
                    cells@,
                    cols as int,
                    row,
                    col,
                ) == picture(ms, k as int, row, col),
        decreases shapes@.len() - k,
    {
        let ghost s = ms[k as int];
        let ghost before = cells@;
        proof {
            assert(s == shapes@[k as int].model());
        }
        let mut j: usize = 0;
        while j < shapes[k].rows.len()
            invariant
                k < shapes@.len(),
                j <= shapes@[k as int].rows@.len() == s.rows.len(),
                s == shapes@[k as int].model(),
                cols <= 0xffff,
                cells@.len() == rows * cols,
                forall|row: int, col: int|
                    0 <= row < rows && 0 <= col < cols ==> #[trigger] grid::at(
                        cells@,
                        cols as int,
                        row,
                        col,
                    ) == under_rows(
                        grid::at(before, cols as int, row, col),
                        s,
                        j as int,
                        row,
                        col,
                    ),
            decreases shapes@[k as int].rows@.len() - j,
        {
            proof {
                assert(s.rows[j as int] == shapes@[k as int].rows@[j as int].model());
            }
            write_row(&mut cells, cols, rows, &shapes[k].rows[j], shapes[k].rect.left);
            j = j + 1;
        }
        k = k + 1;
    }
    cells
}

/// The colour of the upper half of a character.
pub open spec fn upper(c: Cell) -> Option<Color> {
    if c.symbol == '▀' {
        c.style.fg
    } else {
        c.style.bg
    }
}

/// The colour of the lower half of a character.
pub open spec fn lower(c: Cell) -> Option<Color> {
    if c.symbol == '▄' {
        c.style.fg
    } else {
        c.style.bg
    }
}

/// A character shows both of its sub-cells; one without a colour shows the
/// terminal's own.
pub proof fn characters_show_both_halves(top: Option<Color>, bottom: Option<Color>)
    ensures
        upper(halves(top, bottom)) == Some(
            match top {
                Some(c) => c,
                None => Color::Reset,
            },
        ),
        lower(halves(top, bottom)) == Some(
            match bottom {
                Some(c) => c,
                None => Color::Reset,
            },
        ),
        halves(top, bottom).symbol == ' ' || halves(top, bottom).symbol == '▀' || halves(
            top,
            bottom,
        ).symbol == '▄',
{
}

/// Whether a sub-cell lies in a shape.
pub open spec fn lies_on(s: ShapeModel, row: int, col: int) -> bool {
    s.rect.top <= row < s.rect.top + s.rect.height && s.rect.left <= col < s.rect.left
        + s.rect.width
}

proof fn lemma_fill(shapes: Seq<ShapeModel>, n: int, row: int, col: int, k: int)
    requires
        -1 <= k < n <= shapes.len(),
        k >= 0 ==> lies_on(shapes[k], row, col),
        forall|j: int| k < j < n ==> !lies_on(#[trigger] shapes[j], row, col),
    ensures
        fill(shapes, n, row, col) == if k >= 0 {
            Some(shapes[k].bg)
        } else {
            None
        },
    decreases n,
{
    if n > 0 {
        if k < n - 1 {
            assert(!lies_on(shapes[n - 1], row, col));
            lemma_fill(shapes, n - 1, row, col, k);
        }
    }
}

proof fn lemma_labelled(shapes: Seq<ShapeModel>, n: int, row: int, col: int, k: int)
    requires
        -1 <= k < n <= shapes.len(),
        k >= 0 ==> on_label(shapes[k], row, col),
        forall|j: int| k < j < n ==> !on_label(#[trigger] shapes[j], row, col),
    ensures
        labelled(shapes, n, row, col) == if k >= 0 {
            Some(color::readable_on(shapes[k].bg))
        } else {
            fill(shapes, shapes.len() as int, row, col)
        },
    decreases n,
{
    if n > 0 && k < n - 1 {
        assert(!on_label(shapes[n - 1], row, col));
        lemma_labelled(shapes, n - 1, row, col, k);
    }
}

/// A sub-cell has the colour of the last shape that lies there, or none where no
/// shape does; on a large label it has the colour in which text can be read on
/// the label's shape.
pub proof fn the_topmost_shape_is_seen(shapes: Seq<ShapeModel>, row: int, col: int, k: int, l: int)
    requires
        -1 <= k < shapes.len(),
        k >= 0 ==> lies_on(shapes[k], row, col),
        forall|j: int| k < j < shapes.len() ==> !lies_on(#[trigger] shapes[j], row, col),
        -1 <= l < shapes.len(),
        l >= 0 ==> on_label(shapes[l], row, col),
        forall|j: int| l < j < shapes.len() ==> !on_label(#[trigger] shapes[j], row, col),
    ensures
        labelled(shapes, shapes.len() as int, row, col) == if l >= 0 {
            Some(color::readable_on(shapes[l].bg))
        } else if k >= 0 {
            Some(shapes[k].bg)
        } else {
            None
        },
{
    let n = shapes.len() as int;
    if n > 0 {
        lemma_fill(shapes, n, row, col, k);
        lemma_labelled(shapes, n, row, col, l);
    }
}

/// Whether a line of a shape's text stands on a cell.
pub open spec fn has_text(s: ShapeModel, i: int, row: int, col: int) -> bool {
    &&& 0 <= i < s.rows.len()
    &&& s.rows[i].y == row
    &&& s.rect.left <= col < s.rect.left + s.rows[i].text.len()
}

proof fn lemma_under_rows(cell: Cell, s: ShapeModel, n: int, row: int, col: int, i: int)
    requires
        -1 <= i < n <= s.rows.len(),
        i >= 0 ==> has_text(s, i, row, col),
        forall|j: int| i < j < n ==> !#[trigger] has_text(s, j, row, col),
    ensures
        i < 0 ==> under_rows(cell, s, n, row, col) == cell,
        i >= 0 ==> {
            let c = under_rows(cell, s, n, row, col);
            &&& c.symbol == s.rows[i].text[col - s.rect.left]
            &&& c.style.fg == s.rows[i].style.fg
            &&& c.style.bold == s.rows[i].style.bold
            &&& c.style.dim == s.rows[i].style.dim
        },
    decreases n,
{
    if n > 0 && i < n - 1 {
        assert(!has_text(s, n - 1, row, col));
        lemma_under_rows(cell, s, n - 1, row, col, i);
    }
}

proof fn lemma_picture(shapes: Seq<ShapeModel>, n: int, row: int, col: int, k: int, i: int)
    requires
        -1 <= k < n <= shapes.len(),
        k >= 0 ==> has_text(shapes[k], i, row, col),
        k >= 0 ==> forall|j: int|
            i < j < shapes[k].rows.len() ==> !#[trigger] has_text(shapes[k], j, row, col),
        forall|m: int, j: int|
            k < m < n && 0 <= j < shapes[m].rows.len() ==> !#[trigger] has_text(
                shapes[m],
                j,
                row,
                col,
            ),
    ensures
        k < 0 ==> picture(shapes, n, row, col) == picture(shapes, 0, row, col),
        k >= 0 ==> {
            let c = picture(shapes, n, row, col);
            &&& c.symbol == shapes[k].rows[i].text[col - shapes[k].rect.left]
            &&& c.style.fg == shapes[k].rows[i].style.fg
            &&& c.style.bold == shapes[k].rows[i].style.bold
            &&& c.style.dim == shapes[k].rows[i].style.dim
        },
    decreases n,
{
    if n > 0 {
        let s = shapes[n - 1];
        let before = picture(shapes, n - 1, row, col);
        if k < n - 1 {
            lemma_picture(shapes, n - 1, row, col, k, i);
            lemma_under_rows(before, s, s.rows.len() as int, row, col, -1);
        } else {
            lemma_under_rows(before, s, s.rows.len() as int, row, col, i);
        }
    }
}

/// Text stands over everything else: a cell shows the character of the last line
/// that stands there; without text it shows the colours of its two sub-cells.
pub proof fn text_stands_over_colours(
    shapes: Seq<ShapeModel>,
    row: int,
    col: int,
    k: int,
    i: int,
)
    requires
        -1 <= k < shapes.len(),
        k >= 0 ==> has_text(shapes[k], i, row, col),
        k >= 0 ==> forall|j: int|
            i < j < shapes[k].rows.len() ==> !#[trigger] has_text(shapes[k], j, row, col),
        forall|m: int, j: int|
            k < m < shapes.len() && 0 <= j < shapes[m].rows.len() ==> !#[trigger] has_text(
                shapes[m],
                j,
                row,
                col,
            ),
    ensures
        ({
            let n = shapes.len() as int;
            let c = picture(shapes, n, row, col);
            &&& k < 0 ==> upper(c) == Some(
                match labelled(shapes, n, 2 * row, col) {
                    Some(x) => x,
                    None => Color::Reset,
                },
            ) && lower(c) == Some(
                match labelled(shapes, n, 2 * row + 1, col) {
                    Some(x) => x,
                    None => Color::Reset,
                },
            )
            &&& k >= 0 ==> c.symbol == shapes[k].rows[i].text[col - shapes[k].rect.left]
                && c.style.fg == shapes[k].rows[i].style.fg
        }),
{
    let n = shapes.len() as int;
    if n > 0 {
        lemma_picture(shapes, n, row, col, k, i);
    }
}

} // verus!
