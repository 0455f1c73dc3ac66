//! Screen geometry, colours and cells.

use vstd::prelude::*;

verus! {

/// A rectangle of cells or sub-cells.
#[derive(Clone, Copy, Debug, PartialEq, Eq, Structural)]
pub struct Rect {
    pub top: u16,
    pub left: u16,
    pub width: u16,
    pub height: u16,
}

impl Rect {
    /// A rectangle by its corner and size.
    pub fn new(top: u16, left: u16, width: u16, height: u16) -> (r: Rect)
        ensures
            r == (Rect { top, left, width, height }),
    {
        Rect { top, left, width, height }
    }

    /// Whether the cell at `row` and `col` lies inside.
    pub open spec fn covers(self, row: int, col: int) -> bool {
        &&& self.top <= row < self.top + self.height
        &&& self.left <= col < self.left + self.width
    }

    /// Whether all of it lies in `area`.
    pub open spec fn lies_in(self, area: Rect) -> bool {
        &&& area.top <= self.top
        &&& area.left <= self.left
        &&& self.top + self.height <= area.top + area.height
        &&& self.left + self.width <= area.left + area.width
    }

    /// Whether its edges are coordinates of the screen.
    pub open spec fn addressable(self) -> bool {
        self.left + self.width <= u16::MAX && self.top + self.height <= u16::MAX
    }

    /// Whether it has no cell in common with `other`.
    pub open spec fn apart_from(self, other: Rect) -> bool {
        ||| self.left + self.width <= other.left
        ||| other.left + other.width <= self.left
        ||| self.top + self.height <= other.top
        ||| other.top + other.height <= self.top
    }

    /// Whether the cell at `row` and `col` lies inside.
    pub fn contains(&self, row: u16, col: u16) -> (r: bool)
        ensures
            r == self.covers(row as int, col as int),
    {
        row >= self.top && (row - self.top) < self.height && col >= self.left && (col - self.left)
            < self.width
    }
}

/// A terminal colour.
#[derive(Clone, Copy, Debug, PartialEq, Eq, Structural)]
pub enum Color {
    Reset,
    Black,
    DarkGrey,
    Grey,
    White,
    Red,
    Green,
    Yellow,
    Magenta,
    Cyan,
    Rgb { r: u8, g: u8, b: u8 },
}

/// How a cell is drawn.
#[derive(Clone, Copy, Debug, PartialEq, Eq, Structural)]
pub struct Style {
    pub fg: Option<Color>,
    pub bg: Option<Color>,
    pub bold: bool,
    pub dim: bool,
}

/// One character on the screen.
#[derive(Clone, Copy, Debug, PartialEq, Eq, Structural)]
pub struct Cell {
    pub symbol: char,
    pub style: Style,
}

/// What stands at a row and a column of a table with `cols` columns.
pub open spec fn at<T>(cells: Seq<T>, cols: int, row: int, col: int) -> T {
    cells[row * cols + col]
}

/// The place of a cell in its table.
pub proof fn lemma_place(cols: int, rows: int, row: int, col: int)
    requires
        0 <= row < rows,
        0 <= col < cols,
    ensures
        0 <= row * cols + col < rows * cols,
        row * cols >= 0,
{
    assert(0 <= row * cols + col < rows * cols) by (nonlinear_arith)
        requires
            0 <= row < rows,
            0 <= col < cols,
    ;
    assert(row * cols >= 0) by (nonlinear_arith)
        requires
            0 <= row,
            0 <= cols,
    ;
}

/// Different cells have different places.
pub proof fn lemma_places_differ(cols: int, row: int, col: int, row2: int, col2: int)
    requires
        0 <= col < cols,
        0 <= col2 < cols,
        row * cols + col == row2 * cols + col2,
    ensures
        row == row2,
        col == col2,
{
    assert(row == row2) by (nonlinear_arith)
        requires
            0 <= col < cols,
            0 <= col2 < cols,
            row * cols + col == row2 * cols + col2,
    ;
}

/// Sets one cell of a table.
pub fn set_at<T>(cells: &mut Vec<T>, cols: usize, rows: usize, row: usize, col: usize, v: T)
    requires
        old(cells)@.len() == rows * cols,
        row < rows,
        col < cols,
    ensures
        final(cells)@.len() == old(cells)@.len(),
        forall|r: int, c: int|
            0 <= r < rows && 0 <= c < cols ==> #[trigger] at(final(cells)@, cols as int, r, c)
                == if r == row && c == col {
                v
            } else {
                at(old(cells)@, cols as int, r, c)
            },
{
    let n: usize = cells.len();
    proof {
        lemma_place(cols as int, rows as int, row as int, col as int);
        assert(row * cols + col < n);
    }
    let i: usize = row * cols + col;
    cells.set(i, v);
    proof {
        assert forall|r: int, c: int| 0 <= r < rows && 0 <= c < cols implies #[trigger] at(
            cells@,
            cols as int,
            r,
            c,
        ) == if r == row && c == col {
            v
        } else {
            at(old(cells)@, cols as int, r, c)
        } by {
            lemma_place(cols as int, rows as int, r, c);
            if r * cols + c == i {
                lemma_places_differ(cols as int, row as int, col as int, r, c);
            }
        }
    }
}

/// One cell of a table.
pub fn get_at<T: Copy>(cells: &Vec<T>, cols: usize, rows: usize, row: usize, col: usize) -> (r: T)
    requires
        cells@.len() == rows * cols,
        row < rows,
        col < cols,
    ensures
        r == at(cells@, cols as int, row as int, col as int),
{
    let n: usize = cells.len();
    proof {
        lemma_place(cols as int, rows as int, row as int, col as int);
        assert(row * cols + col < n);
    }
    cells[row * cols + col]
}

/// A table with the same value everywhere.
pub fn filled<T: Copy>(cols: usize, rows: usize, v: T) -> (r: Vec<T>)
    requires
        rows * cols <= usize::MAX,
    ensures
        r@.len() == rows * cols,
        forall|row: int, col: int|
            0 <= row < rows && 0 <= col < cols ==> #[trigger] at(r@, cols as int, row, col) == v,
{
    let n: usize = rows * cols;
    let mut out: Vec<T> = Vec::new();
    let mut i: usize = 0;
    while i < n
        invariant
            i <= n == rows * cols,
            out@.len() == i,
            forall|k: int| 0 <= k < i ==> out@[k] == v,
        decreases n - i,
    {
        out.push(v);
        i = i + 1;
    }
    proof {
        assert forall|row: int, col: int| 0 <= row < rows && 0 <= col < cols implies #[trigger] at(
            out@,
            cols as int,
            row,
            col,
        ) == v by {
            lemma_place(cols as int, rows as int, row, col);
        }
    }
    out
}

} // verus!
