//! The frame buffer: a grid of character cells.

use vstd::prelude::*;
use crate::color::Rgb;

verus! {

/// The glyph of an empty cell.
pub const BACKGROUND: u8 = 32;

/// One character cell: a glyph, and a color unless none was set.
#[derive(Clone, Copy, Debug, PartialEq, Eq, Structural)]
pub struct Cell {
    pub glyph: u8,
    pub color: Option<Rgb>,
}

/// A grid of cells, row by row from the top.
pub struct FrameBuffer {
    width: u16,
    height: u16,
    cells: Vec<Cell>,
}

/// The empty cell: the background glyph, no color.
pub open spec fn blank() -> Cell {
    Cell { glyph: BACKGROUND, color: None }
}

impl View for FrameBuffer {
    type V = Seq<Cell>;

    closed spec fn view(&self) -> Seq<Cell> {
        self.cells@
    }
}

impl FrameBuffer {
    /// The number of columns.
    pub closed spec fn cols(&self) -> nat {
        self.width as nat
    }

    /// The number of rows.
    pub closed spec fn rows(&self) -> nat {
        self.height as nat
    }

    /// A frame buffer holds one cell for each column of each row.
    pub closed spec fn wf(&self) -> bool {
        self.cells@.len() == self.width * self.height
    }

    /// The cell in column `i` of row `j`.
    pub open spec fn cell(&self, i: int, j: int) -> Cell {
        self@[j * self.cols() + i]
    }

    /// Whether every cell is empty.
    pub open spec fn is_blank(&self) -> bool {
        forall|k: int| 0 <= k < self@.len() ==> self@[k] == blank()
    }

    /// A well-formed buffer has as many cells as its columns times its rows.
    pub proof fn lemma_len(&self)
        requires
            self.wf(),
        ensures
            self@.len() == self.cols() * self.rows(),
            self.cols() <= u16::MAX,
            self.rows() <= u16::MAX,
    {
    }

    /// A buffer of `width` by `height` empty cells.
    pub fn new(width: u16, height: u16) -> (buf: FrameBuffer)
        ensures
            buf.wf(),
            buf.cols() == width,
            buf.rows() == height,
            buf@.len() == width * height,
            buf.is_blank(),
    {
        let total: usize = cell_count(width, height);
        let mut cells: Vec<Cell> = Vec::new();
        while cells.len() < total
            invariant
                cells.len() <= total,
                forall|k: int| 0 <= k < cells.len() ==> cells[k] == blank(),
            decreases total - cells.len(),
        {
            cells.push(Cell { glyph: BACKGROUND, color: None });
        }
        FrameBuffer { width, height, cells }
    }

    /// The number of columns.
    pub fn width(&self) -> (w: u16)
        ensures
            w == self.cols(),
    {
        self.width
    }

    /// The number of rows.
    pub fn height(&self) -> (h: u16)
        ensures
            h == self.rows(),
    {
        self.height
    }

    /// Resets every cell to the empty cell; the size stays.
    pub fn clear(&mut self)
        requires
            old(self).wf(),
        ensures
            final(self).wf(),
            final(self).cols() == old(self).cols(),
            final(self).rows() == old(self).rows(),
            final(self)@.len() == old(self).cols() * old(self).rows(),
            final(self).is_blank(),
    {
        let total: usize = self.cells.len();
        let mut k: usize = 0;
        while k < total
            invariant
                k <= total,
                self.cells.len() == total,
                self.width == old(self).width,
                self.height == old(self).height,
                forall|m: int| 0 <= m < k ==> self.cells[m] == blank(),
            decreases total - k,
        {
            self.cells.set(k, Cell { glyph: BACKGROUND, color: None });
            k += 1;
        }
    }

    /// The cell in column `i` of row `j`.
    pub fn get(&self, i: u16, j: u16) -> (c: Cell)
        requires
            self.wf(),
            i < self.cols(),
            j < self.rows(),
        ensures
            c == self.cell(i as int, j as int),
    {
        let k: usize = cell_index(i, j, self.width, self.height);
        self.cells[k]
    }

    /// Writes `c` to the cell in column `i` of row `j`; no other cell changes.
    pub fn put(&mut self, i: u16, j: u16, c: Cell)
        requires
            old(self).wf(),
            i < old(self).cols(),
            j < old(self).rows(),
        ensures
            final(self).wf(),
            final(self).cols() == old(self).cols(),
            final(self).rows() == old(self).rows(),
            final(self)@ == old(self)@.update(j * old(self).cols() + i, c),
    {
        let k: usize = cell_index(i, j, self.width, self.height);
        self.cells.set(k, c);
    }
}

/// The number of cells of a grid.
fn cell_count(width: u16, height: u16) -> (n: usize)
    ensures
        n == width * height,
{
    assert(width * height <= 0xffff * 0xffff) by (nonlinear_arith)
        requires
            0 <= width <= 0xffff,
            0 <= height <= 0xffff,
    ;
    (width as usize) * (height as usize)
}

/// The place of the cell in column `i` of row `j` in a grid stored row by
/// row.
fn cell_index(i: u16, j: u16, width: u16, height: u16) -> (k: usize)
    requires
        i < width,
        j < height,
    ensures
        k == j * width + i,
        k < width * height,
{
    assert(j * width + i < width * height <= 0xffff * 0xffff) by (nonlinear_arith)
        requires
            0 <= i < width <= 0xffff,
            0 <= j < height <= 0xffff,
    ;
    (j as usize) * (width as usize) + (i as usize)
}

} // verus!
