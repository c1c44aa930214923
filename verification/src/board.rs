//! The board, its cells and the errors that the engine reports.

use vstd::prelude::*;
use crate::hazards::hazard_count;
use crate::hazards::lemma_no_hazards;

verus! {

/// One grid position.
#[derive(Clone, Copy, Debug, PartialEq, Eq)]
pub struct Square {
    /// Column of the cell.
    pub x: usize,
    /// Row of the cell.
    pub y: usize,
    /// Whether the cell has been revealed.
    pub visible: bool,
    /// Whether the cell hides a hazard.
    pub bomb: bool,
    /// Number of hazards among the up to eight adjacent cells.
    pub value: u32,
}

/// The failures that the engine reports to its caller.
#[derive(Clone, Copy, Debug, PartialEq, Eq)]
pub enum GameError {
    /// The coordinates name no cell of the grid.
    OutOfBounds,
    /// The board has no cells, or the requested density is not in `[0, 1)`.
    InvalidConfiguration,
}

/// A rectangular grid of cells in row-major order.
pub struct Board {
    width: usize,
    height: usize,
    squares: Vec<Square>,
}

impl Board {
    /// Number of columns.
    pub closed spec fn cols(&self) -> nat {
        self.width as nat
    }

    /// Number of rows.
    pub closed spec fn rows(&self) -> nat {
        self.height as nat
    }

    /// The cells, in row-major order.
    pub closed spec fn cells(&self) -> Seq<Square> {
        self.squares@
    }

    /// The board holds one cell for each grid position, and each cell stores
    /// the coordinates of its own position.
    pub open spec fn wf(&self) -> bool {
        &&& self.cells().len() == self.cols() * self.rows()
        &&& self.cells().len() <= isize::MAX
        &&& forall|i: int|
            0 <= i < self.cells().len() ==> {
                &&& (#[trigger] self.cells()[i]).x == i % (self.cols() as int)
                &&& self.cells()[i].y == i / (self.cols() as int)
            }
    }

    /// Two boards have the same shape and the same hazards and counts; only
    /// what is revealed may differ.
    pub open spec fn same_layout(&self, other: &Board) -> bool {
        &&& self.cols() == other.cols()
        &&& self.rows() == other.rows()
        &&& self.cells().len() == other.cells().len()
        &&& forall|i: int|
            0 <= i < self.cells().len() ==> {
                &&& (#[trigger] self.cells()[i]).x == other.cells()[i].x
                &&& self.cells()[i].y == other.cells()[i].y
                &&& self.cells()[i].bomb == other.cells()[i].bomb
                &&& self.cells()[i].value == other.cells()[i].value
            }
    }

    /// A board of the given dimensions that holds no cells yet.
    pub fn new(width: usize, height: usize) -> (board: Board)
        ensures
            board.cols() == width,
            board.rows() == height,
            board.cells().len() == 0,
    {
        Board { width, height, squares: Vec::new() }
    }

    /// Number of columns.
    pub fn width(&self) -> (w: usize)
        ensures
            w == self.cols(),
    {
        self.width
    }

    /// Number of rows.
    pub fn height(&self) -> (h: usize)
        ensures
            h == self.rows(),
    {
        self.height
    }

    /// Number of cells that the board holds.
    pub fn cell_count(&self) -> (n: usize)
        ensures
            n == self.cells().len(),
    {
        self.squares.len()
    }

    /// The cell at a row-major index.
    pub fn square(&self, index: usize) -> (s: Square)
        requires
            index < self.cells().len(),
        ensures
            s == self.cells()[index as int],
    {
        self.squares[index]
    }

    /// Number of grid positions, `width * height`.
    pub fn size(&self) -> (n: usize)
        requires
            self.cols() * self.rows() <= usize::MAX,
        ensures
            n == self.cols() * self.rows(),
    {
        self.width * self.height
    }

    /// Fills the board with one blank cell for each grid position: hidden,
    /// free of hazards, with a count of zero. Cells held before are dropped.
    pub fn init(&mut self)
        requires
            old(self).cols() * old(self).rows() <= isize::MAX,
        ensures
            final(self).wf(),
            final(self).cols() == old(self).cols(),
            final(self).rows() == old(self).rows(),
            hazard_count(final(self).cells()) == 0,
            forall|i: int|
                0 <= i < final(self).cells().len() ==> {
                    &&& !(#[trigger] final(self).cells()[i]).visible
                    &&& !final(self).cells()[i].bomb
                    &&& final(self).cells()[i].value == 0
                },
    {
        let n = self.width * self.height;
        self.squares = Vec::new();
        let mut index: usize = 0;
        while index < n
            invariant
                index <= n,
                n == self.width * self.height,
                n <= isize::MAX,
                self.width == old(self).width,
                self.height == old(self).height,
                self.squares@.len() == index,
                forall|i: int|
                    0 <= i < index ==> {
                        &&& (#[trigger] self.squares@[i]).x == i % (self.width as int)
                        &&& self.squares@[i].y == i / (self.width as int)
                        &&& !self.squares@[i].visible
                        &&& !self.squares@[i].bomb
                        &&& self.squares@[i].value == 0
                    },
            decreases n - index,
        {
            assert(self.width > 0) by (nonlinear_arith)
                requires
                    index < self.width * self.height,
            ;
            let s = Square {
                x: index % self.width,
                y: index / self.width,
                visible: false,
                bomb: false,
                value: 0,
            };
            self.squares.push(s);
            index += 1;
        }
        proof {
            lemma_no_hazards(self.squares@, self.squares@.len());
        }
    }

    /// Replaces the cell at `index`.
    pub(crate) fn put(&mut self, index: usize, s: Square)
        requires
            index < old(self).cells().len(),
        ensures
            final(self).cols() == old(self).cols(),
            final(self).rows() == old(self).rows(),
            final(self).cells() == old(self).cells().update(index as int, s),
    {
        self.squares.set(index, s);
    }
}

} // verus!
