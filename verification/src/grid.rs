//! Grid addressing: row-major indices, coordinates and the neighbours of a cell.

use vstd::prelude::*;
use vstd::arithmetic::div_mod::lemma_fundamental_div_mod_converse;
use vstd::arithmetic::div_mod::lemma_fundamental_div_mod;
use crate::board::Board;

verus! {

/// Whether `(x, y)` names a cell of a grid with the given dimensions.
pub open spec fn in_grid(width: nat, height: nat, x: int, y: int) -> bool {
    0 <= x < width && 0 <= y < height
}

/// Row-major index of the cell in column `x` of row `y`.
pub open spec fn cell_index(width: nat, x: int, y: int) -> int {
    width * y + x
}

/// Column of the cell with the given row-major index.
pub open spec fn column_of(width: nat, index: int) -> int {
    index % (width as int)
}

/// Row of the cell with the given row-major index.
pub open spec fn row_of(width: nat, index: int) -> int {
    index / (width as int)
}

/// The eight steps to an adjacent cell, in raster order.
pub open spec fn neighbor_offsets() -> Seq<(int, int)> {
    seq![(-1, -1), (0, -1), (1, -1), (-1, 0), (1, 0), (-1, 1), (0, 1), (1, 1)]
}

/// The cells of the grid that the first `k` steps of `neighbor_offsets` reach
/// from the cell at `index`, in the order of the steps.
pub open spec fn neighbors_upto(width: nat, height: nat, index: int, k: nat) -> Seq<usize>
    decreases k,
{
    if k == 0 {
        Seq::empty()
    } else {
        let before = neighbors_upto(width, height, index, (k - 1) as nat);
        let x = column_of(width, index) + neighbor_offsets()[k - 1].0;
        let y = row_of(width, index) + neighbor_offsets()[k - 1].1;
        if in_grid(width, height, x, y) {
            before.push(cell_index(width, x, y) as usize)
        } else {
            before
        }
    }
}

/// The up to eight cells adjacent to the cell at `index`, in raster order.
pub open spec fn neighbors(width: nat, height: nat, index: int) -> Seq<usize> {
    neighbors_upto(width, height, index, 8)
}

/// Whether the cells at `a` and `b` are different and touch by a side or a
/// corner.
pub open spec fn adjacent(width: nat, a: int, b: int) -> bool {
    &&& a != b
    &&& -1 <= column_of(width, b) - column_of(width, a) <= 1
    &&& -1 <= row_of(width, b) - row_of(width, a) <= 1
}

/// An in-grid pair of coordinates has an index below `width * height`.
pub proof fn lemma_cell_index_bound(width: nat, height: nat, x: int, y: int)
    requires
        in_grid(width, height, x, y),
    ensures
        0 <= cell_index(width, x, y) < width * height,
{
    assert(width * y + x < width * height) by (nonlinear_arith)
        requires
            0 <= x < width,
            0 <= y < height,
    ;
    assert(0 <= width * y) by (nonlinear_arith)
        requires
            0 <= y,
    ;
}

/// Mapping in-grid coordinates to an index and back gives the coordinates
/// again.
pub proof fn lemma_coords_round_trip(width: nat, height: nat, x: int, y: int)
    requires
        in_grid(width, height, x, y),
    ensures
        column_of(width, cell_index(width, x, y)) == x,
        row_of(width, cell_index(width, x, y)) == y,
{
    assert(width * y == y * width) by (nonlinear_arith);
    lemma_fundamental_div_mod_converse(cell_index(width, x, y), width as int, y, x);
}

/// Mapping an index of the grid to coordinates and back gives the index
/// again, and the coordinates lie in the grid.
pub proof fn lemma_index_round_trip(width: nat, height: nat, index: int)
    requires
        0 <= index < width * height,
    ensures
        in_grid(width, height, column_of(width, index), row_of(width, index)),
        cell_index(width, column_of(width, index), row_of(width, index)) == index,
{
    assert(width > 0) by (nonlinear_arith)
        requires
            0 <= index < width * height,
    ;
    let w = width as int;
    lemma_fundamental_div_mod(index, w);
    assert(0 <= index % w < w);
    assert(0 <= index / w) by (nonlinear_arith)
        requires
            0 <= index,
            w > 0,
    ;
    assert(index / w < height) by (nonlinear_arith)
        requires
            index == w * (index / w) + index % w,
            0 <= index % w,
            index < w * height,
            w > 0,
    ;
}

/// The step with the given position in raster order.
fn offset(k: usize) -> (d: (isize, isize))
    requires
        k < 8,
    ensures
        d.0 == neighbor_offsets()[k as int].0,
        d.1 == neighbor_offsets()[k as int].1,
        -1 <= d.0 <= 1,
        -1 <= d.1 <= 1,
{
    if k == 0 {
        (-1, -1)
    } else if k == 1 {
        (0, -1)
    } else if k == 2 {
        (1, -1)
    } else if k == 3 {
        (-1, 0)
    } else if k == 4 {
        (1, 0)
    } else if k == 5 {
        (-1, 1)
    } else if k == 6 {
        (0, 1)
    } else {
        (1, 1)
    }
}

impl Board {
    /// Row-major index of `(x, y)`, or `None` where the coordinates lie
    /// outside the grid.
    pub fn index_from_coords(width: usize, height: usize, x: isize, y: isize) -> (r: Option<usize>)
        requires
            width * height <= usize::MAX,
        ensures
            r == if in_grid(width as nat, height as nat, x as int, y as int) {
                Some(cell_index(width as nat, x as int, y as int) as usize)
            } else {
                None
            },
            r is Some ==> r.unwrap() == cell_index(width as nat, x as int, y as int),
            r is Some ==> r.unwrap() < width * height,
    {
        if x < 0 || y < 0 || x as usize >= width || y as usize >= height {
            None
        } else {
            proof {
                lemma_cell_index_bound(width as nat, height as nat, x as int, y as int);
            }
            Some(width * (y as usize) + (x as usize))
        }
    }

    /// Column and row of the cell with the given row-major index.
    pub fn coords_from_index(width: usize, index: usize) -> (c: (usize, usize))
        requires
            width > 0,
        ensures
            c.0 == column_of(width as nat, index as int),
            c.1 == row_of(width as nat, index as int),
    {
        (index % width, index / width)
    }

    /// The cells adjacent to the cell at `index`, in raster order: north-west,
    /// north, north-east, west, east, south-west, south, south-east.
    pub fn index_neighbors(&self, index: usize) -> (result: Vec<usize>)
        requires
            self.wf(),
            index < self.cells().len(),
        ensures
            result@ == neighbors(self.cols(), self.rows(), index as int),
    {
        let width = self.width();
        let height = self.height();
        proof {
            lemma_index_round_trip(width as nat, height as nat, index as int);
            assert(width as int <= width * height) by (nonlinear_arith)
                requires
                    width > 0,
                    height > 0,
            ;
            assert(height as int <= width * height) by (nonlinear_arith)
                requires
                    width > 0,
                    height > 0,
            ;
        }
        let (x, y) = Board::coords_from_index(width, index);
        let mut result: Vec<usize> = Vec::new();
        let mut k: usize = 0;
        while k < 8
            invariant
                k <= 8,
                width == self.cols(),
                height == self.rows(),
                width * height <= isize::MAX,
                x == column_of(width as nat, index as int),
                y == row_of(width as nat, index as int),
                x < width,
                y < height,
                x < isize::MAX,
                y < isize::MAX,
                result@ == neighbors_upto(width as nat, height as nat, index as int, k as nat),
            decreases 8 - k,
        {
            let (dx, dy) = offset(k);
            let found = Board::index_from_coords(width, height, x as isize + dx, y as isize + dy);
            match found {
                Some(i) => {
                    result.push(i);
                },
                None => {},
            }
            k += 1;
        }
        result
    }
}

/// Every cell that the first `k` steps reach lies in the grid, and there are
/// at most `k` of them.
pub proof fn lemma_neighbors_upto_in_grid(width: nat, height: nat, index: int, k: nat)
    requires
        width * height <= usize::MAX,
    ensures
        neighbors_upto(width, height, index, k).len() <= k,
        forall|j: int|
            0 <= j < neighbors_upto(width, height, index, k).len() ==> (
            #[trigger] neighbors_upto(width, height, index, k)[j]) < width * height,
    decreases k,
{
    if k > 0 {
        lemma_neighbors_upto_in_grid(width, height, index, (k - 1) as nat);
        let x = column_of(width, index) + neighbor_offsets()[k - 1].0;
        let y = row_of(width, index) + neighbor_offsets()[k - 1].1;
        if in_grid(width, height, x, y) {
            lemma_cell_index_bound(width, height, x, y);
        }
    }
}

/// Every neighbour of a cell lies in the grid, and a cell has at most eight.
pub proof fn lemma_neighbors_in_grid(width: nat, height: nat, index: int)
    requires
        width * height <= usize::MAX,
    ensures
        neighbors(width, height, index).len() <= 8,
        forall|j: int|
            0 <= j < neighbors(width, height, index).len() ==> (#[trigger] neighbors(
                width,
                height,
                index,
            )[j]) < width * height,
{
    lemma_neighbors_upto_in_grid(width, height, index, 8);
}

} // verus!
