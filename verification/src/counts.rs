//! The count that a cell shows, held against a scan of the whole board for
//! adjacent hazards.

use vstd::prelude::*;
use crate::board::Square;
use crate::grid::adjacent;
use crate::grid::cell_index;
use crate::grid::column_of;
use crate::grid::in_grid;
use crate::grid::lemma_cell_index_bound;
use crate::grid::lemma_coords_round_trip;
use crate::grid::lemma_index_round_trip;
use crate::grid::neighbor_offsets;
use crate::grid::neighbors;
use crate::grid::neighbors_upto;
use crate::grid::row_of;
use crate::hazards::hazards_among;

verus! {

/// Number of hazards among the first `upto` cells of the board that are
/// adjacent to the cell at `index`.
pub open spec fn adjacent_hazards(cells: Seq<Square>, width: nat, index: int, upto: nat) -> nat
    decreases upto,
{
    if upto == 0 {
        0
    } else {
        adjacent_hazards(cells, width, index, (upto - 1) as nat) + if adjacent(
            width,
            index,
            upto - 1,
        ) && cells[upto - 1].bomb {
            1nat
        } else {
            0nat
        }
    }
}

/// Position in raster order of the step from the cell at `a` to the adjacent
/// cell at `b`.
pub open spec fn step_of(width: nat, a: int, b: int) -> int {
    let dx = column_of(width, b) - column_of(width, a);
    let dy = row_of(width, b) - row_of(width, a);
    if dy == -1 {
        dx + 1
    } else if dy == 0 {
        if dx == -1 {
            3
        } else {
            4
        }
    } else {
        dx + 6
    }
}

/// Number of hazards among the first `upto` cells of the board that one of
/// the first `k` steps reaches from the cell at `index`.
pub open spec fn reached_hazards(cells: Seq<Square>, width: nat, index: int, k: int, upto: nat) -> nat
    decreases upto,
{
    if upto == 0 {
        0
    } else {
        reached_hazards(cells, width, index, k, (upto - 1) as nat) + if adjacent(
            width,
            index,
            upto - 1,
        ) && step_of(width, index, upto - 1) < k && cells[upto - 1].bomb {
            1nat
        } else {
            0nat
        }
    }
}

/// Column that step `m` leads to from the cell at `index`.
pub open spec fn step_column(width: nat, index: int, m: int) -> int {
    column_of(width, index) + neighbor_offsets()[m].0
}

/// Row that step `m` leads to from the cell at `index`.
pub open spec fn step_row(width: nat, index: int, m: int) -> int {
    row_of(width, index) + neighbor_offsets()[m].1
}

/// The cell at `b` is adjacent to the cell at `a` by step `m` exactly if
/// step `m` from `a` stays in the grid and leads to `b`.
pub proof fn lemma_step_leads(width: nat, height: nat, a: int, b: int, m: int)
    requires
        0 <= a < width * height,
        0 <= b < width * height,
        0 <= m < 8,
    ensures
        (adjacent(width, a, b) && step_of(width, a, b) == m) <==> (in_grid(
            width,
            height,
            step_column(width, a, m),
            step_row(width, a, m),
        ) && cell_index(width, step_column(width, a, m), step_row(width, a, m)) == b),
{
    lemma_index_round_trip(width, height, a);
    lemma_index_round_trip(width, height, b);
    let x = step_column(width, a, m);
    let y = step_row(width, a, m);
    assert(m == 0 || m == 1 || m == 2 || m == 3 || m == 4 || m == 5 || m == 6 || m == 7);
    assert(neighbor_offsets()[0] == (-1int, -1int));
    assert(neighbor_offsets()[1] == (0int, -1int));
    assert(neighbor_offsets()[2] == (1int, -1int));
    assert(neighbor_offsets()[3] == (-1int, 0int));
    assert(neighbor_offsets()[4] == (1int, 0int));
    assert(neighbor_offsets()[5] == (-1int, 1int));
    assert(neighbor_offsets()[6] == (0int, 1int));
    assert(neighbor_offsets()[7] == (1int, 1int));
    if in_grid(width, height, x, y) {
        lemma_coords_round_trip(width, height, x, y);
    }
}

/// No hazard is reached by no step.
proof fn lemma_reached_by_none(cells: Seq<Square>, width: nat, index: int, upto: nat)
    ensures
        reached_hazards(cells, width, index, 0, upto) == 0,
    decreases upto,
{
    if upto > 0 {
        lemma_reached_by_none(cells, width, index, (upto - 1) as nat);
    }
}

/// The eight steps reach every adjacent cell.
proof fn lemma_reached_by_all(cells: Seq<Square>, width: nat, index: int, upto: nat)
    ensures
        reached_hazards(cells, width, index, 8, upto) == adjacent_hazards(cells, width, index, upto),
    decreases upto,
{
    if upto > 0 {
        lemma_reached_by_all(cells, width, index, (upto - 1) as nat);
    }
}

/// One more step reaches one more hazard exactly if it stays in the grid and
/// leads to a hazard among the cells that are scanned.
proof fn lemma_reached_by_one_more(
    cells: Seq<Square>,
    width: nat,
    height: nat,
    index: int,
    k: int,
    upto: nat,
)
    requires
        cells.len() == width * height,
        0 <= index < cells.len(),
        1 <= k <= 8,
        upto <= cells.len(),
    ensures
        reached_hazards(cells, width, index, k, upto) == reached_hazards(
            cells,
            width,
            index,
            k - 1,
            upto,
        ) + if in_grid(
            width,
            height,
            step_column(width, index, k - 1),
            step_row(width, index, k - 1),
        ) && cell_index(width, step_column(width, index, k - 1), step_row(width, index, k - 1))
            < upto && cells[cell_index(
            width,
            step_column(width, index, k - 1),
            step_row(width, index, k - 1),
        )].bomb {
            1nat
        } else {
            0nat
        },
    decreases upto,
{
    if upto > 0 {
        lemma_reached_by_one_more(cells, width, height, index, k, (upto - 1) as nat);
        lemma_step_leads(width, height, index, upto - 1, k - 1);
        let x = step_column(width, index, k - 1);
        let y = step_row(width, index, k - 1);
        if in_grid(width, height, x, y) {
            lemma_cell_index_bound(width, height, x, y);
        }
    }
}

/// The hazards among the cells that the first `k` steps reach are those that
/// a scan of the board finds for these steps.
proof fn lemma_steps_match_scan(cells: Seq<Square>, width: nat, height: nat, index: int, k: nat)
    requires
        cells.len() == width * height,
        cells.len() <= usize::MAX,
        0 <= index < cells.len(),
        k <= 8,
    ensures
        hazards_among(cells, neighbors_upto(width, height, index, k)) == reached_hazards(
            cells,
            width,
            index,
            k as int,
            cells.len(),
        ),
    decreases k,
{
    if k == 0 {
        lemma_reached_by_none(cells, width, index, cells.len());
    } else {
        lemma_steps_match_scan(cells, width, height, index, (k - 1) as nat);
        lemma_reached_by_one_more(cells, width, height, index, k as int, cells.len());
        let before = neighbors_upto(width, height, index, (k - 1) as nat);
        let x = step_column(width, index, k - 1);
        let y = step_row(width, index, k - 1);
        if in_grid(width, height, x, y) {
            lemma_cell_index_bound(width, height, x, y);
            let v = cell_index(width, x, y) as usize;
            assert(before.push(v).drop_last() =~= before);
            assert(before.push(v).last() == v);
        }
    }
}

/// The number of hazards among the neighbours of a cell, which is the count
/// that the cell shows, is the number of hazards that a scan of the whole
/// board finds adjacent to it.
pub proof fn lemma_count_matches_scan(cells: Seq<Square>, width: nat, height: nat, index: int)
    requires
        cells.len() == width * height,
        cells.len() <= usize::MAX,
        0 <= index < cells.len(),
    ensures
        hazards_among(cells, neighbors(width, height, index)) == adjacent_hazards(
            cells,
            width,
            index,
            cells.len(),
        ),
{
    lemma_steps_match_scan(cells, width, height, index, 8);
    lemma_reached_by_all(cells, width, index, cells.len());
}

} // verus!
