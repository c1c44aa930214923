//! A board on which every cell spreads: a reveal anywhere opens all of it.

use vstd::prelude::*;
use crate::board::Square;
use crate::counts::step_column;
use crate::counts::step_of;
use crate::counts::step_row;
use crate::counts::lemma_step_leads;
use crate::flood::flood_closed;
use crate::flood::flooded;
use crate::flood::opened_by;
use crate::flood::spreads;
use crate::grid::adjacent;
use crate::grid::cell_index;
use crate::grid::column_of;
use crate::grid::in_grid;
use crate::grid::lemma_cell_index_bound;
use crate::grid::lemma_coords_round_trip;
use crate::grid::lemma_index_round_trip;
use crate::grid::neighbors;
use crate::grid::neighbors_upto;
use crate::grid::row_of;

verus! {

/// Distance between two coordinates on one axis.
pub open spec fn gap(a: int, b: int) -> nat {
    if a < b {
        (b - a) as nat
    } else {
        (a - b) as nat
    }
}

/// The coordinate next to `from` on the way to `to`.
pub open spec fn nearer(from: int, to: int) -> int {
    if from < to {
        from + 1
    } else if from > to {
        from - 1
    } else {
        from
    }
}

/// A cell that step `m` leads to is listed once the first `k > m` steps are
/// taken.
proof fn lemma_step_is_listed(width: nat, height: nat, a: int, b: int, m: int, k: nat)
    requires
        0 <= m < k,
        width * height <= usize::MAX,
        in_grid(width, height, step_column(width, a, m), step_row(width, a, m)),
        cell_index(width, step_column(width, a, m), step_row(width, a, m)) == b,
    ensures
        exists|p: int|
            0 <= p < neighbors_upto(width, height, a, k).len() && #[trigger] neighbors_upto(
                width,
                height,
                a,
                k,
            )[p] == b,
    decreases k,
{
    let before = neighbors_upto(width, height, a, (k - 1) as nat);
    let now = neighbors_upto(width, height, a, k);
    if m == k - 1 {
        lemma_cell_index_bound(width, height, step_column(width, a, m), step_row(width, a, m));
        assert(now[now.len() - 1] == b);
    } else {
        lemma_step_is_listed(width, height, a, b, m, (k - 1) as nat);
        let p = choose|p: int| 0 <= p < before.len() && #[trigger] before[p] == b;
        assert(now[p] == b);
    }
}

/// Every cell of the grid adjacent to a cell is among its neighbours.
pub proof fn lemma_adjacent_is_neighbor(width: nat, height: nat, a: int, b: int)
    requires
        width * height <= usize::MAX,
        0 <= a < width * height,
        0 <= b < width * height,
        adjacent(width, a, b),
    ensures
        exists|p: int|
            0 <= p < neighbors(width, height, a).len() && #[trigger] neighbors(width, height, a)[p]
                == b,
{
    let m = step_of(width, a, b);
    lemma_step_leads(width, height, a, b, m);
    lemma_step_is_listed(width, height, a, b, m, 8);
    let p = choose|p: int|
        0 <= p < neighbors_upto(width, height, a, 8).len() && #[trigger] neighbors_upto(
            width,
            height,
            a,
            8,
        )[p] == b;
    assert(neighbors(width, height, a)[p] == b);
}

/// On a board where every cell spreads, a set that a reveal at `start` must
/// explore holds every cell.
proof fn lemma_closed_set_holds_all(
    cells: Seq<Square>,
    width: nat,
    height: nat,
    start: int,
    s: Set<int>,
    j: int,
)
    requires
        cells.len() == width * height,
        cells.len() <= usize::MAX,
        0 <= start < cells.len(),
        0 <= j < cells.len(),
        forall|c: int| 0 <= c < cells.len() ==> spreads(cells, c),
        flood_closed(cells, width, height, start, s),
    ensures
        s.contains(j),
    decreases
        gap(column_of(width, j), column_of(width, start)) + gap(
            row_of(width, j),
            row_of(width, start),
        ),
{
    if j != start {
        lemma_index_round_trip(width, height, j);
        lemma_index_round_trip(width, height, start);
        let x = nearer(column_of(width, j), column_of(width, start));
        let y = nearer(row_of(width, j), row_of(width, start));
        let c = cell_index(width, x, y);
        lemma_cell_index_bound(width, height, x, y);
        lemma_coords_round_trip(width, height, x, y);
        lemma_closed_set_holds_all(cells, width, height, start, s, c);
        assert(adjacent(width, c, j));
        lemma_adjacent_is_neighbor(width, height, c, j);
        let p = choose|p: int|
            0 <= p < neighbors(width, height, c).len() && #[trigger] neighbors(width, height, c)[p]
                == j;
        assert(spreads(cells, c));
        assert(spreads(cells, j));
        assert(s.contains(neighbors(width, height, c)[p] as int));
    }
}

/// On a board where every cell spreads, which is every board without
/// hazards whose counts are right, a reveal at any cell reveals every cell.
pub proof fn lemma_open_board_opens_all(
    cells: Seq<Square>,
    width: nat,
    height: nat,
    start: int,
    i: int,
)
    requires
        cells.len() == width * height,
        cells.len() <= usize::MAX,
        0 <= start < cells.len(),
        0 <= i < cells.len(),
        forall|c: int| 0 <= c < cells.len() ==> spreads(cells, c),
    ensures
        opened_by(cells, width, height, start, i),
{
    if i != start {
        lemma_index_round_trip(width, height, i);
        lemma_index_round_trip(width, height, start);
        let x = nearer(column_of(width, i), column_of(width, start));
        let y = nearer(row_of(width, i), row_of(width, start));
        let c = cell_index(width, x, y);
        lemma_cell_index_bound(width, height, x, y);
        lemma_coords_round_trip(width, height, x, y);
        assert(adjacent(width, c, i));
        lemma_adjacent_is_neighbor(width, height, c, i);
        let p = choose|p: int|
            0 <= p < neighbors(width, height, c).len() && #[trigger] neighbors(width, height, c)[p]
                == i;
        assert forall|s: Set<int>| #[trigger]
            flood_closed(cells, width, height, start, s) implies s.contains(c) by {
            lemma_closed_set_holds_all(cells, width, height, start, s, c);
        }
        assert(flooded(cells, width, height, start).contains(c));
        assert(spreads(cells, c));
    }
}

} // verus!
