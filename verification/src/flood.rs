//! Revealing a cell, and with it the open area around it.

use vstd::prelude::*;
use vstd::set_lib::lemma_int_range;
use vstd::set_lib::lemma_len_subset;
use vstd::set_lib::set_int_range;
use crate::board::Board;
use crate::board::GameError;
use crate::board::Square;
use crate::grid::cell_index;
use crate::grid::in_grid;
use crate::grid::lemma_neighbors_in_grid;
use crate::grid::neighbors;
use crate::hazards::hazards_among;
use crate::open_area::lemma_open_board_opens_all;
use crate::status::hazard_revealed;
use crate::hazards::lemma_hazards_among_agree;
use crate::hazards::lemma_listed_hazard_is_counted;

verus! {

/// The cell at `c` passes a reveal on to its neighbours: it holds no hazard
/// and has none around it.
pub open spec fn spreads(cells: Seq<Square>, c: int) -> bool {
    !cells[c].bomb && cells[c].value == 0
}

/// `s` holds the cell at `start`, and with each cell that spreads also those
/// of its neighbours that have no hazard around them.
pub open spec fn flood_closed(cells: Seq<Square>, width: nat, height: nat, start: int, s: Set<int>)
    -> bool {
    &&& s.contains(start)
    &&& forall|c: int, k: int|
        s.contains(c) && 0 <= c < cells.len() && spreads(cells, c) && 0 <= k < neighbors(
            width,
            height,
            c,
        ).len() && cells[(#[trigger] neighbors(width, height, c)[k]) as int].value == 0
            ==> s.contains(neighbors(width, height, c)[k] as int)
}

/// The cells that a reveal at `start` explores: the least set that
/// `flood_closed` accepts.
pub open spec fn flooded(cells: Seq<Square>, width: nat, height: nat, start: int) -> Set<int> {
    Set::new(
        |i: int|
            forall|s: Set<int>| #[trigger] flood_closed(cells, width, height, start, s) ==> s.contains(i),
    )
}

/// A reveal at `start` reveals the cell at `i`: it is the cell at `start`, or
/// a neighbour of an explored cell that spreads.
pub open spec fn opened_by(cells: Seq<Square>, width: nat, height: nat, start: int, i: int) -> bool {
    i == start || exists|c: int, k: int|
        flooded(cells, width, height, start).contains(c) && 0 <= c < cells.len() && spreads(
            cells,
            c,
        ) && 0 <= k < neighbors(width, height, c).len() && (#[trigger] neighbors(
            width,
            height,
            c,
        )[k]) == i
}

/// The cell at `nb` is revealed, and marked as explored if it has no hazard
/// around it.
spec fn settled(cells: Seq<Square>, explored: Seq<bool>, nb: int) -> bool {
    cells[nb].visible && (cells[nb].value == 0 ==> explored[nb])
}

/// The first `upto` neighbours of the cell at `c` are settled, if the cell
/// spreads.
spec fn handled(
    cells: Seq<Square>,
    explored: Seq<bool>,
    width: nat,
    height: nat,
    c: int,
    upto: int,
) -> bool {
    spreads(cells, c) ==> forall|k: int|
        0 <= k < upto && k < neighbors(width, height, c).len() ==> settled(
            cells,
            explored,
            (#[trigger] neighbors(width, height, c)[k]) as int,
        )
}

/// Where the cell at `start` does not spread, a reveal there reveals no
/// other cell.
pub proof fn lemma_blocked_start_opens_itself(
    cells: Seq<Square>,
    width: nat,
    height: nat,
    start: int,
    i: int,
)
    requires
        !spreads(cells, start),
        opened_by(cells, width, height, start, i),
    ensures
        i == start,
{
    if i != start {
        let (c, k) = choose|c: int, k: int|
            flooded(cells, width, height, start).contains(c) && 0 <= c < cells.len() && spreads(
                cells,
                c,
            ) && 0 <= k < neighbors(width, height, c).len() && (#[trigger] neighbors(
                width,
                height,
                c,
            )[k]) == i;
        let only = set![start];
        assert(flood_closed(cells, width, height, start, only));
        assert(only.contains(c));
    }
}

/// Where every cell shows the number of hazards among its neighbours, a
/// reveal at `start` reveals no hazard but the one that the cell at `start`
/// may hold.
pub proof fn lemma_flood_spares_hazards(
    cells: Seq<Square>,
    width: nat,
    height: nat,
    start: int,
    i: int,
)
    requires
        forall|c: int|
            0 <= c < cells.len() ==> (#[trigger] cells[c]).value == hazards_among(
                cells,
                neighbors(width, height, c),
            ),
        0 <= i < cells.len(),
        cells[i].bomb,
        opened_by(cells, width, height, start, i),
    ensures
        i == start,
{
    if i != start {
        let (c, k) = choose|c: int, k: int|
            flooded(cells, width, height, start).contains(c) && 0 <= c < cells.len() && spreads(
                cells,
                c,
            ) && 0 <= k < neighbors(width, height, c).len() && (#[trigger] neighbors(
                width,
                height,
                c,
            )[k]) == i;
        lemma_listed_hazard_is_counted(cells, neighbors(width, height, c), k);
        assert(cells[c].value == hazards_among(cells, neighbors(width, height, c)));
    }
}

/// What holds of a handled cell still holds after more cells were revealed
/// and explored.
proof fn lemma_handled_stays(
    a: Seq<Square>,
    b: Seq<Square>,
    ea: Seq<bool>,
    eb: Seq<bool>,
    width: nat,
    height: nat,
    c: int,
    upto: int,
)
    requires
        handled(a, ea, width, height, c, upto),
        width * height == a.len(),
        a.len() == b.len(),
        a.len() == ea.len(),
        a.len() == eb.len(),
        a.len() <= usize::MAX,
        0 <= c < a.len(),
        forall|i: int|
            0 <= i < a.len() ==> {
                &&& (#[trigger] a[i]).bomb == b[i].bomb
                &&& a[i].value == b[i].value
                &&& (a[i].visible ==> b[i].visible)
            },
        forall|i: int| 0 <= i < a.len() && #[trigger] ea[i] ==> eb[i],
    ensures
        handled(b, eb, width, height, c, upto),
{
    lemma_neighbors_in_grid(width, height, c);
    if spreads(b, c) {
        assert forall|k: int| 0 <= k < upto && k < neighbors(width, height, c).len() implies settled(
            b,
            eb,
            (#[trigger] neighbors(width, height, c)[k]) as int,
        ) by {
            let nb = neighbors(width, height, c)[k] as int;
            assert(settled(a, ea, nb));
            assert(a[nb].visible ==> b[nb].visible);
            assert(ea[nb] ==> eb[nb]);
        }
    }
}

impl Board {
    /// Marks the cell at `index` as revealed.
    fn uncover(&mut self, index: usize)
        requires
            index < old(self).cells().len(),
        ensures
            final(self).cols() == old(self).cols(),
            final(self).rows() == old(self).rows(),
            final(self).cells() == old(self).cells().update(
                index as int,
                (Square { visible: true, ..old(self).cells()[index as int] }),
            ),
    {
        let s = self.square(index);
        self.put(index, Square { x: s.x, y: s.y, visible: true, bomb: s.bomb, value: s.value });
    }

    /// Reveals the cell at column `x` of row `y`, and the open area around it.
    ///
    /// Fails, and leaves the board as it is, where the coordinates lie outside
    /// the grid. Otherwise the cell is revealed, whatever it holds. If it
    /// holds no hazard and has none around it, its neighbours are revealed
    /// too, and the reveal goes on from each neighbour that has no hazard
    /// around it. Hazards and counts stay as they are, and no revealed cell is
    /// hidden again.
    pub fn make_move(&mut self, x: isize, y: isize) -> (r: Result<(), GameError>)
        requires
            old(self).wf(),
        ensures
            final(self).wf(),
            final(self).same_layout(old(self)),
            old(self).counted() ==> final(self).counted(),
            r is Err <==> !in_grid(old(self).cols(), old(self).rows(), x as int, y as int),
            r is Err ==> r == Err::<(), GameError>(GameError::OutOfBounds) && final(self).cells()
                == old(self).cells(),
            r is Ok ==> forall|i: int|
                0 <= i < final(self).cells().len() ==> (#[trigger] final(self).cells()[i]).visible
                    == (old(self).cells()[i].visible || opened_by(
                    old(self).cells(),
                    old(self).cols(),
                    old(self).rows(),
                    cell_index(old(self).cols(), x as int, y as int),
                    i,
                )),
            r is Ok && old(self).cells()[cell_index(
                old(self).cols(),
                x as int,
                y as int,
            )].bomb ==> hazard_revealed(final(self).cells()),
            r is Ok && (forall|c: int|
                0 <= c < old(self).cells().len() ==> spreads(old(self).cells(), c)) ==> forall|
                i: int,
            | 0 <= i < final(self).cells().len() ==> (#[trigger] final(self).cells()[i]).visible,
            r is Ok && old(self).counted() ==> forall|i: int|
                0 <= i < final(self).cells().len() && i != cell_index(
                    old(self).cols(),
                    x as int,
                    y as int,
                ) && (#[trigger] final(self).cells()[i]).bomb ==> final(self).cells()[i].visible
                    == old(self).cells()[i].visible,
            r is Ok && !spreads(
                old(self).cells(),
                cell_index(old(self).cols(), x as int, y as int),
            ) ==> forall|i: int|
                0 <= i < final(self).cells().len() && i != cell_index(
                    old(self).cols(),
                    x as int,
                    y as int,
                ) ==> (#[trigger] final(self).cells()[i]).visible == old(self).cells()[i].visible,
    {
        let width = self.width();
        let height = self.height();
        let n = self.cell_count();
        let start = match Board::index_from_coords(width, height, x, y) {
            Some(i) => i,
            None => {
                return Err(GameError::OutOfBounds);
            },
        };
        let ghost layout = old(self).cells();
        let ghost w = old(self).cols();
        let ghost h = old(self).rows();
        let ghost s0 = start as int;
        self.uncover(start);
        let mut frontier: Vec<usize> = Vec::new();
        frontier.push(start);
        let mut explored: Vec<bool> = vec![false; n];
        explored.set(start, true);
        let ghost mut region: Set<int> = set![s0];
        let mut head: usize = 0;
        proof {
            assert forall|s: Set<int>| #[trigger]
                flood_closed(layout, w, h, s0, s) implies s.contains(s0) by {}
            assert(frontier@[0] == s0);
        }
        while head < frontier.len()
            invariant
                self.wf(),
                self.cols() == w,
                self.rows() == h,
                self.cells().len() == n,
                layout.len() == n,
                w * h == n,
                n <= isize::MAX,
                s0 == start,
                0 <= s0 < n,
                forall|i: int|
                    0 <= i < n ==> {
                        &&& (#[trigger] self.cells()[i]).x == layout[i].x
                        &&& self.cells()[i].y == layout[i].y
                        &&& self.cells()[i].bomb == layout[i].bomb
                        &&& self.cells()[i].value == layout[i].value
                        &&& (layout[i].visible ==> self.cells()[i].visible)
                        &&& (self.cells()[i].visible ==> layout[i].visible || opened_by(
                            layout,
                            w,
                            h,
                            s0,
                            i,
                        ))
                    },
                self.cells()[s0].visible,
                explored@.len() == n,
                head <= frontier@.len(),
                frontier@.len() <= n,
                region.finite(),
                region.len() == frontier@.len(),
                region.contains(s0),
                forall|i: int| #[trigger] region.contains(i) <==> (0 <= i < n && explored@[i]),
                forall|j: int|
                    0 <= j < frontier@.len() ==> (#[trigger] frontier@[j]) < n && region.contains(
                        frontier@[j] as int,
                    ),
                forall|i: int| #[trigger]
                    region.contains(i) ==> exists|j: int|
                        0 <= j < frontier@.len() && #[trigger] frontier@[j] == i,
                forall|i: int| #[trigger]
                    region.contains(i) ==> flooded(layout, w, h, s0).contains(i),
                forall|j: int|
                    0 <= j < head ==> handled(
                        self.cells(),
                        explored@,
                        w,
                        h,
                        (#[trigger] frontier@[j]) as int,
                        8,
                    ),
            decreases 2 * n - frontier@.len() - head,
        {
            let current = frontier[head];
            let around = self.index_neighbors(current);
            let cur = self.square(current);
            let ghost entry_len = frontier@.len();
            proof {
                lemma_neighbors_in_grid(w, h, current as int);
            }
            if !cur.bomb && cur.value == 0 {
                let mut k: usize = 0;
                while k < around.len()
                    invariant
                        self.wf(),
                        self.cols() == w,
                        self.rows() == h,
                        self.cells().len() == n,
                        layout.len() == n,
                        w * h == n,
                        n <= isize::MAX,
                        s0 == start,
                        0 <= s0 < n,
                        forall|i: int|
                            0 <= i < n ==> {
                                &&& (#[trigger] self.cells()[i]).x == layout[i].x
                                &&& self.cells()[i].y == layout[i].y
                                &&& self.cells()[i].bomb == layout[i].bomb
                                &&& self.cells()[i].value == layout[i].value
                                &&& (layout[i].visible ==> self.cells()[i].visible)
                                &&& (self.cells()[i].visible ==> layout[i].visible || opened_by(
                                    layout,
                                    w,
                                    h,
                                    s0,
                                    i,
                                ))
                            },
                        self.cells()[s0].visible,
                        explored@.len() == n,
                        head < frontier@.len(),
                        entry_len <= frontier@.len(),
                        frontier@.len() <= n,
                        region.finite(),
                        region.len() == frontier@.len(),
                        region.contains(s0),
                        forall|i: int| #[trigger]
                            region.contains(i) <==> (0 <= i < n && explored@[i]),
                        forall|j: int|
                            0 <= j < frontier@.len() ==> (#[trigger] frontier@[j]) < n
                                && region.contains(frontier@[j] as int),
                        forall|i: int| #[trigger]
                            region.contains(i) ==> exists|j: int|
                                0 <= j < frontier@.len() && #[trigger] frontier@[j] == i,
                        forall|i: int| #[trigger]
                            region.contains(i) ==> flooded(layout, w, h, s0).contains(i),
                        forall|j: int|
                            0 <= j < head ==> handled(
                                self.cells(),
                                explored@,
                                w,
                                h,
                                (#[trigger] frontier@[j]) as int,
                                8,
                            ),
                        current == frontier@[head as int],
                        spreads(layout, current as int),
                        around@ == neighbors(w, h, current as int),
                        k <= around@.len(),
                        around@.len() <= 8,
                        forall|j: int| 0 <= j < around@.len() ==> (#[trigger] around@[j]) < n,
                        handled(self.cells(), explored@, w, h, current as int, k as int),
                    decreases around@.len() - k,
                {
                    let nb = around[k];
                    let ghost cells_before = self.cells();
                    let ghost explored_before = explored@;
                    let ghost frontier_before = frontier@;
                    let ghost region_before = region;
                    self.uncover(nb);
                    let sq = self.square(nb);
                    if sq.value == 0 && !explored[nb] {
                        frontier.push(nb);
                        explored.set(nb, true);
                        proof {
                            region = region.insert(nb as int);
                        }
                    }
                    proof {
                        let cells = self.cells();
                        assert(region_before.contains(current as int));
                        assert(flooded(layout, w, h, s0).contains(current as int));
                        assert(neighbors(w, h, current as int)[k as int] == nb);
                        assert(opened_by(layout, w, h, s0, nb as int));
                        if layout[nb as int].value == 0 {
                            assert forall|s: Set<int>| #[trigger]
                                flood_closed(layout, w, h, s0, s) implies s.contains(nb as int) by {
                                assert(s.contains(current as int));
                                assert(s.contains(neighbors(w, h, current as int)[k as int] as int));
                            }
                            assert(flooded(layout, w, h, s0).contains(nb as int));
                        }
                        assert forall|i: int| #[trigger] region.contains(i) implies exists|j: int|
                            0 <= j < frontier@.len() && #[trigger] frontier@[j] == i by {
                            if region_before.contains(i) {
                                let j = choose|j: int|
                                    0 <= j < frontier_before.len() && #[trigger] frontier_before[j]
                                        == i;
                                assert(frontier@[j] == i);
                            } else {
                                assert(frontier@[frontier@.len() - 1] == i);
                            }
                        }
                        assert forall|j: int| 0 <= j < head implies handled(
                            cells,
                            explored@,
                            w,
                            h,
                            (#[trigger] frontier@[j]) as int,
                            8,
                        ) by {
                            assert(frontier@[j] == frontier_before[j]);
                            lemma_handled_stays(
                                cells_before,
                                cells,
                                explored_before,
                                explored@,
                                w,
                                h,
                                frontier_before[j] as int,
                                8,
                            );
                        }
                        lemma_handled_stays(
                            cells_before,
                            cells,
                            explored_before,
                            explored@,
                            w,
                            h,
                            current as int,
                            k as int,
                        );
                        assert(settled(cells, explored@, nb as int));
                        assert(handled(cells, explored@, w, h, current as int, k + 1));
                        lemma_int_range(0, n as int);
                        assert(region.subset_of(set_int_range(0, n as int)));
                        lemma_len_subset(region, set_int_range(0, n as int));
                    }
                    k += 1;
                }
            }
            head += 1;
        }
        proof {
            let cells = self.cells();
            assert(flood_closed(layout, w, h, s0, region)) by {
                assert forall|c: int, k: int|
                    region.contains(c) && 0 <= c < layout.len() && spreads(layout, c) && 0 <= k
                        < neighbors(w, h, c).len() && layout[(#[trigger] neighbors(
                        w,
                        h,
                        c,
                    )[k]) as int].value == 0 implies region.contains(
                    neighbors(w, h, c)[k] as int,
                ) by {
                    lemma_neighbors_in_grid(w, h, c);
                    let j = choose|j: int| 0 <= j < frontier@.len() && #[trigger] frontier@[j] == c;
                    assert(handled(cells, explored@, w, h, frontier@[j] as int, 8));
                    assert(spreads(cells, c));
                    assert(settled(cells, explored@, neighbors(w, h, c)[k] as int));
                }
            }
            assert forall|i: int| 0 <= i < n && opened_by(layout, w, h, s0, i) implies (
            #[trigger] cells[i]).visible by {
                if i != s0 {
                    let (c, k) = choose|c: int, k: int|
                        flooded(layout, w, h, s0).contains(c) && 0 <= c < layout.len() && spreads(
                            layout,
                            c,
                        ) && 0 <= k < neighbors(w, h, c).len() && (#[trigger] neighbors(
                            w,
                            h,
                            c,
                        )[k]) == i;
                    assert(region.contains(c));
                    lemma_neighbors_in_grid(w, h, c);
                    let j = choose|j: int| 0 <= j < frontier@.len() && #[trigger] frontier@[j] == c;
                    assert(handled(cells, explored@, w, h, frontier@[j] as int, 8));
                    assert(spreads(cells, c));
                    assert(settled(cells, explored@, neighbors(w, h, c)[k] as int));
                }
            }
            assert forall|i: int| 0 <= i < n && i != s0 && !spreads(layout, s0) implies (
            #[trigger] cells[i]).visible == layout[i].visible by {
                if opened_by(layout, w, h, s0, i) {
                    lemma_blocked_start_opens_itself(layout, w, h, s0, i);
                }
            }
            if forall|c: int| 0 <= c < layout.len() ==> spreads(layout, c) {
                assert forall|i: int| 0 <= i < n implies (#[trigger] cells[i]).visible by {
                    lemma_open_board_opens_all(layout, w, h, s0, i);
                }
            }
            if layout[s0].bomb {
                assert(cells[s0].visible && cells[s0].bomb);
            }
            if old(self).counted() {
                assert forall|i: int| 0 <= i < n && i != s0 && (#[trigger] cells[i]).bomb implies cells[i].visible
                    == layout[i].visible by {
                    if opened_by(layout, w, h, s0, i) {
                        lemma_flood_spares_hazards(layout, w, h, s0, i);
                    }
                }
            }
            if old(self).counted() {
                assert forall|i: int| 0 <= i < n implies (#[trigger] cells[i]).value
                    == hazards_among(cells, neighbors(w, h, i)) by {
                    lemma_neighbors_in_grid(w, h, i);
                    lemma_hazards_among_agree(layout, cells, neighbors(w, h, i));
                }
            }
        }
        Ok(())
    }
}

} // verus!
