//! Starting a session: how many hazards a density asks for, where they are
//! placed, and the count of adjacent hazards that each cell shows.

use vstd::prelude::*;
use rand::Rng;
use crate::board::Board;
use crate::board::GameError;
use crate::board::Square;
use crate::grid::neighbors;
use crate::grid::lemma_neighbors_in_grid;

verus! {

/// Number of hazards among the first `i` cells.
pub open spec fn hazards_before(cells: Seq<Square>, i: nat) -> nat
    decreases i,
{
    if i == 0 {
        0
    } else {
        hazards_before(cells, (i - 1) as nat) + if cells[i - 1].bomb {
            1nat
        } else {
            0nat
        }
    }
}

/// Number of hazards on the board.
pub open spec fn hazard_count(cells: Seq<Square>) -> nat {
    hazards_before(cells, cells.len())
}

/// Number of cells among the first `i` that hold no hazard.
pub open spec fn free_before(cells: Seq<Square>, i: nat) -> int {
    i - hazards_before(cells, i)
}

/// Number of hazards among the cells that `picks` lists, each entry counted.
pub open spec fn hazards_among(cells: Seq<Square>, picks: Seq<usize>) -> nat
    decreases picks.len(),
{
    if picks.len() == 0 {
        0
    } else {
        hazards_among(cells, picks.drop_last()) + if cells[picks.last() as int].bomb {
            1nat
        } else {
            0nat
        }
    }
}

/// `k` is the smallest number of hazards whose share of `cells` cells is not
/// less than `numerator / denominator`.
pub open spec fn is_hazard_target(k: nat, cells: nat, numerator: nat, denominator: nat) -> bool {
    &&& k * denominator >= numerator * cells
    &&& k > 0 ==> (k - 1) * denominator < numerator * cells
}

/// No smaller number of hazards reaches the share than the one that
/// `is_hazard_target` accepts.
pub proof fn lemma_hazard_target_least(
    k: nat,
    other: nat,
    cells: nat,
    numerator: nat,
    denominator: nat,
)
    requires
        is_hazard_target(k, cells, numerator, denominator),
        other * denominator >= numerator * cells,
    ensures
        k <= other,
{
    if other < k {
        assert(other * denominator <= (k - 1) * denominator) by (nonlinear_arith)
            requires
                other <= k - 1,
        ;
    }
}

/// A share in `[0, 1)` never asks for more hazards than there are cells, and
/// a share of zero asks for none.
pub proof fn lemma_hazard_target_bounds(k: nat, cells: nat, numerator: nat, denominator: nat)
    requires
        is_hazard_target(k, cells, numerator, denominator),
        numerator < denominator,
    ensures
        k <= cells,
        numerator == 0 ==> k == 0,
{
    if k > cells {
        assert((k - 1) * denominator >= numerator * cells) by (nonlinear_arith)
            requires
                k - 1 >= cells,
                numerator < denominator,
        ;
    }
    if numerator == 0 && k > 0 {
        assert((k - 1) * denominator >= 0) by (nonlinear_arith)
            requires
                k >= 1,
        ;
        assert(numerator * cells == 0) by (nonlinear_arith)
            requires
                numerator == 0,
        ;
    }
}

/// Cells of which none holds a hazard count no hazards.
pub proof fn lemma_no_hazards(cells: Seq<Square>, i: nat)
    requires
        i <= cells.len(),
        forall|j: int| 0 <= j < i ==> !cells[j].bomb,
    ensures
        hazards_before(cells, i) == 0,
    decreases i,
{
    if i > 0 {
        lemma_no_hazards(cells, (i - 1) as nat);
    }
}

/// Cells that agree on their hazards up to `i` have the same number of
/// hazards up to `i`.
pub proof fn lemma_hazards_before_agree(a: Seq<Square>, b: Seq<Square>, i: nat)
    requires
        i <= a.len(),
        i <= b.len(),
        forall|j: int| 0 <= j < i ==> a[j].bomb == b[j].bomb,
    ensures
        hazards_before(a, i) == hazards_before(b, i),
    decreases i,
{
    if i > 0 {
        lemma_hazards_before_agree(a, b, (i - 1) as nat);
    }
}

/// Putting a hazard into a free cell adds one to the number of hazards of
/// every prefix that holds the cell.
pub proof fn lemma_hazards_before_planted(a: Seq<Square>, b: Seq<Square>, index: int, i: nat)
    requires
        a.len() == b.len(),
        0 <= index < a.len(),
        i <= a.len(),
        !a[index].bomb,
        b[index].bomb,
        forall|j: int| 0 <= j < a.len() && j != index ==> a[j].bomb == b[j].bomb,
    ensures
        hazards_before(b, i) == hazards_before(a, i) + if i > index {
            1nat
        } else {
            0nat
        },
    decreases i,
{
    if i > 0 {
        lemma_hazards_before_planted(a, b, index, (i - 1) as nat);
    }
}

/// A list that names a cell with a hazard counts at least one hazard.
pub proof fn lemma_listed_hazard_is_counted(cells: Seq<Square>, picks: Seq<usize>, p: int)
    requires
        0 <= p < picks.len(),
        cells[picks[p] as int].bomb,
    ensures
        hazards_among(cells, picks) >= 1,
    decreases picks.len(),
{
    if p < picks.len() - 1 {
        lemma_listed_hazard_is_counted(cells, picks.drop_last(), p);
    }
}

/// Cells that agree on their hazards have the same number of hazards among
/// any list of cells.
pub proof fn lemma_hazards_among_agree(a: Seq<Square>, b: Seq<Square>, picks: Seq<usize>)
    requires
        a.len() == b.len(),
        forall|j: int| 0 <= j < a.len() ==> a[j].bomb == b[j].bomb,
        forall|k: int| 0 <= k < picks.len() ==> picks[k] < a.len(),
    ensures
        hazards_among(a, picks) == hazards_among(b, picks),
    decreases picks.len(),
{
    if picks.len() > 0 {
        lemma_hazards_among_agree(a, b, picks.drop_last());
    }
}

/// A number below `bound` from the thread's random generator: the call
/// `rand::thread_rng().gen_range(0..bound)` of the `rand` crate. The range is
/// not empty, so the call does not panic; all that is claimed of the outcome
/// is that it lies in the range.
#[verifier::external_body]
fn random_below(bound: usize) -> (r: usize)
    requires
        bound > 0,
    ensures
        r < bound,
{
    rand::thread_rng().gen_range(0..bound)
}

impl Board {
    /// Every cell shows the number of hazards among its neighbours.
    pub open spec fn counted(&self) -> bool {
        forall|i: int|
            0 <= i < self.cells().len() ==> (#[trigger] self.cells()[i]).value == hazards_among(
                self.cells(),
                neighbors(self.cols(), self.rows(), i),
            )
    }

    /// Index of the free cell that has exactly `rank` free cells before it.
    pub fn free_index(&self, rank: usize) -> (index: usize)
        requires
            rank < self.cells().len() - hazard_count(self.cells()),
        ensures
            index < self.cells().len(),
            !self.cells()[index as int].bomb,
            free_before(self.cells(), index as nat) == rank,
    {
        let n = self.cell_count();
        let mut seen: usize = 0;
        let mut i: usize = 0;
        loop
            invariant
                n == self.cells().len(),
                i <= n,
                seen <= rank,
                seen == free_before(self.cells(), i as nat),
                rank < n - hazard_count(self.cells()),
            decreases n - i,
        {
            if i == n {
                // Every free cell has been passed, so more than `rank` were seen.
                assert(false);
            }
            let s = self.square(i);
            if !s.bomb {
                if seen == rank {
                    return i;
                }
                seen += 1;
            }
            i += 1;
        }
    }

    /// Puts a hazard into the free cell that has exactly `rank` free cells
    /// before it, and returns that cell's index. Nothing else changes: the
    /// counts of the cells are those from before, until `assign_values`.
    pub fn plant(&mut self, rank: usize) -> (index: usize)
        requires
            rank < old(self).cells().len() - hazard_count(old(self).cells()),
        ensures
            index < old(self).cells().len(),
            !old(self).cells()[index as int].bomb,
            free_before(old(self).cells(), index as nat) == rank,
            final(self).cols() == old(self).cols(),
            final(self).rows() == old(self).rows(),
            final(self).cells() == old(self).cells().update(
                index as int,
                (Square { bomb: true, ..old(self).cells()[index as int] }),
            ),
            hazard_count(final(self).cells()) == hazard_count(old(self).cells()) + 1,
    {
        let index = self.free_index(rank);
        let s = self.square(index);
        self.put(index, Square { x: s.x, y: s.y, visible: s.visible, bomb: true, value: s.value });
        proof {
            lemma_hazards_before_planted(
                old(self).cells(),
                self.cells(),
                index as int,
                self.cells().len(),
            );
        }
        index
    }

    /// The number of hazards among the neighbours of each cell, in row-major
    /// order.
    pub fn starting_values(&self) -> (values: Vec<u32>)
        requires
            self.wf(),
        ensures
            values@.len() == self.cells().len(),
            forall|i: int| 0 <= i < values@.len() ==> (#[trigger] values@[i]) <= 8,
            forall|i: int|
                0 <= i < values@.len() ==> (#[trigger] values@[i]) == hazards_among(
                    self.cells(),
                    neighbors(self.cols(), self.rows(), i),
                ),
    {
        let n = self.cell_count();
        let mut values: Vec<u32> = Vec::new();
        let mut index: usize = 0;
        while index < n
            invariant
                self.wf(),
                n == self.cells().len(),
                index <= n,
                values@.len() == index,
                forall|i: int| 0 <= i < index ==> (#[trigger] values@[i]) <= 8,
                forall|i: int|
                    0 <= i < index ==> (#[trigger] values@[i]) == hazards_among(
                        self.cells(),
                        neighbors(self.cols(), self.rows(), i),
                    ),
            decreases n - index,
        {
            let around = self.index_neighbors(index);
            proof {
                lemma_neighbors_in_grid(self.cols(), self.rows(), index as int);
            }
            let mut acc: u32 = 0;
            let mut j: usize = 0;
            while j < around.len()
                invariant
                    n == self.cells().len(),
                    j <= around@.len(),
                    around@.len() <= 8,
                    forall|k: int| 0 <= k < around@.len() ==> (#[trigger] around@[k]) < n,
                    acc == hazards_among(self.cells(), around@.take(j as int)),
                    acc <= j,
                decreases around@.len() - j,
            {
                let s = self.square(around[j]);
                proof {
                    assert(around@.take(j + 1).drop_last() =~= around@.take(j as int));
                }
                if s.bomb {
                    acc += 1;
                }
                j += 1;
            }
            proof {
                assert(around@.take(around@.len() as int) =~= around@);
            }
            values.push(acc);
            index += 1;
        }
        values
    }

    /// Stores in every cell the number of hazards among its neighbours.
    /// Hazards and revealed cells stay as they are.
    pub fn assign_values(&mut self)
        requires
            old(self).wf(),
        ensures
            final(self).wf(),
            final(self).counted(),
            final(self).cols() == old(self).cols(),
            final(self).rows() == old(self).rows(),
            final(self).cells().len() == old(self).cells().len(),
            forall|i: int|
                0 <= i < final(self).cells().len() ==> (#[trigger] final(self).cells()[i]).value <= 8,
            forall|i: int|
                0 <= i < final(self).cells().len() ==> (#[trigger] final(self).cells()[i]) == (
                Square {
                    value: hazards_among(
                        old(self).cells(),
                        neighbors(old(self).cols(), old(self).rows(), i),
                    ) as u32,
                    ..old(self).cells()[i]
                }),
    {
        let values = self.starting_values();
        let n = self.cell_count();
        let mut index: usize = 0;
        while index < n
            invariant
                n == old(self).cells().len(),
                values@.len() == n,
                forall|i: int| 0 <= i < n ==> (#[trigger] values@[i]) <= 8,
                index <= n,
                self.cols() == old(self).cols(),
                self.rows() == old(self).rows(),
                self.cells().len() == n,
                forall|i: int|
                    0 <= i < n ==> (#[trigger] values@[i]) == hazards_among(
                        old(self).cells(),
                        neighbors(old(self).cols(), old(self).rows(), i),
                    ),
                forall|i: int|
                    0 <= i < index ==> (#[trigger] self.cells()[i]) == (Square {
                        value: values@[i],
                        ..old(self).cells()[i]
                    }),
                forall|i: int| index <= i < n ==> (#[trigger] self.cells()[i]) == old(self).cells()[i],
            decreases n - index,
        {
            let s = self.square(index);
            self.put(
                index,
                Square { x: s.x, y: s.y, visible: s.visible, bomb: s.bomb, value: values[index] },
            );
            index += 1;
        }
        proof {
            assert forall|i: int| 0 <= i < self.cells().len() implies (
            #[trigger] self.cells()[i]).value == hazards_among(
                self.cells(),
                neighbors(self.cols(), self.rows(), i),
            ) by {
                lemma_neighbors_in_grid(self.cols(), self.rows(), i);
                lemma_hazards_among_agree(
                    old(self).cells(),
                    self.cells(),
                    neighbors(self.cols(), self.rows(), i),
                );
            }
        }
    }

    /// Hides every cell and removes every hazard and count.
    fn clear_cells(&mut self)
        requires
            old(self).wf(),
        ensures
            final(self).wf(),
            final(self).cols() == old(self).cols(),
            final(self).rows() == old(self).rows(),
            hazard_count(final(self).cells()) == 0,
            forall|i: int|
                0 <= i < final(self).cells().len() ==> {
                    &&& !(#[trigger] final(self).cells()[i]).visible
                    &&& !final(self).cells()[i].bomb
                    &&& final(self).cells()[i].value == 0
                },
    {
        let n = self.cell_count();
        let mut index: usize = 0;
        while index < n
            invariant
                n == old(self).cells().len(),
                index <= n,
                self.cols() == old(self).cols(),
                self.rows() == old(self).rows(),
                self.cells().len() == n,
                hazards_before(self.cells(), index as nat) == 0,
                forall|i: int|
                    0 <= i < n ==> {
                        &&& (#[trigger] self.cells()[i]).x == old(self).cells()[i].x
                        &&& self.cells()[i].y == old(self).cells()[i].y
                    },
                forall|i: int|
                    0 <= i < index ==> {
                        &&& !(#[trigger] self.cells()[i]).visible
                        &&& !self.cells()[i].bomb
                        &&& self.cells()[i].value == 0
                    },
            decreases n - index,
        {
            let s = self.square(index);
            let ghost before = self.cells();
            self.put(index, Square { x: s.x, y: s.y, visible: false, bomb: false, value: 0 });
            proof {
                lemma_hazards_before_agree(before, self.cells(), index as nat);
            }
            index += 1;
        }
    }

    /// Starts a session with hazards in a share `numerator / denominator` of
    /// the cells, placed at random.
    ///
    /// Fails, and leaves the board as it is, where the board has no cells or
    /// the share is not in `[0, 1)`. Otherwise every cell is hidden, the
    /// number of hazards is the smallest whose share of the cells is not less
    /// than the one asked for, each set of that many cells is as likely as
    /// any other as far as the generator is uniform, and every cell shows the
    /// number of hazards among its neighbours.
    pub fn new_game(&mut self, numerator: usize, denominator: usize) -> (r: Result<(), GameError>)
        requires
            old(self).wf(),
        ensures
            r is Err <==> (old(self).cols() == 0 || old(self).rows() == 0 || denominator == 0
                || numerator >= denominator),
            r is Err ==> r == Err::<(), GameError>(GameError::InvalidConfiguration)
                && final(self).cells() == old(self).cells(),
            final(self).cols() == old(self).cols(),
            final(self).rows() == old(self).rows(),
            final(self).wf(),
            r is Ok ==> {
                &&& final(self).counted()
                &&& forall|i: int|
                    0 <= i < final(self).cells().len() ==> (
                    #[trigger] final(self).cells()[i]).value <= 8
                &&& is_hazard_target(
                    hazard_count(final(self).cells()),
                    final(self).cells().len(),
                    numerator as nat,
                    denominator as nat,
                )
                &&& forall|i: int|
                    0 <= i < final(self).cells().len() ==> !(
                    #[trigger] final(self).cells()[i]).visible
            },
    {
        if self.width() == 0 || self.height() == 0 || denominator == 0 || numerator >= denominator {
            return Err(GameError::InvalidConfiguration);
        }
        self.clear_cells();
        let n = self.cell_count();
        let mut placed: usize = 0;
        loop
            invariant
                self.wf(),
                self.cols() == old(self).cols(),
                self.rows() == old(self).rows(),
                n == self.cells().len(),
                numerator < denominator,
                placed == hazard_count(self.cells()),
                placed <= n,
                placed > 0 ==> (placed - 1) * denominator < numerator * n,
                forall|i: int| 0 <= i < n ==> !(#[trigger] self.cells()[i]).visible,
            ensures
                placed * denominator >= numerator * n,
            decreases n - placed,
        {
            assert(placed * denominator <= usize::MAX * usize::MAX) by (nonlinear_arith)
                requires
                    0 <= placed <= usize::MAX,
                    0 <= denominator <= usize::MAX,
            ;
            assert(numerator * n <= usize::MAX * usize::MAX) by (nonlinear_arith)
                requires
                    0 <= numerator <= usize::MAX,
                    0 <= n <= usize::MAX,
            ;
            let reached: u128 = (placed as u128) * (denominator as u128);
            let wanted: u128 = (numerator as u128) * (n as u128);
            if reached >= wanted {
                break;
            }
            assert(placed < n) by (nonlinear_arith)
                requires
                    placed * denominator < numerator * n,
                    numerator < denominator,
                    placed <= n,
            ;
            let rank = random_below(n - placed);
            let ghost before = self.cells();
            let index = self.plant(rank);
            proof {
                assert forall|i: int| 0 <= i < n implies (#[trigger] self.cells()[i]).x
                    == before[i].x && self.cells()[i].y == before[i].y by {}
            }
            placed += 1;
        }
        let ghost planted = self.cells();
        self.assign_values();
        proof {
            lemma_hazards_before_agree(planted, self.cells(), planted.len());
        }
        Ok(())
    }
}

} // verus!
