//! Whether a session has ended, and how.

use vstd::prelude::*;
use crate::board::Board;
use crate::board::Square;

verus! {

/// Some hazard has been revealed: the session is lost.
pub open spec fn hazard_revealed(cells: Seq<Square>) -> bool {
    exists|i: int| 0 <= i < cells.len() && (#[trigger] cells[i]).visible && cells[i].bomb
}

/// Every cell without a hazard has been revealed.
pub open spec fn all_safe_revealed(cells: Seq<Square>) -> bool {
    forall|i: int| 0 <= i < cells.len() && !(#[trigger] cells[i]).bomb ==> cells[i].visible
}

/// A revealed hazard ends the session, and the session is not won.
pub proof fn lemma_revealed_hazard_is_lost(cells: Seq<Square>, i: int)
    requires
        0 <= i < cells.len(),
        cells[i].bomb,
        cells[i].visible,
    ensures
        hazard_revealed(cells) || all_safe_revealed(cells),
        !(all_safe_revealed(cells) && !hazard_revealed(cells)),
{
}

impl Board {
    /// Whether the session has ended: a hazard has been revealed, or no safe
    /// cell is left hidden.
    pub fn is_complete(&self) -> (done: bool)
        ensures
            done == (hazard_revealed(self.cells()) || all_safe_revealed(self.cells())),
    {
        let n = self.cell_count();
        let mut all_safe = true;
        let mut index: usize = 0;
        while index < n
            invariant
                n == self.cells().len(),
                index <= n,
                forall|i: int| 0 <= i < index ==> !((#[trigger] self.cells()[i]).visible
                    && self.cells()[i].bomb),
                all_safe == (forall|i: int|
                    0 <= i < index && !(#[trigger] self.cells()[i]).bomb ==> self.cells()[i].visible),
            decreases n - index,
        {
            let s = self.square(index);
            if s.visible && s.bomb {
                return true;
            }
            if !s.visible && !s.bomb {
                all_safe = false;
            }
            index += 1;
        }
        all_safe
    }

    /// Whether the session has been won: no safe cell is left hidden and no
    /// hazard has been revealed.
    pub fn is_won(&self) -> (won: bool)
        ensures
            won == (all_safe_revealed(self.cells()) && !hazard_revealed(self.cells())),
            won == ((hazard_revealed(self.cells()) || all_safe_revealed(self.cells()))
                && !hazard_revealed(self.cells())),
    {
        if !self.is_complete() {
            return false;
        }
        let n = self.cell_count();
        let mut index: usize = 0;
        while index < n
            invariant
                n == self.cells().len(),
                index <= n,
                forall|i: int| 0 <= i < index ==> !((#[trigger] self.cells()[i]).visible
                    && self.cells()[i].bomb),
            decreases n - index,
        {
            let s = self.square(index);
            if s.visible && s.bomb {
                return false;
            }
            index += 1;
        }
        true
    }

    /// Reveals every cell. Hazards and counts stay as they are.
    pub fn set_visible(&mut self)
        ensures
            final(self).cols() == old(self).cols(),
            final(self).rows() == old(self).rows(),
            final(self).cells().len() == old(self).cells().len(),
            forall|i: int|
                0 <= i < final(self).cells().len() ==> (#[trigger] final(self).cells()[i]) == (
                Square { visible: true, ..old(self).cells()[i] }),
    {
        let n = self.cell_count();
        let mut index: usize = 0;
        while index < n
            invariant
                n == old(self).cells().len(),
                index <= n,
                self.cols() == old(self).cols(),
                self.rows() == old(self).rows(),
                self.cells().len() == n,
                forall|i: int|
                    0 <= i < index ==> (#[trigger] self.cells()[i]) == (Square {
                        visible: true,
                        ..old(self).cells()[i]
                    }),
                forall|i: int| index <= i < n ==> (#[trigger] self.cells()[i]) == old(self).cells()[i],
            decreases n - index,
        {
            let s = self.square(index);
            self.put(index, Square { x: s.x, y: s.y, visible: true, bomb: s.bomb, value: s.value });
            index += 1;
        }
    }
}

} // verus!
