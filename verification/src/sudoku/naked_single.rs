//! Naked singles: an unsolved cell with one candidate left is committed to
//! it, and one with none left is committed to 0, the tolerated
//! "unsatisfiable cell" state.

use crate::cell::Cell;
use crate::history::EntryType;
use crate::sudoku::{
    board_monotone, cell_monotone, lemma_board_monotone_step, lemma_pot_update, pot_to, Sudoku,
};
use vstd::prelude::*;

verus! {

impl Sudoku {
    /// Commits every unsolved cell that is down to at most one candidate.
    /// Reports whether any cell was committed; afterwards no naked single
    /// remains.
    pub fn naked_single(&mut self) -> (r: bool)
        requires
            old(self).wf(),
            old(self).stack_empty(),
        ensures
            final(self).wf(),
            final(self).stack_empty(),
            final(self).sections == old(self).sections,
            final(self).section_digit_sum == old(self).section_digit_sum,
            final(self).solved_cell_checked == old(self).solved_cell_checked,
            old(self).history@.is_prefix_of(final(self).history@),
            board_monotone(old(self).cells@, final(self).cells@),
            final(self).potential() <= old(self).potential(),
            r ==> final(self).potential() < old(self).potential(),
            r ==> final(self).history@.len() > old(self).history@.len(),
            forall|k: int|
                old(self).history@.len() <= k < final(self).history@.len()
                    ==> (#[trigger] final(self).history@[k]).name == EntryType::NakedSingle
                    && final(self).history@[k].cells@.len() == 1,
            !r ==> *final(self) == *old(self),
            r == exists|i: int|
                0 <= i < 81 && !(#[trigger] old(self).cells@[i]).solved && old(self).cells@[
                    i
                ].cand_count() <= 1,
            forall|i: int|
                0 <= i < 81 && !(#[trigger] old(self).cells@[i]).solved && old(self).cells@[
                    i
                ].cand_count() <= 1 ==> final(self).cells@[i].solved && (old(self).cells@[
                    i
                ].cand_count() == 1 ==> old(self).cells@[i].has(final(self).cells@[i].num as int))
                    && (old(self).cells@[i].cand_count() == 0 ==> final(self).cells@[i].num == 0),
            forall|i: int|
                0 <= i < 81 && ((#[trigger] old(self).cells@[i]).solved || old(self).cells@[
                    i
                ].cand_count() >= 2) ==> final(self).cells@[i] == old(self).cells@[i],
            final(self).no_naked_single(),
    {
        let mut r = false;
        let mut i: usize = 0;
        while i < 81
            invariant
                i <= 81,
                self.wf(),
                self.stack_empty(),
                self.sections == old(self).sections,
                self.section_digit_sum == old(self).section_digit_sum,
                self.solved_cell_checked == old(self).solved_cell_checked,
                old(self).history@.is_prefix_of(self.history@),
                board_monotone(old(self).cells@, self.cells@),
                pot_to(self.cells@, 81) <= pot_to(old(self).cells@, 81),
                r ==> pot_to(self.cells@, 81) < pot_to(old(self).cells@, 81),
                r ==> self.history@.len() > old(self).history@.len(),
                forall|k: int|
                    old(self).history@.len() <= k < self.history@.len() ==> (#[trigger] self.history@[k]).name
                        == EntryType::NakedSingle && self.history@[k].cells@.len() == 1,
                !r ==> *self == *old(self),
                r == exists|k: int|
                    0 <= k < i && !(#[trigger] old(self).cells@[k]).solved && old(self).cells@[
                        k
                    ].cand_count() <= 1,
                forall|k: int|
                    i <= k < 81 ==> #[trigger] self.cells@[k] == old(self).cells@[k],
                forall|k: int|
                    0 <= k < i && !(#[trigger] old(self).cells@[k]).solved && old(self).cells@[
                        k
                    ].cand_count() <= 1 ==> self.cells@[k].solved && (old(self).cells@[
                        k
                    ].cand_count() == 1 ==> old(self).cells@[k].has(self.cells@[k].num as int)) && (
                    old(self).cells@[k].cand_count() == 0 ==> self.cells@[k].num == 0),
                forall|k: int|
                    0 <= k < i && ((#[trigger] old(self).cells@[k]).solved || old(self).cells@[
                        k
                    ].cand_count() >= 2) ==> self.cells@[k] == old(self).cells@[k],
            decreases 81 - i,
        {
            if !self.cells[i].is_solved() {
                proof {
                    crate::cell::lemma_counted_on(self.cells@[i as int]);
                }
                let c = self.cells[i].get_count();
                if c <= 1 {
                    let mut digit: u16 = 0;
                    if c == 1 {
                        let mut d: u16 = 1;
                        while d <= 9
                            invariant
                                1 <= d <= 10,
                                i < 81,
                                self.cells@.len() == 81,
                                digit == 0 ==> crate::cell::count_to(
                                    self.cells@[i as int].mask,
                                    d as int - 1,
                                ) == 0,
                                digit != 0 ==> 1 <= digit <= 9 && self.cells@[i as int].has(
                                    digit as int,
                                ),
                            decreases 10 - d,
                        {
                            if digit == 0 && self.cells[i].has_digit(d) {
                                digit = d;
                            }
                            d = d + 1;
                        }
                        assert(digit != 0);
                    }
                    let ghost pre = self.cells@;
                    let mut cell = self.cells[i];
                    cell.solve_cell(digit);
                    self.cells[i] = cell;
                    proof {
                        assert(cell_monotone(pre[i as int], cell));
                        lemma_board_monotone_step(old(self).cells@, pre, i as int, cell);
                        lemma_pot_update(pre, i as int, cell, 81);
                    }
                    self.register_change(i);
                    let mut hv: Vec<usize> = Vec::new();
                    hv.push(i);
                    self.add_history_entry(EntryType::NakedSingle, hv, Cell::empty());
                    r = true;
                }
            }
            i = i + 1;
        }
        proof {
            assert forall|k: int|
                0 <= k < 81 && !(#[trigger] self.cells@[k]).solved implies self.cells@[
                k
            ].cand_count() >= 2 by {
                if old(self).cells@[k].solved {
                } else if old(self).cells@[k].cand_count() <= 1 {
                } else {
                    assert(self.cells@[k] == old(self).cells@[k]);
                }
            }
        }
        r
    }
}

} // verus!
