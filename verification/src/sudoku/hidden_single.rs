//! Hidden singles: when a section's digit counts show a digit with exactly
//! one remaining home, the cell that still carries it is committed to it.

use crate::cell::Cell;
use crate::history::EntryType;
use crate::index_manip::sec_cell;
use crate::sudoku::{
    board_monotone, cell_monotone, digit_sum, lemma_board_monotone_step,
    lemma_board_monotone_trans, lemma_pot_update, pot_to, Sudoku,
};
use vstd::prelude::*;

verus! {

/// What justifies committing cell `i` to digit `d`: some section holding
/// `i` had exactly one remaining home for `d`.
pub open spec fn hidden_single_evidence(cells: Seq<Cell>, i: int, d: int) -> bool {
    exists|si: int, j: int|
        0 <= si < 27 && 0 <= j < 9 && #[trigger] sec_cell(si, j) == i && digit_sum(cells, si, d)
            == 1
}

/// No hidden single is left: wherever a digit's count in a section is down
/// to one, its remaining home is already solved.
pub open spec fn hidden_stalled(cells: Seq<Cell>) -> bool {
    forall|si: int, d: int, j: int|
        0 <= si < 27 && 1 <= d <= 9 && 0 <= j < 9 && digit_sum(cells, si, d) == 1 && !cells[
            sec_cell(si, j)
        ].solved ==> !(#[trigger] cells[sec_cell(si, j)].has(d))
}

impl Sudoku {
    /// Runs the hidden-single rule over every section and digit whose count
    /// is one; reports whether any cell was committed. Cells are only ever
    /// solved to one of their own candidates, never stripped of digits.
    pub fn hidden_single(&mut self) -> (r: bool)
        requires
            old(self).wf(),
            old(self).stack_empty(),
            old(self).sums_match(),
        ensures
            final(self).wf(),
            final(self).stack_empty(),
            final(self).sections == old(self).sections,
            final(self).section_digit_sum == old(self).section_digit_sum,
            final(self).solved_cell_checked == old(self).solved_cell_checked,
            old(self).history@.is_prefix_of(final(self).history@),
            board_monotone(old(self).cells@, final(self).cells@),
            final(self).potential() <= old(self).potential(),
            r ==> final(self).potential() < old(self).potential(),
            r ==> final(self).history@.len() > old(self).history@.len(),
            forall|k: int|
                old(self).history@.len() <= k < final(self).history@.len()
                    ==> (#[trigger] final(self).history@[k]).name == EntryType::HiddenSingle
                    && final(self).history@[k].cells@.len() == 1,
            !r ==> *final(self) == *old(self),
            !r ==> hidden_stalled(old(self).cells@),
            forall|si: int, d: int, j: int|
                0 <= si < 27 && 1 <= d <= 9 && 0 <= j < 9 && digit_sum(old(self).cells@, si, d)
                    == 1 && !old(self).cells@[sec_cell(si, j)].solved && (#[trigger] old(
                    self,
                ).cells@[sec_cell(si, j)].has(d)) ==> final(self).cells@[sec_cell(si, j)].solved,
            forall|i: int|
                0 <= i < 81 ==> #[trigger] final(self).cells@[i] == old(self).cells@[i] || (!old(
                    self,
                ).cells@[i].solved && final(self).cells@[i].solved && 1 <= final(self).cells@[i].num
                    <= 9 && old(self).cells@[i].has(final(self).cells@[i].num as int)
                    && hidden_single_evidence(
                    old(self).cells@,
                    i,
                    final(self).cells@[i].num as int,
                )),
    {
        let mut r = false;
        let mut si: usize = 0;
        while si < 27
            invariant
                si <= 27,
                self.wf(),
                self.stack_empty(),
                self.sections == old(self).sections,
                self.section_digit_sum == old(self).section_digit_sum,
                self.solved_cell_checked == old(self).solved_cell_checked,
                old(self).history@.is_prefix_of(self.history@),
                board_monotone(old(self).cells@, self.cells@),
                pot_to(self.cells@, 81) <= pot_to(old(self).cells@, 81),
                r ==> pot_to(self.cells@, 81) < pot_to(old(self).cells@, 81),
                r ==> self.history@.len() > old(self).history@.len(),
                forall|k: int|
                    old(self).history@.len() <= k < self.history@.len()
                        ==> (#[trigger] self.history@[k]).name == EntryType::HiddenSingle
                        && self.history@[k].cells@.len() == 1,
                !r ==> *self == *old(self),
                old(self).sums_match(),
                !r ==> (forall|si2: int, d: int, jj: int|
                    0 <= si2 < si && 1 <= d <= 9 && 0 <= jj < 9 && digit_sum(
                        old(self).cells@,
                        si2,
                        d,
                    ) == 1 && !old(self).cells@[sec_cell(si2, jj)].solved ==> !(
                    #[trigger] old(self).cells@[sec_cell(si2, jj)].has(d))),
                forall|si2: int, d2: int, j2: int|
                    0 <= si2 < si && 1 <= d2 <= 9 && 0 <= j2 < 9 && digit_sum(
                        old(self).cells@,
                        si2,
                        d2,
                    ) == 1 && !old(self).cells@[sec_cell(si2, j2)].solved && (#[trigger] old(
                        self,
                    ).cells@[sec_cell(si2, j2)].has(d2)) ==> self.cells@[sec_cell(si2, j2)].solved,
                forall|i: int|
                    0 <= i < 81 ==> #[trigger] self.cells@[i] == old(self).cells@[i] || (!old(
                        self,
                    ).cells@[i].solved && self.cells@[i].solved && 1 <= self.cells@[i].num <= 9
                        && old(self).cells@[i].has(self.cells@[i].num as int)
                        && hidden_single_evidence(
                        old(self).cells@,
                        i,
                        self.cells@[i].num as int,
                    )),
            decreases 27 - si,
        {
            let mut j: usize = 1;
            while j <= 9
                invariant
                    1 <= j <= 10,
                    si < 27,
                    self.wf(),
                    self.stack_empty(),
                    self.sections == old(self).sections,
                    self.section_digit_sum == old(self).section_digit_sum,
                    self.solved_cell_checked == old(self).solved_cell_checked,
                    old(self).history@.is_prefix_of(self.history@),
                    board_monotone(old(self).cells@, self.cells@),
                    pot_to(self.cells@, 81) <= pot_to(old(self).cells@, 81),
                    r ==> pot_to(self.cells@, 81) < pot_to(old(self).cells@, 81),
                    r ==> self.history@.len() > old(self).history@.len(),
                    forall|k: int|
                        old(self).history@.len() <= k < self.history@.len()
                            ==> (#[trigger] self.history@[k]).name == EntryType::HiddenSingle
                            && self.history@[k].cells@.len() == 1,
                    !r ==> *self == *old(self),
                    old(self).sums_match(),
                    !r ==> (forall|si2: int, d: int, jj: int|
                        0 <= si2 < 27 && 1 <= d <= 9 && 0 <= jj < 9 && (si2 < si || (si2 == si && d
                            < j)) && digit_sum(old(self).cells@, si2, d) == 1 && !old(
                            self,
                        ).cells@[sec_cell(si2, jj)].solved ==> !(#[trigger] old(self).cells@[
                        sec_cell(si2, jj)
                        ].has(d))),
                    forall|si2: int, d2: int, j2: int|
                        0 <= si2 < 27 && 1 <= d2 <= 9 && 0 <= j2 < 9 && (si2 < si || (si2 == si
                            && d2 < j)) && digit_sum(old(self).cells@, si2, d2) == 1 && !old(
                            self,
                        ).cells@[sec_cell(si2, j2)].solved && (#[trigger] old(self).cells@[
                        sec_cell(si2, j2)
                        ].has(d2)) ==> self.cells@[sec_cell(si2, j2)].solved,
                    forall|i: int|
                        0 <= i < 81 ==> #[trigger] self.cells@[i] == old(self).cells@[i] || (!old(
                            self,
                        ).cells@[i].solved && self.cells@[i].solved && 1 <= self.cells@[i].num <= 9
                            && old(self).cells@[i].has(self.cells@[i].num as int)
                            && hidden_single_evidence(
                            old(self).cells@,
                            i,
                            self.cells@[i].num as int,
                        )),
                decreases 10 - j,
            {
                let count = self.section_digit_sum[si][j];
                if count == 1 {
                    let ghost mid = *self;
                    proof {
                        assert(old(self).section_digit_sum@[si as int]@[j as int] == 1);
                        assert(digit_sum(old(self).cells@, si as int, j as int) == 1);
                    }
                    let fired = self.find_hidden_single(si, j as u16, Ghost(old(self).cells@));
                    if fired {
                        r = true;
                    }
                    proof {
                        lemma_board_monotone_trans(old(self).cells@, mid.cells@, self.cells@);
                        assert forall|k: int|
                            old(self).history@.len() <= k < self.history@.len() implies (
                        #[trigger] self.history@[k]).name == EntryType::HiddenSingle
                            && self.history@[k].cells@.len() == 1 by {
                            if k < mid.history@.len() {
                                assert(mid.history@.is_prefix_of(self.history@));
                                assert(self.history@[k] == mid.history@[k]);
                            }
                        }
                        assert forall|si2: int, d2: int, j2: int|
                            0 <= si2 < 27 && 1 <= d2 <= 9 && 0 <= j2 < 9 && (si2 < si || (si2 == si
                                && d2 < j + 1)) && digit_sum(old(self).cells@, si2, d2) == 1 && !old(
                            self,
                        ).cells@[sec_cell(si2, j2)].solved && (#[trigger] old(self).cells@[
                        sec_cell(si2, j2)
                        ].has(d2)) implies self.cells@[sec_cell(si2, j2)].solved by {
                            crate::index_manip::lemma_sec_cell_bound(si2, j2);
                            let h = sec_cell(si2, j2);
                            if si2 < si || (si2 == si && d2 < j) {
                                assert(mid.cells@[h].solved);
                            } else {
                                if !self.cells@[h].solved {
                                    assert(self.cells@[h] == mid.cells@[h]);
                                    assert(mid.cells@[h] == old(self).cells@[h]);
                                    assert(!mid.cells@[h].solved && mid.cells@[h].has(j as int));
                                    assert(fired);
                                    let jj0 = choose|jj: int|
                                        0 <= jj < 9 && self.cells@[sec_cell(si as int, jj)]
                                            != mid.cells@[#[trigger] sec_cell(si as int, jj)]
                                            && !mid.cells@[sec_cell(si as int, jj)].solved
                                            && mid.cells@[sec_cell(si as int, jj)].has(j as int);
                                    crate::index_manip::lemma_sec_cell_bound(si as int, jj0);
                                    let c = sec_cell(si as int, jj0);
                                    assert(mid.cells@[c] == old(self).cells@[c]);
                                    assert(old(self).cells@[c].has(j as int));
                                    if jj0 < j2 {
                                        crate::sudoku::lemma_ds_two(
                                            old(self).cells@,
                                            si as int,
                                            j as int,
                                            jj0,
                                            j2,
                                        );
                                        assert(false);
                                    } else if j2 < jj0 {
                                        crate::sudoku::lemma_ds_two(
                                            old(self).cells@,
                                            si as int,
                                            j as int,
                                            j2,
                                            jj0,
                                        );
                                        assert(false);
                                    }
                                    assert(c == h);
                                    assert(self.cells@[h] != mid.cells@[h]);
                                    assert(false);
                                }
                            }
                        }
                    }
                }
                j = j + 1;
            }
            si = si + 1;
        }
        r
    }

    // Commits the first unsolved cell of section `si` still carrying
    // `digit`; reports whether one was found. `base` is the board the
    // digit counts were taken from, which the current cells refine.
    fn find_hidden_single(&mut self, si: usize, digit: u16, base: Ghost<Seq<Cell>>) -> (r: bool)
        requires
            old(self).wf(),
            old(self).stack_empty(),
            si < 27,
            1 <= digit <= 9,
            digit_sum(base@, si as int, digit as int) == 1,
            board_monotone(base@, old(self).cells@),
        ensures
            final(self).wf(),
            final(self).stack_empty(),
            final(self).sections == old(self).sections,
            final(self).section_digit_sum == old(self).section_digit_sum,
            final(self).solved_cell_checked == old(self).solved_cell_checked,
            old(self).history@.is_prefix_of(final(self).history@),
            board_monotone(old(self).cells@, final(self).cells@),
            pot_to(final(self).cells@, 81) <= pot_to(old(self).cells@, 81),
            r ==> pot_to(final(self).cells@, 81) < pot_to(old(self).cells@, 81),
            r ==> final(self).history@.len() > old(self).history@.len(),
            forall|k: int|
                old(self).history@.len() <= k < final(self).history@.len()
                    ==> (#[trigger] final(self).history@[k]).name == EntryType::HiddenSingle
                    && final(self).history@[k].cells@.len() == 1,
            !r ==> *final(self) == *old(self),
            !r ==> (forall|jj: int|
                0 <= jj < 9 && !old(self).cells@[sec_cell(si as int, jj)].solved ==> !(
                #[trigger] old(self).cells@[sec_cell(si as int, jj)].has(digit as int))),
            r ==> (exists|jj: int|
                0 <= jj < 9 && final(self).cells@[#[trigger] sec_cell(si as int, jj)] != old(
                    self,
                ).cells@[sec_cell(si as int, jj)] && !old(self).cells@[sec_cell(
                    si as int,
                    jj,
                )].solved && old(self).cells@[sec_cell(si as int, jj)].has(digit as int)),
            forall|i: int|
                0 <= i < 81 && #[trigger] final(self).cells@[i] != old(self).cells@[i]
                    ==> exists|jj: int| 0 <= jj < 9 && i == sec_cell(si as int, jj),
            forall|i: int|
                0 <= i < 81 ==> #[trigger] final(self).cells@[i] == old(self).cells@[i] || (!old(
                    self,
                ).cells@[i].solved && final(self).cells@[i].solved && final(self).cells@[i].num
                    == digit && old(self).cells@[i].has(digit as int) && base@[i].has(digit as int)
                    && hidden_single_evidence(base@, i, digit as int)),
    {
        let mut j: usize = 0;
        while j < 9
            invariant
                j <= 9,
                si < 27,
                1 <= digit <= 9,
                self.wf(),
                self.stack_empty(),
                *self == *old(self),
                digit_sum(base@, si as int, digit as int) == 1,
                board_monotone(base@, old(self).cells@),
                forall|jj: int|
                    0 <= jj < j && !old(self).cells@[sec_cell(si as int, jj)].solved ==> !(
                    #[trigger] old(self).cells@[sec_cell(si as int, jj)].has(digit as int)),
            decreases 9 - j,
        {
            let ci = self.sections[si][j];
            if !self.cells[ci].is_solved() && self.cells[ci].has_digit(digit) {
                let ghost pre = self.cells@;
                let mut cell = self.cells[ci];
                cell.solve_cell(digit);
                self.cells[ci] = cell;
                proof {
                    assert(cell_monotone(pre[ci as int], cell));
                    crate::sudoku::lemma_board_monotone_refl(pre);
                    lemma_board_monotone_step(pre, pre, ci as int, cell);
                    lemma_pot_update(pre, ci as int, cell, 81);
                    assert(sec_cell(si as int, j as int) == ci as int);
                    assert(cell_monotone(base@[ci as int], old(self).cells@[ci as int]));
                    assert(base@[ci as int].has(digit as int));
                    assert(hidden_single_evidence(base@, ci as int, digit as int));
                    assert(self.cells@[ci as int] != old(self).cells@[ci as int]);
                    assert forall|i: int|
                        0 <= i < 81 && #[trigger] self.cells@[i] != old(self).cells@[i] implies
                        exists|jj: int| 0 <= jj < 9 && i == sec_cell(si as int, jj) by {
                        assert(i == ci as int);
                        assert(i == sec_cell(si as int, j as int));
                    }
                }
                self.add_history_entry_from_solution(EntryType::HiddenSingle, ci);
                return true;
            }
            j = j + 1;
        }
        proof {
            crate::sudoku::lemma_board_monotone_refl(self.cells@);
        }
        false
    }
}

} // verus!
