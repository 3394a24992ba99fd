//! The board: 81 cells plus derived bookkeeping (per-section digit counts,
//! per-cell propagation flags), the decision history, the fixed-point rule
//! scheduler and the two generators.

use crate::cell::Cell;
use crate::history::{CellChange, EntryType, HistoryEntry};
use crate::index_manip::{make_section_index, sec_cell};
use vstd::prelude::*;

mod cell_solved;
mod group_removal;
mod hidden_single;
mod intersection_removal;
mod naked_single;

verus! {

/// A 9x9 board and everything the solving process tracks about it.
pub struct Sudoku {
    /// The 81 cells, row-major: index 0 top left, 80 bottom right.
    pub cells: Vec<Cell>,
    /// Which solved cells have already had their value propagated away
    /// from their peers.
    pub solved_cell_checked: Vec<bool>,
    /// Per-section, per-digit candidate counts; entry 0 of each inner table
    /// counts the digits that occur more than once.
    pub section_digit_sum: Vec<Vec<usize>>,
    /// Changes collected by the rule currently running, not yet logged.
    pub cell_change_stack: Vec<CellChange>,
    /// The append-only decision log.
    pub history: Vec<HistoryEntry>,
    /// The 27 section membership tables, computed once at construction.
    pub sections: Vec<Vec<usize>>,
}

/// Number of occurrences of digit `d` among the first `j` members of
/// section `si`.
pub open spec fn ds_to(cells: Seq<Cell>, si: int, d: int, j: int) -> nat
    decreases j,
{
    if j <= 0 {
        0
    } else {
        ds_to(cells, si, d, j - 1) + (if cells[sec_cell(si, j - 1)].has(d) {
            1nat
        } else {
            0nat
        })
    }
}

/// Number of occurrences of digit `d` in section `si`; solved cells count
/// through their value.
pub open spec fn digit_sum(cells: Seq<Cell>, si: int, d: int) -> nat {
    ds_to(cells, si, d, 9)
}

/// Number of digits 1..=d occurring more than once in section `si`.
pub open spec fn over_to(cells: Seq<Cell>, si: int, d: int) -> nat
    decreases d,
{
    if d <= 0 {
        0
    } else {
        over_to(cells, si, d - 1) + (if digit_sum(cells, si, d) >= 2 {
            1nat
        } else {
            0nat
        })
    }
}

/// Number of unsolved cells among the first `j` members of section `si`.
pub open spec fn su_to(cells: Seq<Cell>, si: int, j: int) -> nat
    decreases j,
{
    if j <= 0 {
        0
    } else {
        su_to(cells, si, j - 1) + (if cells[sec_cell(si, j - 1)].solved {
            0nat
        } else {
            1nat
        })
    }
}

/// Number of unsolved cells in section `si`.
pub open spec fn section_unsolved(cells: Seq<Cell>, si: int) -> nat {
    su_to(cells, si, 9)
}

/// What one cell contributes to the scheduler's termination measure.
pub open spec fn cell_pot(c: Cell) -> nat {
    if c.solved {
        0
    } else {
        1 + c.cand_count()
    }
}

/// Sum of `cell_pot` over the first `i` cells.
pub open spec fn pot_to(s: Seq<Cell>, i: int) -> nat
    decreases i,
{
    if i <= 0 {
        0
    } else {
        pot_to(s, i - 1) + cell_pot(s[i - 1])
    }
}

/// Candidate bits one cell contributes to the board total: none once solved.
pub open spec fn cands_of(c: Cell) -> nat {
    if c.solved {
        0
    } else {
        c.cand_count()
    }
}

/// Total candidate count over the first `i` cells.
pub open spec fn cands_to(s: Seq<Cell>, i: int) -> nat
    decreases i,
{
    if i <= 0 {
        0
    } else {
        cands_to(s, i - 1) + cands_of(s[i - 1])
    }
}

/// What justifies dropping digit `d` from cell `i` by an intersection or
/// group argument: some other unsolved cell sharing a section with `i`
/// still carries `d`.
pub open spec fn elimination_witness(cells: Seq<Cell>, i: int, d: int) -> bool {
    exists|j: int|
        0 <= j < 81 && j != i && crate::index_manip::peers(j, i) && !(#[trigger] cells[j]).solved
            && cells[j].has(d)
}

/// How a single cell may evolve under the deduction rules: a solved cell is
/// frozen, candidates are only removed, and a newly solved cell takes one of
/// its own candidates (or 0, for a cell that ran out).
pub open spec fn cell_monotone(a: Cell, b: Cell) -> bool {
    &&& (a.solved ==> b == a)
    &&& (!a.solved && b.solved ==> b.num == 0 || a.has(b.num as int))
    &&& (forall|d: int| #[trigger] b.has(d) ==> a.has(d))
}

/// Pointwise monotone evolution of a whole board.
pub open spec fn board_monotone(a: Seq<Cell>, b: Seq<Cell>) -> bool {
    b.len() == a.len() && (forall|i: int|
        0 <= i < a.len() ==> #[trigger] cell_monotone(a[i], b[i]))
}

pub proof fn lemma_board_monotone_refl(s: Seq<Cell>)
    ensures
        board_monotone(s, s),
{
    assert forall|i: int| 0 <= i < s.len() implies #[trigger] cell_monotone(s[i], s[i]) by {}
}

pub proof fn lemma_cell_monotone_trans(a: Cell, b: Cell, c: Cell)
    requires
        cell_monotone(a, b),
        cell_monotone(b, c),
    ensures
        cell_monotone(a, c),
{
}

pub proof fn lemma_board_monotone_trans(a: Seq<Cell>, b: Seq<Cell>, c: Seq<Cell>)
    requires
        board_monotone(a, b),
        board_monotone(b, c),
    ensures
        board_monotone(a, c),
{
    assert forall|i: int| 0 <= i < a.len() implies #[trigger] cell_monotone(a[i], c[i]) by {
        assert(cell_monotone(a[i], b[i]));
        assert(cell_monotone(b[i], c[i]));
        lemma_cell_monotone_trans(a[i], b[i], c[i]);
    }
}

/// One monotone step at index `i` keeps the whole board monotone over `pre`.
pub proof fn lemma_board_monotone_step(pre: Seq<Cell>, cur: Seq<Cell>, i: int, c: Cell)
    requires
        board_monotone(pre, cur),
        0 <= i < cur.len(),
        cell_monotone(cur[i], c),
    ensures
        board_monotone(pre, cur.update(i, c)),
{
    let upd = cur.update(i, c);
    assert forall|k: int| 0 <= k < pre.len() implies #[trigger] cell_monotone(pre[k], upd[k]) by {
        assert(cell_monotone(pre[k], cur[k]));
        if k == i {
            lemma_cell_monotone_trans(pre[k], cur[k], c);
        }
    }
}

/// Exchanging one cell changes the two running sums by that cell alone.
pub proof fn lemma_pot_update(s: Seq<Cell>, i: int, c: Cell, n: int)
    requires
        0 <= i < s.len(),
        n <= s.len(),
    ensures
        i < n ==> pot_to(s.update(i, c), n) + cell_pot(s[i]) == pot_to(s, n) + cell_pot(c),
        i >= n ==> pot_to(s.update(i, c), n) == pot_to(s, n),
    decreases n,
{
    if n > 0 {
        lemma_pot_update(s, i, c, n - 1);
    }
}

impl Sudoku {
    /// The cells are 81 well-formed values whose cached counts are on and
    /// accurate.
    pub open spec fn cells_wf(self) -> bool {
        &&& self.cells@.len() == 81
        &&& (forall|i: int|
            0 <= i < 81 ==> (#[trigger] self.cells@[i]).inv() && self.cells@[i].counted())
    }

    /// The section tables hold exactly the 27 sections.
    pub open spec fn sections_wf(self) -> bool {
        &&& self.sections@.len() == 27
        &&& (forall|si: int| 0 <= si < 27 ==> (#[trigger] self.sections@[si])@.len() == 9)
        &&& (forall|si: int, j: int|
            0 <= si < 27 && 0 <= j < 9 ==> (#[trigger] self.sections@[si]@[j]) == sec_cell(si, j))
        &&& (forall|si: int, j: int|
            0 <= si < 27 && 0 <= j < 9 ==> (#[trigger] self.sections@[si]@[j]) < 81)
    }

    /// The digit-count summary has its fixed shape.
    pub open spec fn sums_shape(self) -> bool {
        &&& self.section_digit_sum@.len() == 27
        &&& (forall|si: int| 0 <= si < 27 ==> (#[trigger] self.section_digit_sum@[si])@.len() == 10)
    }

    /// Every logged entry records at least one actual cell change, at a
    /// board position.
    pub open spec fn history_wf(self) -> bool {
        forall|k: int|
            0 <= k < self.history@.len() ==> (#[trigger] self.history@[k]).changes@.len() >= 1
    }

    /// A propagation flag is only ever set on a committed cell.
    pub open spec fn checked_are_solved(self) -> bool {
        forall|i: int|
            0 <= i < 81 && (#[trigger] self.solved_cell_checked@[i]) ==> self.cells@[i].solved
    }

    /// Well-formedness of the whole board structure.
    pub open spec fn wf(self) -> bool {
        &&& self.cells_wf()
        &&& self.sections_wf()
        &&& self.sums_shape()
        &&& self.solved_cell_checked@.len() == 81
        &&& self.checked_are_solved()
        &&& self.history_wf()
    }

    /// No rule is in the middle of collecting changes.
    pub open spec fn stack_empty(self) -> bool {
        self.cell_change_stack@.len() == 0
    }

    /// The digit-count summary agrees with the cells.
    pub open spec fn sums_match(self) -> bool {
        forall|si: int, d: int|
            0 <= si < 27 && 1 <= d <= 9 ==> (#[trigger] self.section_digit_sum@[si]@[d]) as nat
                == digit_sum(self.cells@, si, d)
    }

    /// Entry 0 of each summary counts the digits occurring more than once.
    pub open spec fn sums_over(self) -> bool {
        forall|si: int|
            0 <= si < 27 ==> (#[trigger] self.section_digit_sum@[si]@[0]) as nat == over_to(
                self.cells@,
                si,
                9,
            )
    }

    /// The scheduler's termination measure.
    pub open spec fn potential(self) -> nat {
        pot_to(self.cells@, 81)
    }

    /// Every cell is committed.
    pub open spec fn all_solved(self) -> bool {
        forall|i: int| 0 <= i < 81 ==> (#[trigger] self.cells@[i]).solved
    }

    /// Every solved cell has had its value propagated away from its peers.
    pub open spec fn solved_all_checked(self) -> bool {
        forall|i: int|
            0 <= i < 81 && (#[trigger] self.cells@[i]).solved ==> self.solved_cell_checked@[i]
    }

    /// The "solved implies eliminated from peers" invariant: no unsolved
    /// cell still carries the value of a checked solved peer.
    pub open spec fn propagated(self) -> bool {
        forall|i: int, j: int|
            0 <= i < 81 && 0 <= j < 81 && (#[trigger] self.cells@[i]).solved
                && self.solved_cell_checked@[i] && self.cells@[i].num != 0 && crate::index_manip::peers(
                i,
                j,
            ) && !(#[trigger] self.cells@[j]).solved ==> !self.cells@[j].has(
                self.cells@[i].num as int,
            )
    }

    /// No unsolved cell is down to one candidate or none.
    pub open spec fn no_naked_single(self) -> bool {
        forall|i: int|
            0 <= i < 81 && !(#[trigger] self.cells@[i]).solved ==> self.cells@[i].cand_count() >= 2
    }

    /// Every section holds every digit exactly once.
    pub open spec fn spec_valid(self) -> bool {
        forall|si: int, d: int|
            0 <= si < 27 && 1 <= d <= 9 ==> #[trigger] digit_sum(self.cells@, si, d) == 1
    }

    /// A fresh, fully open board: every cell holds all nine candidates.
    pub fn new() -> (s: Sudoku)
        ensures
            s.wf(),
            s.stack_empty(),
            s.history@.len() == 0,
            forall|i: int|
                0 <= i < 81 ==> !(#[trigger] s.cells@[i]).solved && s.cells@[i].cand_count() == 9,
            s.sums_match(),
            s.sums_over(),
            forall|i: int| 0 <= i < 81 ==> !(#[trigger] s.solved_cell_checked@[i]),
            s.solved_all_checked(),
            s.propagated(),
            s.no_naked_single(),
    {
        let mut cells: Vec<Cell> = Vec::new();
        let mut i: usize = 0;
        while i < 81
            invariant
                i <= 81,
                cells@.len() == i,
                forall|k: int|
                    0 <= k < i ==> (#[trigger] cells@[k]).inv() && cells@[k].counted() && !cells@[
                        k
                    ].solved && cells@[k].cand_count() == 9,
            decreases 81 - i,
        {
            cells.push(Cell::full());
            i = i + 1;
        }
        let mut checked: Vec<bool> = Vec::new();
        let mut i: usize = 0;
        while i < 81
            invariant
                i <= 81,
                checked@.len() == i,
                forall|k: int| 0 <= k < i ==> !(#[trigger] checked@[k]),
            decreases 81 - i,
        {
            checked.push(false);
            i = i + 1;
        }
        let mut sums: Vec<Vec<usize>> = Vec::new();
        let mut si: usize = 0;
        while si < 27
            invariant
                si <= 27,
                sums@.len() == si,
                forall|s2: int| 0 <= s2 < si ==> (#[trigger] sums@[s2])@.len() == 10,
            decreases 27 - si,
        {
            let mut inner: Vec<usize> = Vec::new();
            let mut d: usize = 0;
            while d < 10
                invariant
                    d <= 10,
                    inner@.len() == d,
                decreases 10 - d,
            {
                inner.push(0);
                d = d + 1;
            }
            sums.push(inner);
            si = si + 1;
        }
        let mut s = Sudoku {
            cells,
            solved_cell_checked: checked,
            section_digit_sum: sums,
            cell_change_stack: Vec::new(),
            history: Vec::new(),
            sections: make_section_index(),
        };
        s.update_section_digit_sum();
        s
    }

    /// A board seeded from 81 given values (0 leaves a cell open), solved
    /// cells taking the given digit. Propagation has not run yet.
    pub fn from_solutions(sol_arr: &Vec<usize>) -> (s: Sudoku)
        requires
            sol_arr@.len() == 81,
            forall|i: int| 0 <= i < 81 ==> (#[trigger] sol_arr@[i]) <= 9,
        ensures
            s.wf(),
            s.stack_empty(),
            s.history@.len() == 0,
            forall|i: int|
                0 <= i < 81 && sol_arr@[i] != 0 ==> (#[trigger] s.cells@[i]).solved && s.cells@[
                    i
                ].num == sol_arr@[i],
            forall|i: int|
                0 <= i < 81 && sol_arr@[i] == 0 ==> !(#[trigger] s.cells@[i]).solved && s.cells@[
                    i
                ].cand_count() == 9,
            forall|i: int| 0 <= i < 81 ==> !(#[trigger] s.solved_cell_checked@[i]),
            s.propagated(),
    {
        let mut s = Self::new();
        let ghost fresh = s.cells@;
        let mut i: usize = 0;
        while i < 81
            invariant
                i <= 81,
                sol_arr@.len() == 81,
                forall|k: int| 0 <= k < 81 ==> (#[trigger] sol_arr@[k]) <= 9,
                s.cells@.len() == 81,
                s.wf(),
                s.stack_empty(),
                s.history@.len() == 0,
                forall|k: int| 0 <= k < 81 ==> !(#[trigger] s.solved_cell_checked@[k]),
                forall|k: int|
                    i <= k < 81 ==> (#[trigger] s.cells@[k]) == fresh[k],
                forall|k: int|
                    0 <= k < 81 ==> !(#[trigger] fresh[k]).solved && fresh[k].cand_count() == 9,
                forall|k: int|
                    0 <= k < i && sol_arr@[k] != 0 ==> (#[trigger] s.cells@[k]).solved && s.cells@[
                        k
                    ].num == sol_arr@[k],
                forall|k: int|
                    0 <= k < i && sol_arr@[k] == 0 ==> !(#[trigger] s.cells@[k]).solved && s.cells@[
                        k
                    ].cand_count() == 9,
            decreases 81 - i,
        {
            if sol_arr[i] != 0 {
                let mut c = Cell::full();
                c.solve_cell(sol_arr[i] as u16);
                s.cells[i] = c;
            }
            i = i + 1;
        }
        s
    }

    /// Records that the cell at `id` just changed, for the history entry the
    /// running rule will log.
    pub fn register_change(&mut self, id: usize)
        requires
            old(self).cells@.len() == 81,
            id < 81,
        ensures
            final(self).cell_change_stack@ == old(self).cell_change_stack@.push(
                CellChange { id, new_cell: old(self).cells@[id as int] },
            ),
            final(self).cells == old(self).cells,
            final(self).solved_cell_checked == old(self).solved_cell_checked,
            final(self).section_digit_sum == old(self).section_digit_sum,
            final(self).history == old(self).history,
            final(self).sections == old(self).sections,
    {
        let new_cell = self.cells[id];
        self.cell_change_stack.push(CellChange { id, new_cell });
    }

    /// Whether the running rule has collected any changes yet.
    pub fn has_changes(&self) -> (r: bool)
        ensures
            r == !self.stack_empty(),
    {
        self.cell_change_stack.len() > 0
    }

    /// Logs the collected changes as one history entry and clears the
    /// collection; there must be at least one change.
    pub fn add_history_entry(&mut self, name: EntryType, cells: Vec<usize>, digits: Cell)
        requires
            !old(self).stack_empty(),
        ensures
            final(self).history@.len() == old(self).history@.len() + 1,
            old(self).history@.is_prefix_of(final(self).history@),
            final(self).history@.last().name == name,
            final(self).history@.last().cells == cells,
            final(self).history@.last().digits == digits,
            final(self).history@.last().changes@ == old(self).cell_change_stack@,
            final(self).stack_empty(),
            final(self).cells == old(self).cells,
            final(self).solved_cell_checked == old(self).solved_cell_checked,
            final(self).section_digit_sum == old(self).section_digit_sum,
            final(self).sections == old(self).sections,
            old(self).history_wf() ==> final(self).history_wf(),
    {
        let mut changes: Vec<CellChange> = Vec::new();
        core::mem::swap(&mut changes, &mut self.cell_change_stack);
        self.history.push(HistoryEntry { name, cells, digits, changes });
    }

    /// Logs the commitment of a single cell as one history entry; used when
    /// a rule solves a cell without removing digits elsewhere.
    pub fn add_history_entry_from_solution(&mut self, name: EntryType, id: usize)
        requires
            old(self).stack_empty(),
            old(self).cells@.len() == 81,
            id < 81,
            old(self).cells@[id as int].inv(),
        ensures
            final(self).history@.len() == old(self).history@.len() + 1,
            old(self).history@.is_prefix_of(final(self).history@),
            final(self).history@.last().name == name,
            final(self).history@.last().cells@.len() == 1,
            final(self).history@.last().cells@[0] == id,
            forall|d: int|
                #[trigger] final(self).history@.last().digits.has(d) == (1 <= d <= 9 && !old(
                    self,
                ).cells@[id as int].has(d)),
            final(self).history@.last().changes@.len() == 1,
            final(self).history@.last().changes@[0].id == id,
            final(self).history@.last().changes@[0].new_cell == old(self).cells@[id as int],
            final(self).stack_empty(),
            final(self).cells == old(self).cells,
            final(self).solved_cell_checked == old(self).solved_cell_checked,
            final(self).section_digit_sum == old(self).section_digit_sum,
            final(self).sections == old(self).sections,
            old(self).history_wf() ==> final(self).history_wf(),
    {
        let cell = self.cells[id];
        let digits = cell.get_unsolved_copy().inverse();
        let mut cells: Vec<usize> = Vec::new();
        cells.push(id);
        let mut changes: Vec<CellChange> = Vec::new();
        changes.push(CellChange { id, new_cell: cell });
        self.history.push(HistoryEntry { name, cells, digits, changes });
    }

    /// Logs the collected changes if there are any; reports whether there
    /// were.
    pub fn add_history_entry_if_changes(&mut self, name: EntryType, cells: Vec<usize>, digits: Cell)
        -> (r: bool)
        ensures
            r == !old(self).stack_empty(),
            final(self).stack_empty(),
            !r ==> *final(self) == *old(self),
            r ==> final(self).history@.len() == old(self).history@.len() + 1,
            r ==> final(self).history@.last().name == name && final(self).history@.last().cells
                == cells && final(self).history@.last().digits == digits
                && final(self).history@.last().changes@ == old(self).cell_change_stack@,
            old(self).history@.is_prefix_of(final(self).history@),
            final(self).cells == old(self).cells,
            final(self).solved_cell_checked == old(self).solved_cell_checked,
            final(self).section_digit_sum == old(self).section_digit_sum,
            final(self).sections == old(self).sections,
            old(self).history_wf() ==> final(self).history_wf(),
    {
        let r = self.has_changes();
        if r {
            self.add_history_entry(name, cells, digits);
        }
        r
    }

    /// Whether every cell is committed.
    pub fn is_solved(&self) -> (r: bool)
        requires
            self.cells@.len() == 81,
        ensures
            r == self.all_solved(),
    {
        let mut i: usize = 0;
        while i < 81
            invariant
                i <= 81,
                self.cells@.len() == 81,
                forall|k: int| 0 <= k < i ==> (#[trigger] self.cells@[k]).solved,
            decreases 81 - i,
        {
            if !self.cells[i].is_solved() {
                return false;
            }
            i = i + 1;
        }
        true
    }

    /// Recomputes the per-section digit counts from the cells; touches no
    /// cell and therefore always reports "no mutation".
    pub fn update_section_digit_sum(&mut self) -> (r: bool)
        requires
            old(self).cells_wf(),
            old(self).sections_wf(),
            old(self).sums_shape(),
        ensures
            r == false,
            final(self).cells == old(self).cells,
            final(self).solved_cell_checked == old(self).solved_cell_checked,
            final(self).cell_change_stack == old(self).cell_change_stack,
            final(self).history == old(self).history,
            final(self).sections == old(self).sections,
            final(self).sums_shape(),
            final(self).sums_match(),
            final(self).sums_over(),
    {
        let mut si: usize = 0;
        while si < 27
            invariant
                si <= 27,
                self.cells_wf(),
                self.sections_wf(),
                self.sums_shape(),
                self.cells == old(self).cells,
                self.solved_cell_checked == old(self).solved_cell_checked,
                self.cell_change_stack == old(self).cell_change_stack,
                self.history == old(self).history,
                self.sections == old(self).sections,
                forall|s2: int, d: int|
                    0 <= s2 < si && 1 <= d <= 9 ==> (#[trigger] self.section_digit_sum@[s2]@[
                        d
                    ]) as nat == digit_sum(self.cells@, s2, d),
                forall|s2: int|
                    0 <= s2 < si ==> (#[trigger] self.section_digit_sum@[s2]@[0]) as nat == over_to(
                        self.cells@,
                        s2,
                        9,
                    ),
            decreases 27 - si,
        {
            let mut temp: Vec<usize> = Vec::new();
            let mut d: usize = 0;
            while d < 10
                invariant
                    d <= 10,
                    temp@.len() == d,
                    forall|e: int| 0 <= e < d ==> (#[trigger] temp@[e]) == 0,
                decreases 10 - d,
            {
                temp.push(0);
                d = d + 1;
            }
            let mut j: usize = 0;
            while j < 9
                invariant
                    j <= 9,
                    si < 27,
                    self.cells_wf(),
                    self.sections_wf(),
                    temp@.len() == 10,
                    temp@[0] == 0,
                    forall|e: int|
                        1 <= e <= 9 ==> (#[trigger] temp@[e]) as nat == ds_to(
                            self.cells@,
                            si as int,
                            e,
                            j as int,
                        ),
                decreases 9 - j,
            {
                let ci = self.sections[si][j];
                let mut d: u16 = 1;
                while d <= 9
                    invariant
                        1 <= d <= 10,
                        j < 9,
                        si < 27,
                        ci < 81,
                        ci == sec_cell(si as int, j as int),
                        self.cells_wf(),
                        temp@.len() == 10,
                        temp@[0] == 0,
                        forall|e: int|
                            1 <= e < d ==> (#[trigger] temp@[e]) as nat == ds_to(
                                self.cells@,
                                si as int,
                                e,
                                j as int + 1,
                            ),
                        forall|e: int|
                            d <= e <= 9 ==> (#[trigger] temp@[e]) as nat == ds_to(
                                self.cells@,
                                si as int,
                                e,
                                j as int,
                            ),
                    decreases 10 - d,
                {
                    proof {
                        lemma_ds_le(self.cells@, si as int, d as int, j as int);
                    }
                    if self.cells[ci].has_digit(d) {
                        let t = temp[d as usize];
                        temp[d as usize] = t + 1;
                    }
                    d = d + 1;
                }
                j = j + 1;
            }
            let mut over: usize = 0;
            let mut d: usize = 1;
            while d <= 9
                invariant
                    1 <= d <= 10,
                    si < 27,
                    temp@.len() == 10,
                    over as nat == over_to(self.cells@, si as int, d as int - 1),
                    over <= 9,
                    forall|e: int|
                        1 <= e <= 9 ==> (#[trigger] temp@[e]) as nat == ds_to(
                            self.cells@,
                            si as int,
                            e,
                            9,
                        ),
                decreases 10 - d,
            {
                proof {
                    lemma_over_le(self.cells@, si as int, d as int);
                }
                if temp[d] >= 2 {
                    over = over + 1;
                }
                d = d + 1;
            }
            temp[0] = over;
            self.section_digit_sum[si] = temp;
            si = si + 1;
        }
        false
    }

    /// One flag per section: true when the section's counts show every digit
    /// exactly once.
    pub fn get_section_status(&self) -> (r: Vec<bool>)
        requires
            self.sums_shape(),
        ensures
            r@.len() == 27,
            forall|si: int|
                0 <= si < 27 ==> (#[trigger] r@[si]) == (forall|d: int|
                    1 <= d <= 9 ==> (#[trigger] self.section_digit_sum@[si]@[d]) == 1),
    {
        let mut r: Vec<bool> = Vec::new();
        let mut si: usize = 0;
        while si < 27
            invariant
                si <= 27,
                self.sums_shape(),
                r@.len() == si,
                forall|s2: int|
                    0 <= s2 < si ==> (#[trigger] r@[s2]) == (forall|d: int|
                        1 <= d <= 9 ==> (#[trigger] self.section_digit_sum@[s2]@[d]) == 1),
            decreases 27 - si,
        {
            let mut good = true;
            let mut d: usize = 1;
            while d <= 9
                invariant
                    1 <= d <= 10,
                    si < 27,
                    self.sums_shape(),
                    good == (forall|e: int|
                        1 <= e < d ==> (#[trigger] self.section_digit_sum@[si as int]@[e]) == 1),
                decreases 10 - d,
            {
                if self.section_digit_sum[si][d] != 1 {
                    good = false;
                }
                d = d + 1;
            }
            r.push(good);
            si = si + 1;
        }
        r
    }

    /// Whether a fully solved board satisfies the one-of-each-digit rule in
    /// every section. Only meaningful after the summaries were refreshed,
    /// which `solve` guarantees.
    pub fn is_valid(&self) -> (r: bool)
        requires
            self.wf(),
            self.sums_match(),
            self.all_solved(),
        ensures
            r == self.spec_valid(),
    {
        let sec_stat = self.get_section_status();
        let mut si: usize = 0;
        while si < 27
            invariant
                si <= 27,
                self.wf(),
                self.sums_match(),
                sec_stat@.len() == 27,
                forall|s2: int|
                    0 <= s2 < 27 ==> (#[trigger] sec_stat@[s2]) == (forall|d: int|
                        1 <= d <= 9 ==> (#[trigger] self.section_digit_sum@[s2]@[d]) == 1),
                forall|s2: int, d: int|
                    0 <= s2 < si && 1 <= d <= 9 ==> #[trigger] digit_sum(self.cells@, s2, d) == 1,
            decreases 27 - si,
        {
            proof {
                if sec_stat@[si as int] {
                    assert forall|d: int| 1 <= d <= 9 implies #[trigger] digit_sum(
                        self.cells@,
                        si as int,
                        d,
                    ) == 1 by {
                        assert(self.section_digit_sum@[si as int]@[d] == 1);
                        assert(self.section_digit_sum@[si as int]@[d] as nat == digit_sum(
                            self.cells@,
                            si as int,
                            d,
                        ));
                    }
                }
            }
            if !sec_stat[si] {
                proof {
                    let s2 = si as int;
                    let d0 = choose|d: int|
                        1 <= d <= 9 && (#[trigger] self.section_digit_sum@[s2]@[d]) != 1;
                    assert(self.section_digit_sum@[s2]@[d0] as nat == digit_sum(
                        self.cells@,
                        s2,
                        d0,
                    ));
                }
                return false;
            }
            si = si + 1;
        }
        true
    }
}

impl Sudoku {
    /// Runs the rule list to a fixed point: after every rule that mutates
    /// the board the scan restarts from the cheapest rule, and the loop ends
    /// with one full pass in which no rule reports a mutation. On return the
    /// board is stalled: every solved cell has been propagated away from its
    /// peers, no naked single and no hidden single remains, no pointed-group
    /// or box-line elimination applies, and the digit-count summaries match
    /// the cells. From these a caller can conclude that an immediate second
    /// run would report no mutation from the propagation, naked-single and
    /// hidden-single rules; the two combinatorial rules are not pinned that
    /// exactly.
    pub fn solve(&mut self)
        requires
            old(self).wf(),
            old(self).stack_empty(),
            old(self).propagated(),
        ensures
            final(self).wf(),
            final(self).stack_empty(),
            final(self).sections == old(self).sections,
            old(self).history@.is_prefix_of(final(self).history@),
            board_monotone(old(self).cells@, final(self).cells@),
            final(self).potential() <= old(self).potential(),
            final(self).solved_all_checked(),
            final(self).propagated(),
            final(self).no_naked_single(),
            hidden_single::hidden_stalled(final(self).cells@),
            forall|b2: int, x2: int, y2: int, d: int|
                0 <= b2 < 6 && 0 <= x2 < 3 && 0 <= y2 < 3 ==> !(
                #[trigger] intersection_removal::intersection_applies(
                    final(self).cells@,
                    b2,
                    x2,
                    y2,
                    d,
                )),
            final(self).sums_match(),
            final(self).sums_over(),
    {
        loop
            invariant
                self.wf(),
                self.stack_empty(),
                self.sections == old(self).sections,
                old(self).history@.is_prefix_of(self.history@),
                board_monotone(old(self).cells@, self.cells@),
                pot_to(self.cells@, 81) <= pot_to(old(self).cells@, 81),
                self.propagated(),
            ensures
                self.wf(),
                self.stack_empty(),
                self.sections == old(self).sections,
                old(self).history@.is_prefix_of(self.history@),
                board_monotone(old(self).cells@, self.cells@),
                pot_to(self.cells@, 81) <= pot_to(old(self).cells@, 81),
                self.solved_all_checked(),
                self.propagated(),
                self.no_naked_single(),
                hidden_single::hidden_stalled(self.cells@),
                forall|b2: int, x2: int, y2: int, d: int|
                    0 <= b2 < 6 && 0 <= x2 < 3 && 0 <= y2 < 3 ==> !(
                    #[trigger] intersection_removal::intersection_applies(
                        self.cells@,
                        b2,
                        x2,
                        y2,
                        d,
                    )),
                self.sums_match(),
                self.sums_over(),
            decreases pot_to(self.cells@, 81),
        {
            let ghost top = *self;
            self.cell_solved();
            proof {
                lemma_board_monotone_trans(old(self).cells@, top.cells@, self.cells@);
                lemma_prefix_trans(old(self).history@, top.history@, self.history@);
            }
            let ghost a1 = *self;
            if self.naked_single() {
                proof {
                    lemma_board_monotone_trans(old(self).cells@, a1.cells@, self.cells@);
                    lemma_prefix_trans(old(self).history@, a1.history@, self.history@);
                    lemma_propagated_preserved(a1, *self);
                }
                continue ;
            }
            self.update_section_digit_sum();
            let ghost a2 = *self;
            if self.hidden_single() {
                proof {
                    lemma_board_monotone_trans(old(self).cells@, a2.cells@, self.cells@);
                    lemma_prefix_trans(old(self).history@, a2.history@, self.history@);
                    lemma_propagated_preserved(a2, *self);
                }
                continue ;
            }
            let ghost a3 = *self;
            if self.intersection_removal() {
                proof {
                    lemma_board_monotone_trans(old(self).cells@, a3.cells@, self.cells@);
                    lemma_prefix_trans(old(self).history@, a3.history@, self.history@);
                    lemma_propagated_preserved(a3, *self);
                }
                continue ;
            }
            let ghost a4 = *self;
            if self.group_removal() {
                proof {
                    lemma_board_monotone_trans(old(self).cells@, a4.cells@, self.cells@);
                    lemma_prefix_trans(old(self).history@, a4.history@, self.history@);
                    lemma_propagated_preserved(a4, *self);
                }
                continue ;
            }
            break ;
        }
    }

    // Commits one unsolved cell to a random candidate and logs it as a
    // generator step.
    fn rs_cell(&mut self, c: usize)
        requires
            old(self).wf(),
            old(self).stack_empty(),
            c < 81,
            !old(self).cells@[c as int].solved,
        ensures
            final(self).wf(),
            final(self).stack_empty(),
            final(self).sections == old(self).sections,
            final(self).section_digit_sum == old(self).section_digit_sum,
            final(self).solved_cell_checked == old(self).solved_cell_checked,
            old(self).history@.is_prefix_of(final(self).history@),
            board_monotone(old(self).cells@, final(self).cells@),
            final(self).cells@[c as int].solved,
            old(self).cells@[c as int].cand_count() > 0 ==> 1 <= final(self).cells@[c as int].num
                <= 9 && old(self).cells@[c as int].has(final(self).cells@[c as int].num as int),
            final(self).history@.len() == old(self).history@.len() + 1,
            final(self).history@.last().name == EntryType::RsCell,
            forall|k: int| 0 <= k < 81 && k != c ==> final(self).cells@[k] == old(self).cells@[k],
            old(self).propagated() ==> final(self).propagated(),
    {
        let ghost pre = self.cells@;
        let mut cell = self.cells[c];
        cell.generate_number();
        self.cells[c] = cell;
        proof {
            assert(cell_monotone(pre[c as int], cell));
            lemma_board_monotone_refl(pre);
            lemma_board_monotone_step(pre, pre, c as int, cell);
        }
        self.add_history_entry_from_solution(EntryType::RsCell, c);
        proof {
            if old(self).propagated() {
                lemma_propagated_preserved(*old(self), *self);
            }
        }
    }

    /// Generates a board by visiting the cells in order, committing each
    /// still-unsolved one to a random candidate and re-running the engine to
    /// its fixed point. Every cell ends committed, whatever the draws: to a
    /// digit, or to 0 where elimination left none ("stalled"); `is_valid`
    /// then tells the outcomes apart.
    pub fn fill_incremental() -> (s: Sudoku)
        ensures
            s.wf(),
            s.stack_empty(),
            s.all_solved(),
            s.solved_all_checked(),
            s.propagated(),
            s.no_naked_single(),
            hidden_single::hidden_stalled(s.cells@),
            forall|b2: int, x2: int, y2: int, d: int|
                0 <= b2 < 6 && 0 <= x2 < 3 && 0 <= y2 < 3 ==> !(
                #[trigger] intersection_removal::intersection_applies(s.cells@, b2, x2, y2, d)),
            s.sums_match(),
            s.sums_over(),
            s.history@.len() >= 1,
            s.history@[0].name == EntryType::RsCell,
            1 <= s.cells@[0].num <= 9,
    {
        let mut s = Self::new();
        let mut i: usize = 0;
        while i < 81
            invariant
                i <= 81,
                s.wf(),
                s.stack_empty(),
                s.propagated(),
                s.solved_all_checked(),
                s.no_naked_single(),
                s.sums_match(),
                s.sums_over(),
                forall|k: int| 0 <= k < i ==> (#[trigger] s.cells@[k]).solved,
                i == 0 ==> !s.cells@[0].solved && s.history@.len() == 0,
                i >= 1 ==> s.history@.len() >= 1 && s.history@[0].name == EntryType::RsCell && 1
                    <= s.cells@[0].num <= 9 && s.cells@[0].solved,
                i >= 1 ==> hidden_single::hidden_stalled(s.cells@) && (forall|
                    b2: int,
                    x2: int,
                    y2: int,
                    d: int,
                |
                    0 <= b2 < 6 && 0 <= x2 < 3 && 0 <= y2 < 3 ==> !(
                    #[trigger] intersection_removal::intersection_applies(s.cells@, b2, x2, y2, d))),
            decreases 81 - i,
        {
            let ghost before = s;
            if !s.cells[i].is_solved() {
                let ghost mid0 = s.cells@;
                s.rs_cell(i);
                let ghost mid1 = s;
                s.solve();
                proof {
                    assert forall|k: int| 0 <= k <= i implies (#[trigger] s.cells@[k]).solved by {
                        assert(cell_monotone(mid1.cells@[k], s.cells@[k]));
                        if k < i {
                            assert(mid1.cells@[k] == mid0[k]);
                        }
                    }
                    if i == 0 {
                        assert(mid1.history@.len() == 1);
                        assert(mid1.history@[0].name == EntryType::RsCell);
                        assert(mid1.history@.is_prefix_of(s.history@));
                        assert(s.history@[0] == mid1.history@[0]);
                        assert(1 <= mid1.cells@[0].num <= 9);
                        assert(cell_monotone(mid1.cells@[0], s.cells@[0]));
                    } else {
                        assert(before.history@.is_prefix_of(mid1.history@));
                        assert(mid1.history@.is_prefix_of(s.history@));
                        assert(s.history@[0] == before.history@[0]);
                        assert(cell_monotone(before.cells@[0], s.cells@[0]));
                    }
                }
            }
            i = i + 1;
        }
        s
    }

    /// Generates a board like `fill_incremental`, but visits the cells in a
    /// random order, drawn without replacement from a shrinking pool; every
    /// cell still ends committed, whatever the draws.
    pub fn fill_random() -> (s: Sudoku)
        ensures
            s.wf(),
            s.stack_empty(),
            s.all_solved(),
            s.solved_all_checked(),
            s.propagated(),
            s.no_naked_single(),
            hidden_single::hidden_stalled(s.cells@),
            forall|b2: int, x2: int, y2: int, d: int|
                0 <= b2 < 6 && 0 <= x2 < 3 && 0 <= y2 < 3 ==> !(
                #[trigger] intersection_removal::intersection_applies(s.cells@, b2, x2, y2, d)),
            s.sums_match(),
            s.sums_over(),
            s.history@.len() >= 1,
            s.history@[0].name == EntryType::RsCell,
    {
        let mut s = Self::new();
        let mut cell_pool: Vec<usize> = Vec::new();
        let mut i: usize = 0;
        while i < 81
            invariant
                i <= 81,
                cell_pool@.len() == i,
                forall|k: int| 0 <= k < i ==> (#[trigger] cell_pool@[k]) == k,
            decreases 81 - i,
        {
            cell_pool.push(i);
            i = i + 1;
        }
        proof {
            assert forall|k: int|
                0 <= k < 81 && !(#[trigger] s.cells@[k]).solved implies cell_pool@.contains(
                k as usize,
            ) by {
                assert(cell_pool@[k] == k as usize);
            }
        }
        while cell_pool.len() > 0
            invariant
                s.wf(),
                s.stack_empty(),
                s.propagated(),
                s.solved_all_checked(),
                s.no_naked_single(),
                s.sums_match(),
                s.sums_over(),
                cell_pool@.len() <= 81,
                forall|k: int| 0 <= k < cell_pool@.len() ==> (#[trigger] cell_pool@[k]) < 81,
                forall|k: int|
                    0 <= k < 81 && !(#[trigger] s.cells@[k]).solved ==> cell_pool@.contains(
                        k as usize,
                    ),
                cell_pool@.len() == 81 ==> s.history@.len() == 0 && (forall|k: int|
                    0 <= k < 81 ==> !(#[trigger] s.cells@[k]).solved),
                cell_pool@.len() < 81 ==> s.history@.len() >= 1 && s.history@[0].name
                    == EntryType::RsCell && hidden_single::hidden_stalled(s.cells@) && (forall|
                    b2: int,
                    x2: int,
                    y2: int,
                    d: int,
                |
                    0 <= b2 < 6 && 0 <= x2 < 3 && 0 <= y2 < 3 ==> !(
                    #[trigger] intersection_removal::intersection_applies(s.cells@, b2, x2, y2, d))),
            decreases cell_pool@.len(),
        {
            let i = crate::rng::random_below(cell_pool.len());
            let cid = cell_pool[i];
            let ghost pool_before = cell_pool@;
            let ghost cells_before = s.cells@;
            let ghost s_before = s;
            if !s.cells[cid].is_solved() {
                s.rs_cell(cid);
                let ghost s_mid = s;
                s.solve();
                proof {
                    assert(cell_monotone(s_mid.cells@[cid as int], s.cells@[cid as int]));
                    if pool_before.len() == 81 {
                        assert(s_mid.history@.len() == 1);
                        assert(s_mid.history@[0].name == EntryType::RsCell);
                        assert(s_mid.history@.is_prefix_of(s.history@));
                        assert(s.history@[0] == s_mid.history@[0]);
                    } else {
                        assert(s_before.history@.len() >= 1);
                        assert(s_before.history@.is_prefix_of(s_mid.history@));
                        assert(s_mid.history@.is_prefix_of(s.history@));
                        assert(s_mid.history@[0] == s_before.history@[0]);
                        assert(s.history@[0] == s_mid.history@[0]);
                    }
                }
            } else {
                proof {
                    assert(pool_before.len() < 81);
                }
            }
            cell_pool.swap_remove(i);
            proof {
                assert(s.cells@[cid as int].solved);
                assert forall|k: int|
                    0 <= k < 81 && !(#[trigger] s.cells@[k]).solved implies cell_pool@.contains(
                    k as usize,
                ) by {
                    assert(cell_monotone(cells_before[k], s.cells@[k]));
                    assert(!cells_before[k].solved);
                    assert(pool_before.contains(k as usize));
                    let p = choose|p: int| 0 <= p < pool_before.len() && pool_before[p] == k;
                    assert(k != cid as int);
                    assert(p != i as int);
                    if p < pool_before.len() - 1 {
                        assert(cell_pool@[p] == pool_before[p]);
                    } else {
                        assert(cell_pool@[i as int] == pool_before[pool_before.len() - 1]);
                    }
                }
            }
        }
        proof {
            assert forall|k: int| 0 <= k < 81 implies (#[trigger] s.cells@[k]).solved by {
                if !s.cells@[k].solved {
                    assert(cell_pool@.contains(k as usize));
                }
            }
        }
        s
    }
}

/// One log is an unbroken extension of another, transitively.
pub proof fn lemma_prefix_trans<T>(a: Seq<T>, b: Seq<T>, c: Seq<T>)
    requires
        a.is_prefix_of(b),
        b.is_prefix_of(c),
    ensures
        a.is_prefix_of(c),
{
    assert(a =~= c.subrange(0, a.len() as int));
}

/// Number of unsolved cells among the first `i`.
pub open spec fn unsolved_to(s: Seq<Cell>, i: int) -> nat
    decreases i,
{
    if i <= 0 {
        0
    } else {
        unsolved_to(s, i - 1) + (if s[i - 1].solved {
            0nat
        } else {
            1nat
        })
    }
}

/// The termination measure splits into the candidate total and the number
/// of unsolved cells; for a rule that never solves a cell, a strict drop in
/// the measure is therefore a strict drop in the candidate total itself.
pub proof fn lemma_pot_splits(s: Seq<Cell>, n: int)
    ensures
        pot_to(s, n) == cands_to(s, n) + unsolved_to(s, n),
    decreases n,
{
    if n > 0 {
        lemma_pot_splits(s, n - 1);
    }
}

/// The peer-propagation invariant survives any rule that only removes
/// candidates or commits cells without touching the propagation flags.
pub proof fn lemma_propagated_preserved(a: Sudoku, b: Sudoku)
    requires
        a.wf(),
        a.propagated(),
        board_monotone(a.cells@, b.cells@),
        b.solved_cell_checked@ == a.solved_cell_checked@,
    ensures
        b.propagated(),
{
    assert forall|i: int, j: int|
        0 <= i < 81 && 0 <= j < 81 && (#[trigger] b.cells@[i]).solved && b.solved_cell_checked@[i]
            && b.cells@[i].num != 0 && crate::index_manip::peers(i, j) && !(
        #[trigger] b.cells@[j]).solved implies !b.cells@[j].has(b.cells@[i].num as int) by {
        assert(a.cells@[i].solved);
        assert(cell_monotone(a.cells@[i], b.cells@[i]));
        assert(cell_monotone(a.cells@[j], b.cells@[j]));
        assert(!a.cells@[j].solved);
        assert(!a.cells@[j].has(a.cells@[i].num as int));
    }
}

/// Monotonic elimination: under the deduction rules' pointwise monotone
/// evolution, the total candidate count over the board never increases.
/// Each rule's contract supplies `board_monotone` between its pre- and
/// post-state, and the strictly shrinking `potential` whenever it reports a
/// mutation.
pub proof fn lemma_monotone_elimination(a: Seq<Cell>, b: Seq<Cell>, n: int)
    requires
        board_monotone(a, b),
        n <= a.len(),
    ensures
        cands_to(b, n) <= cands_to(a, n),
    decreases n,
{
    if n > 0 {
        lemma_monotone_elimination(a, b, n - 1);
        assert(cell_monotone(a[n - 1], b[n - 1]));
        if !a[n - 1].solved && !b[n - 1].solved {
            crate::cell::lemma_cand_subset(a[n - 1], b[n - 1]);
        }
    }
}

proof fn lemma_ds_mono(cells: Seq<Cell>, si: int, d: int, j: int, j2: int)
    requires
        j <= j2,
    ensures
        ds_to(cells, si, d, j) <= ds_to(cells, si, d, j2),
    decreases j2 - j,
{
    if j < j2 {
        lemma_ds_mono(cells, si, d, j, j2 - 1);
    }
}

proof fn lemma_ds_exists(cells: Seq<Cell>, si: int, d: int, j: int)
    requires
        ds_to(cells, si, d, j) > 0,
    ensures
        exists|k: int| 0 <= k < j && cells[sec_cell(si, k)].has(d),
    decreases j,
{
    if j > 0 {
        if cells[sec_cell(si, j - 1)].has(d) {
            assert(0 <= j - 1 < j && cells[sec_cell(si, j - 1)].has(d));
        } else {
            lemma_ds_exists(cells, si, d, j - 1);
        }
    }
}

proof fn lemma_ds_two(cells: Seq<Cell>, si: int, d: int, j1: int, j2: int)
    requires
        0 <= j1 < j2 < 9,
        cells[sec_cell(si, j1)].has(d),
        cells[sec_cell(si, j2)].has(d),
    ensures
        digit_sum(cells, si, d) >= 2,
{
    lemma_ds_mono(cells, si, d, j1 + 1, j2);
    lemma_ds_mono(cells, si, d, j2 + 1, 9);
    assert(ds_to(cells, si, d, j1 + 1) >= 1);
    assert(ds_to(cells, si, d, j2 + 1) >= ds_to(cells, si, d, j2) + 1);
}

/// Section exclusivity: on a fully solved, valid board, section `si` holds
/// digit `d` in exactly one of its nine member cells.
pub proof fn lemma_section_exclusivity(s: Sudoku, si: int, d: int)
    requires
        s.wf(),
        s.all_solved(),
        s.spec_valid(),
        0 <= si < 27,
        1 <= d <= 9,
    ensures
        exists|j: int| 0 <= j < 9 && #[trigger] s.cells@[sec_cell(si, j)].has(d),
        forall|j1: int, j2: int|
            0 <= j1 < 9 && 0 <= j2 < 9 && #[trigger] s.cells@[sec_cell(si, j1)].has(d)
                && #[trigger] s.cells@[sec_cell(si, j2)].has(d) ==> j1 == j2,
{
    assert(digit_sum(s.cells@, si, d) == 1);
    lemma_ds_exists(s.cells@, si, d, 9);
    let k0 = choose|k: int| 0 <= k < 9 && s.cells@[sec_cell(si, k)].has(d);
    assert(0 <= k0 < 9 && s.cells@[sec_cell(si, k0)].has(d));
    assert forall|j1: int, j2: int|
        0 <= j1 < 9 && 0 <= j2 < 9 && #[trigger] s.cells@[sec_cell(si, j1)].has(d)
            && #[trigger] s.cells@[sec_cell(si, j2)].has(d) implies j1 == j2 by {
        if j1 < j2 {
            lemma_ds_two(s.cells@, si, d, j1, j2);
        } else if j2 < j1 {
            lemma_ds_two(s.cells@, si, d, j2, j1);
        }
    }
}

/// A digit occurs in a prefix of a section at most once per member.
pub proof fn lemma_ds_le(cells: Seq<Cell>, si: int, d: int, j: int)
    ensures
        ds_to(cells, si, d, j) <= (if j >= 0 {
            j
        } else {
            0
        }),
    decreases j,
{
    if j > 0 {
        lemma_ds_le(cells, si, d, j - 1);
    }
}

/// At most `d` digits can occur more than once.
pub proof fn lemma_over_le(cells: Seq<Cell>, si: int, d: int)
    ensures
        over_to(cells, si, d) <= (if d >= 0 {
            d
        } else {
            0
        }),
    decreases d,
{
    if d > 0 {
        lemma_over_le(cells, si, d - 1);
    }
}

} // verus!
