//! Solved-cell propagation: a committed value is removed from the
//! candidates of every peer (row, column and box), once per solved cell.
//! This rule never reports a mutation; whatever it uncovers is picked up by
//! the rules that run after it.

use crate::cell::Cell;
use crate::history::EntryType;
use crate::index_manip::{
    box_of, col_of, lemma_cell_in_sections, lemma_sec_cell_coord, peers, row_of, sec_cell,
    spec_box_of, spec_col_of, spec_row_of,
};
use crate::sudoku::{
    board_monotone, cell_monotone, lemma_board_monotone_step, lemma_pot_update, pot_to, Sudoku,
};
use vstd::prelude::*;

verus! {

/// The board position `c`, if unsolved, no longer carries `rm`.
pub open spec fn peer_clean(cur: Seq<Cell>, c: int, rm: int) -> bool {
    0 <= c < 81 ==> (!cur[c].solved ==> !cur[c].has(rm))
}

/// Every solved-and-unchecked cell among the first `n` has had its value
/// stripped from all its unsolved peers on the board `cur`.
pub open spec fn propagated_upto(
    base: Seq<Cell>,
    checked: Seq<bool>,
    cur: Seq<Cell>,
    n: int,
) -> bool {
    forall|i2: int, j2: int|
        0 <= i2 < n && 0 <= j2 < 81 && (#[trigger] base[i2]).solved && !checked[i2] && base[i2].num
            != 0 && peers(i2, j2) && !(#[trigger] cur[j2]).solved ==> !cur[j2].has(
            base[i2].num as int,
        )
}

// A peer update (one digit stripped from one unsolved cell, or nothing)
// keeps every cleaned position clean and every propagated prefix propagated.
proof fn lemma_clean_preserved(
    base: Seq<Cell>,
    checked: Seq<bool>,
    pre: Seq<Cell>,
    post: Seq<Cell>,
    c: int,
    rm0: int,
    n: int,
)
    requires
        pre.len() == 81,
        post.len() == 81,
        0 <= c < 81,
        forall|k: int| 0 <= k < 81 && k != c ==> #[trigger] post[k] == pre[k],
        pre[c].solved ==> post[c] == pre[c],
        !pre[c].solved ==> (forall|d: int| #[trigger] post[c].has(d) == (pre[c].has(d) && d
            != rm0)),
        forall|k: int| 0 <= k < 81 ==> (#[trigger] post[k]).solved == pre[k].solved,
        propagated_upto(base, checked, pre, n),
    ensures
        forall|x: int, rm: int| #[trigger] peer_clean(pre, x, rm) ==> peer_clean(post, x, rm),
        propagated_upto(base, checked, post, n),
{
    assert forall|x: int, rm: int| #[trigger] peer_clean(pre, x, rm) implies peer_clean(
        post,
        x,
        rm,
    ) by {
        if 0 <= x < 81 && !post[x].solved {
            if x == c {
                assert(!pre[c].solved);
                assert(post[c].has(rm) == (pre[c].has(rm) && rm != rm0));
            }
        }
    }
    assert forall|i2: int, j2: int|
        0 <= i2 < n && 0 <= j2 < 81 && (#[trigger] base[i2]).solved && !checked[i2] && base[i2].num
            != 0 && peers(i2, j2) && !(#[trigger] post[j2]).solved implies !post[j2].has(
        base[i2].num as int,
    ) by {
        assert(!pre[j2].solved);
        assert(!pre[j2].has(base[i2].num as int));
        if j2 == c {
            assert(post[c].has(base[i2].num as int) == (pre[c].has(base[i2].num as int)
                && base[i2].num as int != rm0));
        }
    }
}

/// What justifies dropping digit `d` from cell `i`: a peer of `i` is
/// committed to `d`.
pub open spec fn removal_justified(base: Seq<Cell>, i: int, d: int) -> bool {
    exists|j: int|
        0 <= j < 81 && peers(j, i) && (#[trigger] base[j]).solved && base[j].num == d
}

// Pushes the justification invariant across one peer update: the update
// either leaves the cell alone or strips exactly the solved value `rm` of
// the committed cell `i`.
proof fn lemma_removal_step(base: Seq<Cell>, pre: Seq<Cell>, post: Seq<Cell>, c: int, i: int, rm: int)
    requires
        base.len() == 81,
        pre.len() == 81,
        post.len() == 81,
        0 <= c < 81,
        0 <= i < 81,
        1 <= rm <= 9,
        forall|i2: int, d: int|
            0 <= i2 < 81 && (#[trigger] base[i2].has(d)) && !(#[trigger] pre[i2].has(d))
                ==> removal_justified(base, i2, d),
        forall|k: int| 0 <= k < 81 && k != c ==> #[trigger] post[k] == pre[k],
        pre[c].solved ==> post[c] == pre[c],
        !pre[c].solved ==> (forall|d: int|
            #[trigger] post[c].has(d) == (pre[c].has(d) && d != rm)),
        base[i].solved,
        base[i].num == rm,
        peers(c, i) || c == i,
        board_monotone(base, pre),
    ensures
        forall|i2: int, d: int|
            0 <= i2 < 81 && (#[trigger] base[i2].has(d)) && !(#[trigger] post[i2].has(d))
                ==> removal_justified(base, i2, d),
{
    assert forall|i2: int, d: int|
        0 <= i2 < 81 && (#[trigger] base[i2].has(d)) && !(#[trigger] post[i2].has(d)) implies
        removal_justified(base, i2, d) by {
        if pre[i2].has(d) {
            if i2 != c {
                assert(post[i2] == pre[i2]);
                assert(false);
            }
            if pre[c].solved {
                assert(post[c] == pre[c]);
                assert(false);
            }
            assert(post[c].has(d) == (pre[c].has(d) && d != rm));
            assert(d == rm);
            if c == i {
                assert(base[i].solved);
                assert(cell_monotone(base[c], pre[c]));
                assert(false);
            }
            assert(peers(c, i));
            assert(peers(i, c));
            assert(base[i].solved && base[i].num == d);
        }
    }
}

impl Sudoku {
    /// Propagates every not-yet-checked solved cell's value away from its
    /// peers and marks the cell checked. Always reports "no mutation", by
    /// design: it runs first and its effects are found by the later rules.
    pub fn cell_solved(&mut self) -> (r: bool)
        requires
            old(self).wf(),
            old(self).stack_empty(),
        ensures
            r == false,
            final(self).wf(),
            final(self).stack_empty(),
            final(self).sections == old(self).sections,
            final(self).section_digit_sum == old(self).section_digit_sum,
            old(self).history@.is_prefix_of(final(self).history@),
            forall|k: int|
                old(self).history@.len() <= k < final(self).history@.len()
                    ==> (#[trigger] final(self).history@[k]).name == EntryType::CellSolved
                    && final(self).history@[k].cells@.len() == 1,
            board_monotone(old(self).cells@, final(self).cells@),
            final(self).potential() <= old(self).potential(),
            forall|i: int|
                0 <= i < 81 ==> (#[trigger] final(self).cells@[i]).solved == old(self).cells@[
                    i
                ].solved,
            forall|i: int|
                0 <= i < 81 && (#[trigger] old(self).solved_cell_checked@[i])
                    ==> final(self).solved_cell_checked@[i],
            final(self).solved_all_checked(),
            old(self).solved_all_checked() ==> *final(self) == *old(self),
            forall|i: int, d: int|
                0 <= i < 81 && (#[trigger] old(self).cells@[i].has(d))
                    && !(#[trigger] final(self).cells@[i].has(d)) ==> removal_justified(
                    old(self).cells@,
                    i,
                    d,
                ),
            propagated_upto(
                old(self).cells@,
                old(self).solved_cell_checked@,
                final(self).cells@,
                81,
            ),
            old(self).propagated() ==> final(self).propagated(),
    {
        let mut i: usize = 0;
        while i < 81
            invariant
                i <= 81,
                self.wf(),
                self.stack_empty(),
                self.sections == old(self).sections,
                self.section_digit_sum == old(self).section_digit_sum,
                old(self).history@.is_prefix_of(self.history@),
                forall|k: int|
                    old(self).history@.len() <= k < self.history@.len()
                        ==> (#[trigger] self.history@[k]).name == EntryType::CellSolved
                        && self.history@[k].cells@.len() == 1,
                board_monotone(old(self).cells@, self.cells@),
                pot_to(self.cells@, 81) <= pot_to(old(self).cells@, 81),
                forall|k: int|
                    0 <= k < 81 ==> (#[trigger] self.cells@[k]).solved == old(self).cells@[
                        k
                    ].solved,
                forall|k: int|
                    0 <= k < 81 && (#[trigger] old(self).solved_cell_checked@[k]) ==> self.solved_cell_checked@[k],
                forall|k: int|
                    0 <= k < i && (#[trigger] self.cells@[k]).solved ==> self.solved_cell_checked@[k],
                old(self).solved_all_checked() ==> *self == *old(self),
                forall|i2: int, d: int|
                    0 <= i2 < 81 && (#[trigger] old(self).cells@[i2].has(d))
                        && !(#[trigger] self.cells@[i2].has(d)) ==> removal_justified(
                        old(self).cells@,
                        i2,
                        d,
                    ),
                forall|k: int|
                    i <= k < 81 ==> #[trigger] self.solved_cell_checked@[k] == old(
                        self,
                    ).solved_cell_checked@[k],
                propagated_upto(
                    old(self).cells@,
                    old(self).solved_cell_checked@,
                    self.cells@,
                    i as int,
                ),
            decreases 81 - i,
        {
            if !self.solved_cell_checked[i] && self.cells[i].is_solved() {
                self.solved_cell_checked[i] = true;
                let to_remove = self.cells[i].get_number();
                if to_remove != 0 {
                    proof {
                        assert(!old(self).solved_all_checked());
                        assert(cell_monotone(old(self).cells@[i as int], self.cells@[i as int]));
                        assert(old(self).cells@[i as int].solved);
                        assert(old(self).cells@[i as int].num == to_remove);
                    }
                    let irow = row_of(i);
                    let icol = col_of(i);
                    let ibox = box_of(i);
                    let mut j: usize = 0;
                    while j < 9
                        invariant
                            j <= 9,
                            i < 81,
                            irow < 9,
                            icol < 9,
                            ibox < 9,
                            1 <= to_remove <= 9,
                            self.wf(),
                            self.sections == old(self).sections,
                            self.section_digit_sum == old(self).section_digit_sum,
                            old(self).history@.is_prefix_of(self.history@),
                            forall|k: int|
                                old(self).history@.len() <= k < self.history@.len()
                                    ==> (#[trigger] self.history@[k]).name == EntryType::CellSolved
                                    && self.history@[k].cells@.len() == 1,
                            !old(self).solved_all_checked(),
                            self.solved_cell_checked@.len() == 81,
                            board_monotone(old(self).cells@, self.cells@),
                            pot_to(self.cells@, 81) <= pot_to(old(self).cells@, 81),
                            forall|k: int|
                                0 <= k < 81 ==> (#[trigger] self.cells@[k]).solved == old(
                                    self,
                                ).cells@[k].solved,
                            forall|k: int|
                                0 <= k < 81 && (#[trigger] old(self).solved_cell_checked@[k])
                                    ==> self.solved_cell_checked@[k],
                            forall|k: int|
                                0 <= k <= i && (#[trigger] self.cells@[k]).solved
                                    ==> self.solved_cell_checked@[k],
                            old(self).cells@[i as int].solved,
                            old(self).cells@[i as int].num == to_remove,
                            irow == spec_row_of(i as int),
                            icol == spec_col_of(i as int),
                            ibox == spec_box_of(i as int),
                            forall|i2: int, d: int|
                                0 <= i2 < 81 && (#[trigger] old(self).cells@[i2].has(d))
                                    && !(#[trigger] self.cells@[i2].has(d)) ==> removal_justified(
                                    old(self).cells@,
                                    i2,
                                    d,
                                ),
                            forall|k: int|
                                i <= k < 81 ==> #[trigger] self.solved_cell_checked@[k] == old(
                                    self,
                                ).solved_cell_checked@[k] || k == i,
                            propagated_upto(
                                old(self).cells@,
                                old(self).solved_cell_checked@,
                                self.cells@,
                                i as int,
                            ),
                            forall|jj: int|
                                #![trigger sec_cell(irow as int, jj)]
                                0 <= jj < j ==> peer_clean(
                                    self.cells@,
                                    sec_cell(irow as int, jj),
                                    to_remove as int,
                                ),
                            forall|jj: int|
                                #![trigger sec_cell(9 + icol as int, jj)]
                                0 <= jj < j ==> peer_clean(
                                    self.cells@,
                                    sec_cell(9 + icol as int, jj),
                                    to_remove as int,
                                ),
                            forall|jj: int|
                                #![trigger sec_cell(18 + ibox as int, jj)]
                                0 <= jj < j ==> peer_clean(
                                    self.cells@,
                                    sec_cell(18 + ibox as int, jj),
                                    to_remove as int,
                                ),
                        decreases 9 - j,
                    {
                        let c1 = self.sections[irow][j];
                        let c2 = self.sections[9 + icol][j];
                        let c3 = self.sections[18 + ibox][j];
                        let ghost b0 = self.cells@;
                        self.remove_from_peer(c1, to_remove);
                        proof {
                            crate::sudoku::lemma_board_monotone_trans(
                                old(self).cells@,
                                b0,
                                self.cells@,
                            );
                            lemma_sec_cell_coord(irow as int, j as int);
                            assert(c1 == sec_cell(irow as int, j as int));
                            assert(c1 as int == i as int || peers(c1 as int, i as int));
                            lemma_removal_step(
                                old(self).cells@,
                                b0,
                                self.cells@,
                                c1 as int,
                                i as int,
                                to_remove as int,
                            );
                            lemma_clean_preserved(
                                old(self).cells@,
                                old(self).solved_cell_checked@,
                                b0,
                                self.cells@,
                                c1 as int,
                                to_remove as int,
                                i as int,
                            );
                            assert(peer_clean(self.cells@, c1 as int, to_remove as int));
                        }
                        let ghost b1 = self.cells@;
                        self.remove_from_peer(c2, to_remove);
                        proof {
                            crate::sudoku::lemma_board_monotone_trans(
                                old(self).cells@,
                                b1,
                                self.cells@,
                            );
                            lemma_sec_cell_coord(9 + icol as int, j as int);
                            assert(c2 == sec_cell(9 + icol as int, j as int));
                            assert(c2 as int == i as int || peers(c2 as int, i as int));
                            lemma_removal_step(
                                old(self).cells@,
                                b1,
                                self.cells@,
                                c2 as int,
                                i as int,
                                to_remove as int,
                            );
                            lemma_clean_preserved(
                                old(self).cells@,
                                old(self).solved_cell_checked@,
                                b1,
                                self.cells@,
                                c2 as int,
                                to_remove as int,
                                i as int,
                            );
                            assert(peer_clean(self.cells@, c1 as int, to_remove as int));
                            assert(peer_clean(self.cells@, c2 as int, to_remove as int));
                        }
                        let ghost b2 = self.cells@;
                        self.remove_from_peer(c3, to_remove);
                        proof {
                            crate::sudoku::lemma_board_monotone_trans(
                                old(self).cells@,
                                b2,
                                self.cells@,
                            );
                            lemma_sec_cell_coord(18 + ibox as int, j as int);
                            assert(c3 == sec_cell(18 + ibox as int, j as int));
                            assert(c3 as int == i as int || peers(c3 as int, i as int));
                            lemma_removal_step(
                                old(self).cells@,
                                b2,
                                self.cells@,
                                c3 as int,
                                i as int,
                                to_remove as int,
                            );
                            lemma_clean_preserved(
                                old(self).cells@,
                                old(self).solved_cell_checked@,
                                b2,
                                self.cells@,
                                c3 as int,
                                to_remove as int,
                                i as int,
                            );
                            assert(peer_clean(self.cells@, c1 as int, to_remove as int));
                            assert(peer_clean(self.cells@, c2 as int, to_remove as int));
                            assert(peer_clean(self.cells@, c3 as int, to_remove as int));
                        }
                        j = j + 1;
                    }
                    proof {
                        assert forall|j2: int|
                            0 <= j2 < 81 && peers(i as int, j2) && !(#[trigger] self.cells@[j2]).solved implies !self.cells@[j2].has(
                            to_remove as int,
                        ) by {
                            lemma_cell_in_sections(j2);
                            if spec_row_of(j2) == irow {
                                assert(peer_clean(
                                    self.cells@,
                                    sec_cell(irow as int, spec_col_of(j2)),
                                    to_remove as int,
                                ));
                            } else if spec_col_of(j2) == icol {
                                assert(peer_clean(
                                    self.cells@,
                                    sec_cell(9 + icol as int, spec_row_of(j2)),
                                    to_remove as int,
                                ));
                            } else {
                                assert(spec_box_of(j2) == ibox);
                                assert(peer_clean(
                                    self.cells@,
                                    sec_cell(
                                        18 + ibox as int,
                                        (spec_row_of(j2) % 3) * 3 + spec_col_of(j2) % 3,
                                    ),
                                    to_remove as int,
                                ));
                            }
                        }
                        assert(propagated_upto(
                            old(self).cells@,
                            old(self).solved_cell_checked@,
                            self.cells@,
                            i as int + 1,
                        ));
                    }
                    let mut digit = Cell::acc();
                    digit.add_digit(to_remove);
                    let mut hv: Vec<usize> = Vec::new();
                    hv.push(i);
                    let ghost pre_log = self.history@;
                    let logged = self.add_history_entry_if_changes(EntryType::CellSolved, hv, digit);
                    proof {
                        assert forall|k: int|
                            old(self).history@.len() <= k < self.history@.len() implies (
                        #[trigger] self.history@[k]).name == EntryType::CellSolved
                            && self.history@[k].cells@.len() == 1 by {
                            if logged && k == self.history@.len() - 1 {
                                assert(self.history@[k] == self.history@.last());
                                assert(self.history@.last().cells@.len() == 1);
                            } else {
                                assert(self.history@[k] == pre_log[k]);
                            }
                        }
                    }
                } else {
                    proof {
                        assert(cell_monotone(old(self).cells@[i as int], self.cells@[i as int]));
                        assert(old(self).cells@[i as int].num == 0);
                        assert(propagated_upto(
                            old(self).cells@,
                            old(self).solved_cell_checked@,
                            self.cells@,
                            i as int + 1,
                        ));
                    }
                }
            } else {
                proof {
                    assert(self.solved_cell_checked@[i as int] == old(
                        self,
                    ).solved_cell_checked@[i as int]);
                    assert(propagated_upto(
                        old(self).cells@,
                        old(self).solved_cell_checked@,
                        self.cells@,
                        i as int + 1,
                    ));
                }
            }
            i = i + 1;
        }
        proof {
            if old(self).propagated() {
                assert forall|i2: int, j2: int|
                    0 <= i2 < 81 && 0 <= j2 < 81 && (#[trigger] self.cells@[i2]).solved
                        && self.solved_cell_checked@[i2] && self.cells@[i2].num != 0 && peers(
                        i2,
                        j2,
                    ) && !(#[trigger] self.cells@[j2]).solved implies !self.cells@[j2].has(
                    self.cells@[i2].num as int,
                ) by {
                    assert(old(self).cells@[i2].solved);
                    assert(cell_monotone(old(self).cells@[i2], self.cells@[i2]));
                    assert(cell_monotone(old(self).cells@[j2], self.cells@[j2]));
                    assert(!old(self).cells@[j2].solved);
                    if old(self).solved_cell_checked@[i2] {
                        assert(!old(self).cells@[j2].has(old(self).cells@[i2].num as int));
                    }
                }
            }
        }
        false
    }

    // Removes one digit from the cell at `c`, registering the change when
    // it did anything; a solved peer is left alone.
    fn remove_from_peer(&mut self, c: usize, to_remove: u16)
        requires
            old(self).wf(),
            c < 81,
            1 <= to_remove <= 9,
        ensures
            final(self).wf(),
            final(self).sections == old(self).sections,
            final(self).section_digit_sum == old(self).section_digit_sum,
            final(self).history == old(self).history,
            final(self).solved_cell_checked == old(self).solved_cell_checked,
            board_monotone(old(self).cells@, final(self).cells@),
            pot_to(final(self).cells@, 81) <= pot_to(old(self).cells@, 81),
            forall|k: int|
                0 <= k < 81 ==> (#[trigger] final(self).cells@[k]).solved == old(self).cells@[
                    k
                ].solved,
            forall|k: int|
                0 <= k < 81 && k != c ==> #[trigger] final(self).cells@[k] == old(self).cells@[k],
            old(self).cells@[c as int].solved ==> final(self).cells@[c as int] == old(
                self,
            ).cells@[c as int],
            !old(self).cells@[c as int].solved ==> (forall|d: int|
                #[trigger] final(self).cells@[c as int].has(d) == (old(self).cells@[c as int].has(
                    d,
                ) && d != to_remove as int)),
    {
        proof {
            crate::sudoku::lemma_board_monotone_refl(self.cells@);
        }
        let mut cell = self.cells[c];
        proof {
            crate::cell::lemma_counted_on(cell);
        }
        let ch = cell.remove_digit(to_remove);
        if ch {
            let ghost pre = self.cells@;
            self.cells[c] = cell;
            proof {
                assert(cell_monotone(pre[c as int], cell));
                lemma_board_monotone_step(pre, pre, c as int, cell);
                lemma_pot_update(pre, c as int, cell, 81);
            }
            self.register_change(c);
        }
    }
}

} // verus!
