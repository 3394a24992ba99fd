//! Board-level tests: the deduction rules on hand-built scenarios, the
//! fixed-point engine, the generators and the validity check.

use simple_sudoku_generator::cell::Cell;
use simple_sudoku_generator::history::EntryType;
use simple_sudoku_generator::sudoku::Sudoku;

/// A completed, valid grid: cyclic shifts of 1..9 arranged so that every
/// row, column and box holds each digit once.
fn valid_grid() -> Vec<usize> {
    let base: [[usize; 9]; 9] = [
        [1, 2, 3, 4, 5, 6, 7, 8, 9],
        [4, 5, 6, 7, 8, 9, 1, 2, 3],
        [7, 8, 9, 1, 2, 3, 4, 5, 6],
        [2, 3, 4, 5, 6, 7, 8, 9, 1],
        [5, 6, 7, 8, 9, 1, 2, 3, 4],
        [8, 9, 1, 2, 3, 4, 5, 6, 7],
        [3, 4, 5, 6, 7, 8, 9, 1, 2],
        [6, 7, 8, 9, 1, 2, 3, 4, 5],
        [9, 1, 2, 3, 4, 5, 6, 7, 8],
    ];
    let mut v = Vec::new();
    for row in base.iter() {
        for &x in row.iter() {
            v.push(x);
        }
    }
    v
}

/// Total candidate count over the unsolved cells.
fn total_candidates(s: &Sudoku) -> u32 {
    let mut t = 0u32;
    for i in 0..81 {
        if !s.cells[i].is_solved() {
            t += s.cells[i].get_count() as u32;
        }
    }
    t
}

/// A cheap fingerprint of the whole board state.
fn snapshot(s: &Sudoku) -> Vec<(bool, u16, u16)> {
    let mut v = Vec::new();
    for i in 0..81 {
        v.push((s.cells[i].is_solved(), s.cells[i].get_digits(), s.cells[i].get_number()));
    }
    v
}

#[test]
fn new_board_is_fully_open() {
    let s = Sudoku::new();
    assert!(!s.is_solved());
    assert!(s.history.is_empty());
    for i in 0..81 {
        assert!(!s.cells[i].is_solved());
        assert_eq!(s.cells[i].get_count(), 9);
    }
    // the fresh digit counts show every digit nine times per section
    for si in 0..27 {
        for d in 1..=9 {
            assert_eq!(s.section_digit_sum[si][d], 9);
        }
        assert_eq!(s.section_digit_sum[si][0], 9);
    }
}

#[test]
fn from_solutions_seeds_the_given_values() {
    let mut grid = valid_grid();
    grid[80] = 0;
    let s = Sudoku::from_solutions(&grid);
    assert!(s.cells[0].is_solved());
    assert_eq!(s.cells[0].get_number(), 1);
    assert!(!s.cells[80].is_solved());
    assert_eq!(s.cells[80].get_count(), 9);
}

#[test]
fn valid_grid_passes_the_validity_check() {
    let mut s = Sudoku::from_solutions(&valid_grid());
    s.solve();
    assert!(s.is_solved());
    assert!(s.is_valid());
    let st = s.get_section_status();
    assert_eq!(st.len(), 27);
    assert!(st.iter().all(|&b| b));
}

#[test]
fn corrupted_grid_fails_the_validity_check() {
    let mut grid = valid_grid();
    // a duplicate 2 in column 0 (and a duplicate in row 0 as well)
    grid[0] = 2;
    let mut s = Sudoku::from_solutions(&grid);
    s.solve();
    assert!(s.is_solved());
    assert!(!s.is_valid());
    let st = s.get_section_status();
    let bad: Vec<usize> = (0..27).filter(|&si| !st[si]).collect();
    assert!(!bad.is_empty());
    // every offending section shows some digit with a count other than one
    for si in bad {
        assert!((1..=9).any(|d| s.section_digit_sum[si][d] != 1));
    }
}

#[test]
fn naked_single_commits_the_last_candidate() {
    let mut s = Sudoku::new();
    for d in [1u16, 2, 3, 4, 6, 7, 8, 9] {
        s.cells[0].remove_digit(d);
    }
    assert!(s.naked_single());
    assert!(s.cells[0].is_solved());
    assert_eq!(s.cells[0].get_number(), 5);
    assert_eq!(s.history.len(), 1);
    assert_eq!(s.history[0].name, EntryType::NakedSingle);
}

#[test]
fn naked_single_tolerates_an_empty_cell() {
    let mut s = Sudoku::new();
    for d in 1..=9u16 {
        s.cells[7].remove_digit(d);
    }
    assert!(s.naked_single());
    assert!(s.cells[7].is_solved());
    assert_eq!(s.cells[7].get_number(), 0);
}

#[test]
fn hidden_single_commits_the_only_home() {
    let mut s = Sudoku::new();
    // digit 7 survives only in cell 0 of row 0; cell 0 keeps other digits too
    for i in 1..9 {
        s.cells[i].remove_digit(7);
    }
    s.update_section_digit_sum();
    assert!(s.hidden_single());
    assert!(s.cells[0].is_solved());
    assert_eq!(s.cells[0].get_number(), 7);
}

#[test]
fn cell_solved_propagates_to_peers() {
    let mut s = Sudoku::new();
    s.cells[0].solve_cell(3);
    assert!(!s.cell_solved());
    // row, column and box peers lost the 3
    for &p in [1usize, 8, 9, 72, 10, 20].iter() {
        assert!(!s.cells[p].has_digit(3), "peer {p} still has the digit");
        assert_eq!(s.cells[p].get_count(), 8);
    }
    // an unrelated cell kept it
    assert!(s.cells[40].has_digit(3));
    // a second pass changes nothing further
    let before = snapshot(&s);
    assert!(!s.cell_solved());
    assert_eq!(before, snapshot(&s));
}

#[test]
fn naked_pair_strips_the_rest_of_the_row() {
    let mut s = Sudoku::new();
    // cells 0 and 1 of row 0 both hold exactly {2, 6}
    for c in 0..2 {
        for d in [1u16, 3, 4, 5, 7, 8, 9] {
            s.cells[c].remove_digit(d);
        }
    }
    let before = total_candidates(&s);
    assert!(s.group_removal());
    for c in 2..9 {
        assert!(!s.cells[c].has_digit(2));
        assert!(!s.cells[c].has_digit(6));
        assert_eq!(s.cells[c].get_count(), 7);
    }
    // the pair itself is untouched
    assert!(s.cells[0].has_digit(2) && s.cells[0].has_digit(6));
    assert_eq!(s.cells[0].get_count(), 2);
    // monotonic elimination: a reported mutation strictly shrank the total
    assert!(total_candidates(&s) < before);
    assert_eq!(s.history.last().unwrap().name, EntryType::NakedGroup);
    assert!(!s.history.last().unwrap().changes.is_empty());
}

#[test]
fn pointed_pair_strips_the_rest_of_the_line() {
    let mut s = Sudoku::new();
    // digit 5 in box 0 survives only in its first row (cells 0, 1, 2)
    for &c in [9usize, 10, 11, 18, 19, 20].iter() {
        s.cells[c].remove_digit(5);
    }
    assert!(s.intersection_removal());
    for c in 3..9 {
        assert!(!s.cells[c].has_digit(5), "cell {c} kept the 5");
    }
    assert!(s.cells[0].has_digit(5));
    assert_eq!(s.history.last().unwrap().name, EntryType::PointedGroup);
}

#[test]
fn box_line_reduction_strips_the_rest_of_the_box() {
    let mut s = Sudoku::new();
    // digit 4 in row 0 survives only inside box 0 (cells 0, 1, 2)
    for c in 3..9 {
        s.cells[c].remove_digit(4);
    }
    assert!(s.intersection_removal());
    // the rest of box 0 lost the 4
    for &c in [9usize, 10, 11, 18, 19, 20].iter() {
        assert!(!s.cells[c].has_digit(4), "cell {c} kept the 4");
    }
    assert!(s.cells[0].has_digit(4));
    assert_eq!(s.history.last().unwrap().name, EntryType::BoxLineReduction);
}

#[test]
fn naked_triple_strips_the_rest_of_the_row() {
    let mut s = Sudoku::new();
    // cells 0, 1, 2 hold {1,2}, {2,3} and {1,3}: three cells, three digits
    for d in [3u16, 4, 5, 6, 7, 8, 9] {
        s.cells[0].remove_digit(d);
    }
    for d in [1u16, 4, 5, 6, 7, 8, 9] {
        s.cells[1].remove_digit(d);
    }
    for d in [2u16, 4, 5, 6, 7, 8, 9] {
        s.cells[2].remove_digit(d);
    }
    assert!(s.group_removal());
    for c in 3..9 {
        assert!(!s.cells[c].has_digit(1));
        assert!(!s.cells[c].has_digit(2));
        assert!(!s.cells[c].has_digit(3));
        assert_eq!(s.cells[c].get_count(), 6);
    }
    // the triple itself is untouched
    assert_eq!(s.cells[0].get_count(), 2);
    assert_eq!(s.cells[1].get_count(), 2);
    assert_eq!(s.cells[2].get_count(), 2);
}

#[test]
fn rules_report_nothing_on_a_fresh_board() {
    let mut s = Sudoku::new();
    let before = snapshot(&s);
    assert!(!s.naked_single());
    assert!(!s.hidden_single());
    assert!(!s.intersection_removal());
    assert!(!s.group_removal());
    assert_eq!(before, snapshot(&s));
}

#[test]
fn solve_reaches_a_fixed_point() {
    // idempotence of propagation: an immediate second run changes nothing
    let mut grid = valid_grid();
    for i in 40..81 {
        grid[i] = 0;
    }
    let mut s = Sudoku::from_solutions(&grid);
    s.solve();
    let cells_after = snapshot(&s);
    let history_after = s.history.len();
    s.solve();
    assert_eq!(cells_after, snapshot(&s));
    assert_eq!(history_after, s.history.len());
}

#[test]
fn solve_finishes_an_easy_puzzle() {
    // drop one value from a full grid: propagation restores it
    let mut grid = valid_grid();
    grid[40] = 0;
    let mut s = Sudoku::from_solutions(&grid);
    s.solve();
    assert!(s.is_solved());
    assert_eq!(s.cells[40].get_number(), 9);
    assert!(s.is_valid());
}

#[test]
fn generation_fills_the_board() {
    let s = Sudoku::fill_incremental();
    // the generator visits every cell: each ends committed, to a digit or
    // to 0 where elimination left none
    for i in 0..81 {
        assert!(s.cells[i].is_solved());
    }
    assert!(!s.history.is_empty());
    // the log opens with the generator's first commitment, and cell 0 was
    // committed by it to a real digit
    assert_eq!(s.history[0].name, EntryType::RsCell);
    assert!((1..=9).contains(&s.cells[0].get_number()));
    // every history entry records at least one actual change
    for h in s.history.iter() {
        assert!(!h.changes.is_empty());
    }
    if s.is_solved() {
        let valid = s.is_valid();
        let st = s.get_section_status();
        if !valid {
            // the report names a section whose counts are off
            let bad: Vec<usize> = (0..27).filter(|&si| !st[si]).collect();
            assert!(!bad.is_empty());
            for si in bad {
                assert!((1..=9).any(|d| s.section_digit_sum[si][d] != 1));
            }
        } else {
            assert!(st.iter().all(|&b| b));
        }
    }
}

#[test]
fn random_generation_fills_the_board() {
    let s = Sudoku::fill_random();
    for i in 0..81 {
        assert!(s.cells[i].is_solved());
    }
    if s.is_solved() {
        // exercised for both outcomes; either way the check must not panic
        let _ = s.is_valid();
    }
}

#[test]
fn generation_commonly_solves_the_board() {
    // the common case of incremental generation is a fully solved board;
    // over a few attempts at least one must finish
    let mut any_solved = false;
    for _ in 0..10 {
        let s = Sudoku::fill_incremental();
        if s.is_solved() {
            any_solved = true;
            break;
        }
    }
    assert!(any_solved);
}

#[test]
fn history_records_generator_steps() {
    let mut s = Sudoku::new();
    assert!(!s.has_changes());
    s.register_change(5);
    assert!(s.has_changes());
    let digits = Cell::empty();
    s.add_history_entry(EntryType::NakedSingle, vec![5], digits);
    assert!(!s.has_changes());
    assert_eq!(s.history.len(), 1);
    assert_eq!(s.history[0].cells, vec![5]);
    assert_eq!(s.history[0].changes.len(), 1);
    assert_eq!(s.history[0].changes[0].id, 5);
    assert!(!s.add_history_entry_if_changes(EntryType::NakedSingle, vec![1], digits));
    assert_eq!(s.history.len(), 1);
}

#[test]
fn section_sums_follow_the_cells() {
    let mut s = Sudoku::new();
    s.cells[0].solve_cell(1);
    assert!(!s.cell_solved());
    assert!(!s.update_section_digit_sum());
    // row 0: digit 1 lives only in cell 0 now
    assert_eq!(s.section_digit_sum[0][1], 1);
    // the other digits survived in the other eight cells
    assert_eq!(s.section_digit_sum[0][2], 8);
    // column 0 and box 0 agree
    assert_eq!(s.section_digit_sum[9][1], 1);
    assert_eq!(s.section_digit_sum[18][1], 1);
    // rows crossing column 0 lost one home for the digit as well
    assert_eq!(s.section_digit_sum[4][1], 8);
    // a box that shares no cell with row 0, column 0 or box 0 is untouched
    assert_eq!(s.section_digit_sum[22][1], 9);
}
