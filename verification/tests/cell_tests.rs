//! Unit tests for the candidate-set cell: set algebra, counts and the
//! solved/unsolved duality.

use simple_sudoku_generator::cell::Cell;

/// An unsolved cell holding exactly the given candidates.
fn cell_with(digits: &[u16]) -> Cell {
    let mut c = Cell::full();
    for d in 1..=9u16 {
        if !digits.contains(&d) {
            c.remove_digit(d);
        }
    }
    c
}

#[test]
fn full_cell_holds_all_nine() {
    let c = Cell::full();
    assert!(!c.is_solved());
    assert_eq!(c.get_count(), 9);
    assert_eq!(c.get_digits(), 0b1_1111_1111);
    for d in 1..=9u16 {
        assert!(c.has_digit(d));
    }
    assert_eq!(c.get_number(), 0);
}

#[test]
fn empty_cell_holds_nothing() {
    let c = Cell::empty();
    assert!(!c.is_solved());
    assert_eq!(c.get_count(), 0);
    assert_eq!(c.get_digits(), 0);
    assert!(!c.has_digits());
}

#[test]
fn accumulator_count_is_off() {
    let mut c = Cell::acc();
    assert!(c.count_is_off());
    c.add_digit(3);
    c.add_digit(8);
    assert!(c.count_is_off());
    assert!(c.has_digit(3) && c.has_digit(8));
    c.reset_count();
    assert!(!c.count_is_off());
    assert_eq!(c.get_count(), 2);
}

#[test]
fn add_and_remove_digit_track_count() {
    let mut c = Cell::full();
    assert!(c.remove_digit(4));
    assert_eq!(c.get_count(), 8);
    assert!(!c.has_digit(4));
    // removing an absent digit reports no change
    assert!(!c.remove_digit(4));
    assert_eq!(c.get_count(), 8);
    c.add_digit(4);
    assert_eq!(c.get_count(), 9);
    assert!(c.has_digit(4));
    // adding a present digit changes nothing
    c.add_digit(4);
    assert_eq!(c.get_count(), 9);
}

#[test]
fn get_digits_packs_the_mask() {
    assert_eq!(cell_with(&[1, 2]).get_digits(), 0b11);
    assert_eq!(cell_with(&[9]).get_digits(), 0b1_0000_0000);
    assert_eq!(cell_with(&[2, 6]).get_digits(), 0b0010_0010);
}

#[test]
fn solve_cell_commits_a_value() {
    let mut c = Cell::full();
    c.solve_cell(5);
    assert!(c.is_solved());
    assert_eq!(c.get_number(), 5);
    assert_eq!(c.get_count(), 1);
    assert!(c.has_digit(5));
    for d in 1..=9u16 {
        if d != 5 {
            assert!(!c.has_digit(d));
        }
    }
    // solving again is a no-op
    c.solve_cell(7);
    assert_eq!(c.get_number(), 5);
}

#[test]
fn solve_cell_to_zero_is_allowed() {
    let mut c = cell_with(&[]);
    assert_eq!(c.get_count(), 0);
    c.solve_cell(0);
    assert!(c.is_solved());
    assert_eq!(c.get_number(), 0);
    assert_eq!(c.get_count(), 0);
    assert!(!c.has_digits());
}

#[test]
fn mutators_leave_solved_cells_alone() {
    let mut c = Cell::full();
    c.solve_cell(9);
    c.add_digit(1);
    assert!(!c.has_digit(1));
    assert!(!c.remove_digit(9));
    assert!(c.has_digit(9));
    let mut g = c;
    g.generate_number();
    assert_eq!(g.get_number(), 9);
}

#[test]
fn union_intersect_xor_exact_values() {
    let a = cell_with(&[2, 6]);
    let b = cell_with(&[6, 7]);
    let u = a.union(b);
    assert_eq!(u.get_count(), 3);
    assert!(u.has_digit(2) && u.has_digit(6) && u.has_digit(7));
    let w = a.intersect(b);
    assert_eq!(w.get_count(), 1);
    assert!(w.has_digit(6));
    let x = a.xor(b);
    assert_eq!(x.get_count(), 2);
    assert!(x.has_digit(2) && x.has_digit(7) && !x.has_digit(6));
}

#[test]
fn union_then_intersect_keeps_left_operand() {
    // (a union b) intersect a holds every candidate of a
    let a = cell_with(&[1, 4, 8]);
    let b = cell_with(&[2, 4]);
    let w = a.union(b).intersect(a);
    for d in [1u16, 4, 8] {
        assert!(w.has_digit(d));
    }
    // and an intersection holds no candidate beyond either operand
    let v = a.intersect(b);
    for d in 1..=9u16 {
        if v.has_digit(d) {
            assert!(a.has_digit(d) && b.has_digit(d));
        }
    }
}

#[test]
fn inverse_complements_and_involutes() {
    let a = cell_with(&[1, 5, 9]);
    let inv = a.inverse();
    assert_eq!(inv.get_count(), 6);
    for d in 1..=9u16 {
        assert_eq!(inv.has_digit(d), !a.has_digit(d));
    }
    let back = inv.inverse();
    assert_eq!(back.get_digits(), a.get_digits());
    assert_eq!(back.get_count(), a.get_count());
    assert_eq!(back.is_solved(), a.is_solved());
}

#[test]
fn inverse_keeps_count_off() {
    let mut c = Cell::acc();
    c.add_digit(2);
    let inv = c.inverse();
    assert!(inv.count_is_off());
    assert!(!inv.has_digit(2) && inv.has_digit(1));
}

#[test]
fn union_with_and_intersect_with_report_change() {
    let mut a = cell_with(&[2, 6]);
    assert!(!a.union_with(cell_with(&[2])));
    assert!(a.union_with(cell_with(&[3])));
    assert_eq!(a.get_count(), 3);
    let mut b = cell_with(&[2, 3, 6]);
    assert!(!b.intersect_with(cell_with(&[2, 3, 6, 9])));
    assert!(b.intersect_with(cell_with(&[3, 9])));
    assert_eq!(b.get_count(), 1);
    assert!(b.has_digit(3));
}

#[test]
fn remove_digits_strips_the_given_set() {
    let mut a = Cell::full();
    assert!(a.remove_digits(cell_with(&[2, 6])));
    assert_eq!(a.get_count(), 7);
    assert!(!a.has_digit(2) && !a.has_digit(6));
    // removing a disjoint set reports no change
    let mut b = cell_with(&[1, 3]);
    assert!(!b.remove_digits(cell_with(&[5, 7])));
    assert_eq!(b.get_count(), 2);
}

#[test]
fn get_unsolved_copy_reopens_a_cell() {
    let mut c = Cell::full();
    c.solve_cell(5);
    let u = c.get_unsolved_copy();
    assert!(!u.is_solved());
    assert_eq!(u.get_count(), 1);
    assert!(u.has_digit(5));
    let plain = cell_with(&[1, 2]);
    let same = plain.get_unsolved_copy();
    assert_eq!(same.get_digits(), plain.get_digits());
}

#[test]
fn has_intersection_sees_shared_digits() {
    let a = cell_with(&[1, 2]);
    assert!(a.has_intersection(cell_with(&[2, 9])));
    assert!(!a.has_intersection(cell_with(&[3, 9])));
    // a solved cell intersects through its value
    let mut s = Cell::full();
    s.solve_cell(2);
    assert!(a.has_intersection(s));
}

#[test]
fn solved_cell_keeps_at_most_one_candidate() {
    // the solved invariant, on both terminal states
    let mut c = Cell::full();
    c.solve_cell(3);
    assert!(c.get_count() <= 1);
    assert_eq!(c.get_count(), 1);
    assert!(c.has_digit(c.get_number()));
    let mut z = cell_with(&[]);
    z.solve_cell(0);
    assert_eq!(z.get_count(), 0);
}

#[test]
fn generate_number_picks_a_candidate() {
    // one candidate leaves no choice: the random draw below 1 must be 0
    let mut c = cell_with(&[4]);
    c.generate_number();
    assert!(c.is_solved());
    assert_eq!(c.get_number(), 4);
    // no candidates at all commits to 0
    let mut z = cell_with(&[]);
    z.generate_number();
    assert!(z.is_solved());
    assert_eq!(z.get_number(), 0);
    // the value always comes from the candidate set
    for _ in 0..50 {
        let mut p = cell_with(&[2, 6, 9]);
        p.generate_number();
        assert!([2u16, 6, 9].contains(&p.get_number()));
    }
}

#[test]
fn turn_count_off_marks_the_sentinel() {
    let mut c = Cell::full();
    assert!(!c.count_is_off());
    c.turn_count_off();
    assert!(c.count_is_off());
    assert_eq!(c.get_digits(), 0b1_1111_1111);
    c.reset_count();
    assert_eq!(c.get_count(), 9);
}
