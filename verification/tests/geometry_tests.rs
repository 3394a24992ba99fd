//! Tests for the index geometry: row, column and box maps and the 27
//! section tables.

use simple_sudoku_generator::index_manip::{
    box_of, col_of, make_section_index, of_box, of_col, of_row, of_section, row_of, section_of,
    SectionType, SECTION_BOX_START, SECTION_COL_START, SECTION_END, SECTION_ROW_START,
};

#[test]
fn coordinate_maps_exact_values() {
    assert_eq!(row_of(0), 0);
    assert_eq!(col_of(0), 0);
    assert_eq!(box_of(0), 0);
    assert_eq!(row_of(40), 4);
    assert_eq!(col_of(40), 4);
    assert_eq!(box_of(40), 4);
    assert_eq!(row_of(80), 8);
    assert_eq!(col_of(80), 8);
    assert_eq!(box_of(80), 8);
    assert_eq!(box_of(5), 1);
    assert_eq!(box_of(30), 4);
    assert_eq!(box_of(53), 5);
}

#[test]
fn section_tables_hold_their_members() {
    assert_eq!(of_row(0), vec![0, 1, 2, 3, 4, 5, 6, 7, 8]);
    assert_eq!(of_col(0), vec![0, 9, 18, 27, 36, 45, 54, 63, 72]);
    assert_eq!(of_box(0), vec![0, 1, 2, 9, 10, 11, 18, 19, 20]);
    assert_eq!(of_box(4), vec![30, 31, 32, 39, 40, 41, 48, 49, 50]);
    assert_eq!(of_row(8), vec![72, 73, 74, 75, 76, 77, 78, 79, 80]);
}

#[test]
fn the_27_sections_cover_the_board() {
    let tables = make_section_index();
    assert_eq!(tables.len(), SECTION_END);
    for si in 0..9 {
        assert_eq!(tables[SECTION_ROW_START + si], of_row(si));
        assert_eq!(tables[SECTION_COL_START + si], of_col(si));
        assert_eq!(tables[SECTION_BOX_START + si], of_box(si));
    }
    // every section member is consistent with the coordinate maps
    for si in 0..9 {
        for &c in &tables[si] {
            assert_eq!(row_of(c), si);
        }
        for &c in &tables[9 + si] {
            assert_eq!(col_of(c), si);
        }
        for &c in &tables[18 + si] {
            assert_eq!(box_of(c), si);
        }
    }
}

#[test]
fn section_naming_round_trips() {
    for si in 0..27 {
        let named = of_section(si);
        assert_eq!(section_of(named), si);
    }
    assert_eq!(section_of(SectionType::Row(3)), 3);
    assert_eq!(section_of(SectionType::Col(3)), 12);
    assert_eq!(section_of(SectionType::Box(3)), 21);
    assert!(matches!(of_section(26), SectionType::Box(8)));
}
