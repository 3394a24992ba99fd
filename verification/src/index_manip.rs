//! Index geometry: pure maps from a linear cell position 0..=80 to its row,
//! column and box, and the 27 sections (9 rows, then 9 columns, then 9
//! boxes) as tables of cell indices.

use vstd::prelude::*;

verus! {

pub type CellIndex = usize;

pub type RowIndex = usize;

pub type ColIndex = usize;

pub type BoxIndex = usize;

pub type SecIndex = usize;

pub const SECTION_ROW_START: usize = 0;

pub const SECTION_COL_START: usize = 9;

pub const SECTION_BOX_START: usize = 18;

pub const SECTION_END: usize = 27;

pub open spec fn spec_row_of(i: int) -> int {
    i / 9
}

pub open spec fn spec_col_of(i: int) -> int {
    i % 9
}

pub open spec fn spec_box_of(i: int) -> int {
    (i / 3) % 3 + (i / 27) * 3
}

/// The cell at position `j` of section `si`: sections 0-8 are the rows,
/// 9-17 the columns, 18-26 the boxes.
pub open spec fn sec_cell(si: int, j: int) -> int {
    if si < 9 {
        si * 9 + j
    } else if si < 18 {
        j * 9 + (si - 9)
    } else {
        ((si - 18) % 3) * 3 + ((si - 18) / 3) * 27 + (j % 3) + (j / 3) * 9
    }
}

/// Two distinct board positions that share a row, a column or a box.
pub open spec fn peers(i: int, j: int) -> bool {
    i != j && (spec_row_of(i) == spec_row_of(j) || spec_col_of(i) == spec_col_of(j) || spec_box_of(
        i,
    ) == spec_box_of(j))
}

/// Which coordinate each section fixes for its members.
pub proof fn lemma_sec_cell_coord(si: int, j: int)
    requires
        0 <= si < 27,
        0 <= j < 9,
    ensures
        si < 9 ==> spec_row_of(sec_cell(si, j)) == si,
        9 <= si < 18 ==> spec_col_of(sec_cell(si, j)) == si - 9,
        18 <= si ==> spec_box_of(sec_cell(si, j)) == si - 18,
{
    if si >= 18 {
        let b = si - 18;
        let x = (b % 3) * 3 + (b / 3) * 27 + (j % 3) + (j / 3) * 9;
        assert(x == sec_cell(si, j));
        assert(x / 3 == (b % 3) + (b / 3) * 9 + (j / 3) * 3) by (nonlinear_arith)
            requires
                0 <= b < 9,
                0 <= j < 9,
                x == (b % 3) * 3 + (b / 3) * 27 + (j % 3) + (j / 3) * 9,
        ;
        assert((x / 3) % 3 == b % 3) by (nonlinear_arith)
            requires
                0 <= b < 9,
                0 <= j < 9,
                x / 3 == (b % 3) + (b / 3) * 9 + (j / 3) * 3,
        ;
        assert(x / 27 == b / 3) by (nonlinear_arith)
            requires
                0 <= b < 9,
                0 <= j < 9,
                x == (b % 3) * 3 + (b / 3) * 27 + (j % 3) + (j / 3) * 9,
        ;
        assert(spec_box_of(x) == (b % 3) + (b / 3) * 3);
        assert((b % 3) + (b / 3) * 3 == b) by (nonlinear_arith)
            requires
                0 <= b < 9,
        ;
    }
}

/// Every board position sits in its row, column and box section tables,
/// at the stated slots.
pub proof fn lemma_cell_in_sections(j: int)
    requires
        0 <= j < 81,
    ensures
        0 <= spec_row_of(j) < 9,
        0 <= spec_col_of(j) < 9,
        0 <= spec_box_of(j) < 9,
        0 <= (spec_row_of(j) % 3) * 3 + spec_col_of(j) % 3 < 9,
        sec_cell(spec_row_of(j), spec_col_of(j)) == j,
        sec_cell(9 + spec_col_of(j), spec_row_of(j)) == j,
        sec_cell(18 + spec_box_of(j), (spec_row_of(j) % 3) * 3 + spec_col_of(j) % 3) == j,
{
    let r = spec_row_of(j);
    let c = spec_col_of(j);
    let b = spec_box_of(j);
    let p = (r % 3) * 3 + c % 3;
    assert(j == r * 9 + c);
    assert(b % 3 == (j / 3) % 3 && b / 3 == j / 27) by (nonlinear_arith)
        requires
            0 <= j < 81,
            b == (j / 3) % 3 + (j / 27) * 3,
    ;
    assert(p % 3 == c % 3 && p / 3 == r % 3) by (nonlinear_arith)
        requires
            0 <= r < 9,
            0 <= c < 9,
            p == (r % 3) * 3 + c % 3,
    ;
    assert((j / 3) % 3 * 3 + (j / 27) * 27 + c % 3 + (r % 3) * 9 == j) by (nonlinear_arith)
        requires
            0 <= j < 81,
            r == j / 9,
            c == j % 9,
    ;
}

/// Distinct slots of one section are distinct board positions.
pub proof fn lemma_sec_cell_inj(si: int, j1: int, j2: int)
    requires
        0 <= si < 27,
        0 <= j1 < 9,
        0 <= j2 < 9,
        j1 != j2,
    ensures
        sec_cell(si, j1) != sec_cell(si, j2),
{
    if si >= 18 {
        assert((j1 % 3) + (j1 / 3) * 9 != (j2 % 3) + (j2 / 3) * 9) by (nonlinear_arith)
            requires
                0 <= j1 < 9,
                0 <= j2 < 9,
                j1 != j2,
        ;
    }
}

/// Every section member is a board position.
pub proof fn lemma_sec_cell_bound(si: int, j: int)
    requires
        0 <= si < 27,
        0 <= j < 9,
    ensures
        0 <= sec_cell(si, j) < 81,
{
}

/// The row holding a cell index.
pub fn row_of(cell_index: CellIndex) -> (r: RowIndex)
    requires
        cell_index < 81,
    ensures
        r == spec_row_of(cell_index as int),
        r < 9,
{
    cell_index / 9
}

/// The column holding a cell index.
pub fn col_of(cell_index: CellIndex) -> (r: ColIndex)
    requires
        cell_index < 81,
    ensures
        r == spec_col_of(cell_index as int),
        r < 9,
{
    cell_index % 9
}

/// The box holding a cell index.
pub fn box_of(cell_index: CellIndex) -> (r: BoxIndex)
    requires
        cell_index < 81,
    ensures
        r == spec_box_of(cell_index as int),
        r < 9,
{
    (cell_index / 3) % 3 + (cell_index / 27) * 3
}

/// The nine cell indices of a row, left to right.
pub fn of_row(row_index: RowIndex) -> (r: Vec<CellIndex>)
    requires
        row_index < 9,
    ensures
        r@.len() == 9,
        forall|j: int| 0 <= j < 9 ==> #[trigger] r@[j] == sec_cell(row_index as int, j),
{
    let mut r: Vec<CellIndex> = Vec::new();
    let mut i: usize = 0;
    while i < 9
        invariant
            i <= 9,
            row_index < 9,
            r@.len() == i,
            forall|j: int| 0 <= j < i ==> #[trigger] r@[j] == sec_cell(row_index as int, j),
        decreases 9 - i,
    {
        r.push(row_index * 9 + i);
        i = i + 1;
    }
    r
}

/// The nine cell indices of a column, top to bottom.
pub fn of_col(col_index: ColIndex) -> (r: Vec<CellIndex>)
    requires
        col_index < 9,
    ensures
        r@.len() == 9,
        forall|j: int| 0 <= j < 9 ==> #[trigger] r@[j] == sec_cell(col_index as int + 9, j),
{
    let mut r: Vec<CellIndex> = Vec::new();
    let mut i: usize = 0;
    while i < 9
        invariant
            i <= 9,
            col_index < 9,
            r@.len() == i,
            forall|j: int| 0 <= j < i ==> #[trigger] r@[j] == sec_cell(col_index as int + 9, j),
        decreases 9 - i,
    {
        r.push(i * 9 + col_index);
        i = i + 1;
    }
    r
}

/// The nine cell indices of a box, read left to right, top to bottom.
pub fn of_box(box_index: BoxIndex) -> (r: Vec<CellIndex>)
    requires
        box_index < 9,
    ensures
        r@.len() == 9,
        forall|j: int| 0 <= j < 9 ==> #[trigger] r@[j] == sec_cell(box_index as int + 18, j),
{
    let start = (box_index % 3) * 3 + (box_index / 3) * 27;
    let mut r: Vec<CellIndex> = Vec::new();
    let mut i: usize = 0;
    while i < 9
        invariant
            i <= 9,
            box_index < 9,
            start == (box_index % 3) * 3 + (box_index / 3) * 27,
            r@.len() == i,
            forall|j: int| 0 <= j < i ==> #[trigger] r@[j] == sec_cell(box_index as int + 18, j),
        decreases 9 - i,
    {
        r.push(start + i % 3 + (i / 3) * 9);
        i = i + 1;
    }
    r
}

/// All 27 section tables: rows, then columns, then boxes.
pub fn make_section_index() -> (r: Vec<Vec<CellIndex>>)
    ensures
        r@.len() == 27,
        forall|si: int| 0 <= si < 27 ==> (#[trigger] r@[si])@.len() == 9,
        forall|si: int, j: int|
            0 <= si < 27 && 0 <= j < 9 ==> (#[trigger] r@[si]@[j]) == sec_cell(si, j),
        forall|si: int, j: int| 0 <= si < 27 && 0 <= j < 9 ==> (#[trigger] r@[si]@[j]) < 81,
{
    let mut r: Vec<Vec<CellIndex>> = Vec::new();
    let mut si: usize = 0;
    while si < 27
        invariant
            si <= 27,
            r@.len() == si,
            forall|s: int| 0 <= s < si ==> (#[trigger] r@[s])@.len() == 9,
            forall|s: int, j: int|
                0 <= s < si && 0 <= j < 9 ==> (#[trigger] r@[s]@[j]) == sec_cell(s, j),
        decreases 27 - si,
    {
        let table = if si < 9 {
            of_row(si)
        } else if si < 18 {
            of_col(si - 9)
        } else {
            of_box(si - 18)
        };
        r.push(table);
        si = si + 1;
    }
    proof {
        assert forall|s: int, j: int| 0 <= s < 27 && 0 <= j < 9 implies (#[trigger] r@[s]@[j])
            < 81 by {
            lemma_sec_cell_bound(s, j);
        }
    }
    r
}

/// A section named by what it is: a row, a column or a box.
pub enum SectionType {
    Row(RowIndex),
    Col(ColIndex),
    Box(BoxIndex),
}

/// The linear section index of a named section.
pub fn section_of(s: SectionType) -> (r: SecIndex)
    requires
        match s {
            SectionType::Row(i) => i < 9,
            SectionType::Col(i) => i < 9,
            SectionType::Box(i) => i < 9,
        },
    ensures
        r == match s {
            SectionType::Row(i) => i as int,
            SectionType::Col(i) => i as int + 9,
            SectionType::Box(i) => i as int + 18,
        },
{
    match s {
        SectionType::Row(i) => i,
        SectionType::Col(i) => i + 9,
        SectionType::Box(i) => i + 18,
    }
}

/// The named section behind a linear section index.
pub fn of_section(si: SecIndex) -> (r: SectionType)
    requires
        si < 27,
    ensures
        r == (if si < 9 {
            SectionType::Row(si as usize)
        } else if si < 18 {
            SectionType::Col((si - 9) as usize)
        } else {
            SectionType::Box((si - 18) as usize)
        }),
{
    let i = si % 9;
    if si / 9 == 0 {
        SectionType::Row(i)
    } else if si / 9 == 1 {
        SectionType::Col(i)
    } else {
        SectionType::Box(i)
    }
}

} // verus!
