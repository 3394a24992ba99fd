//! The append-only log of solving decisions: which rule fired, which cells
//! it looked at, which digits it involved, and the cell values it produced.

use crate::cell::Cell;
use vstd::prelude::*;

verus! {

/// The rule that produced a history entry.
#[derive(Debug, Clone, Copy, PartialEq, Eq, Structural)]
pub enum EntryType {
    RsCell,
    CellSolved,
    NakedSingle,
    HiddenSingle,
    PointedGroup,
    BoxLineReduction,
    NakedGroup,
    HiddenGroup,
}

/// One record of a rule application and the changes it caused. An entry is
/// only ever pushed when at least one cell actually changed.
#[derive(Debug)]
pub struct HistoryEntry {
    pub name: EntryType,
    pub cells: Vec<usize>,
    pub digits: Cell,
    pub changes: Vec<CellChange>,
}

/// The value a single cell took during one rule application.
#[derive(Debug, Clone, Copy)]
pub struct CellChange {
    pub id: usize,
    pub new_cell: Cell,
}

impl HistoryEntry {
    /// Bundles the fields of one log record.
    pub fn new(name: EntryType, cells: Vec<usize>, digits: Cell, changes: Vec<CellChange>) -> (r:
        HistoryEntry)
        ensures
            r.name == name,
            r.cells == cells,
            r.digits == digits,
            r.changes == changes,
    {
        HistoryEntry { name, cells, digits, changes }
    }
}

} // verus!
