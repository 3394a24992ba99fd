//! A 9x9 sudoku generator and solver built on human-style deduction rules:
//! constraint propagation over per-cell candidate sets, run to a fixed point,
//! with no backtracking search.

pub mod cell;
pub mod history;
pub mod index_manip;
mod rng;
pub mod sudoku;

use vstd::prelude::*;

verus! {

/// Smoke entry point: generates one board by incremental filling.
pub fn bench_main() {
    let _sud = sudoku::Sudoku::fill_incremental();
}

} // verus!
