//! Group removal: naked groups of 2 to 7 cells. A section's unsolved cells
//! are first split into subsections of transitively overlapping candidate
//! sets; within each, a bounded depth-first search looks for a set of cells
//! whose combined candidates number exactly the set's size, and the found
//! digits are removed from every other cell of the section that straddles
//! the group.

use crate::cell::{is_inverse_of, lemma_counted_on, Cell};
use crate::history::{CellChange, EntryType, HistoryEntry};
use crate::index_manip::sec_cell;
use crate::sudoku::{
    board_monotone, cell_monotone, lemma_board_monotone_step, lemma_pot_update, pot_to,
    section_unsolved, su_to, Sudoku,
};
use vstd::prelude::*;

verus! {

/// A maximal set of a section's unsolved cells whose candidate sets
/// transitively overlap; cells with disjoint candidates can never share a
/// naked group, so the search stays inside one subsection.
struct Subsection {
    /// Union of the candidates of every cell added so far.
    acc: Cell,
    /// How many cells were added, searchable or not.
    total_cells: usize,
    /// The cells still small enough to sit in a group, and their positions.
    cand_cells: Vec<Cell>,
    cand_ids: Vec<usize>,
    /// Largest group size worth trying here.
    mgs: usize,
}

impl Subsection {
    /// Internal consistency of the collected candidates.
    spec fn swf(self) -> bool {
        &&& self.cand_ids@.len() == self.cand_cells@.len()
        &&& self.mgs <= self.cand_ids@.len()
        &&& self.acc.inv()
        &&& !self.acc.solved
        &&& (forall|k: int| 0 <= k < self.cand_ids@.len() ==> (#[trigger] self.cand_ids@[k]) < 81)
        &&& (forall|k: int|
            0 <= k < self.cand_cells@.len() ==> (#[trigger] self.cand_cells@[k]).inv()
                && self.cand_cells@[k].counted() && !self.cand_cells@[k].solved)
    }

    /// Digit `d` occurs in some searchable cell picked out by the
    /// position list `q`.
    spec fn q_union_has(self, q: Seq<int>, d: int) -> bool {
        exists|k: int| 0 <= k < q.len() && self.cand_cells@[#[trigger] q[k]].has(d)
    }

    /// The strictly increasing position list `q` picks searchable cells
    /// whose combined candidates are exactly the set of `u`, and their
    /// number equals the number of cells: a naked group.
    spec fn naked_group_cert(self, q: Seq<int>, u: Cell) -> bool {
        &&& (forall|k: int| 0 <= k < q.len() ==> 0 <= #[trigger] q[k] < self.cand_ids@.len())
        &&& (forall|k1: int, k2: int|
            #![trigger q[k1], q[k2]]
            0 <= k1 < k2 < q.len() ==> q[k1] < q[k2])
        &&& u.inv()
        &&& !u.solved
        &&& (forall|d: int| #[trigger] u.has(d) <==> self.q_union_has(q, d))
        &&& u.cand_count() == q.len()
    }

    /// The collected cells are snapshots of the live board.
    spec fn snapshot_of(self, cells: Seq<Cell>) -> bool {
        forall|k: int|
            0 <= k < self.cand_ids@.len() ==> (#[trigger] self.cand_cells@[k]) == cells[self.cand_ids@[k] as int]
    }

    fn new() -> (r: Subsection)
        ensures
            r.swf(),
            r.total_cells == 0,
            r.mgs == 0,
            r.cand_ids@.len() == 0,
            r.cand_cells@.len() == 0,
    {
        Subsection {
            acc: Cell::acc(),
            total_cells: 0,
            cand_cells: Vec::new(),
            cand_ids: Vec::new(),
            mgs: 0,
        }
    }

    // Folds one unsolved cell in; it joins the searchable candidates only
    // when small enough for a group.
    fn add_cell(&mut self, cid: usize, c: Cell)
        requires
            old(self).swf(),
            old(self).total_cells < 81,
            c.inv(),
            c.counted(),
            !c.solved,
            cid < 81,
        ensures
            final(self).swf(),
            final(self).total_cells == old(self).total_cells + 1,
            final(self).mgs == old(self).mgs,
            c.cand_count() < 7 ==> final(self).cand_ids@ == old(self).cand_ids@.push(cid)
                && final(self).cand_cells@ == old(self).cand_cells@.push(c),
            c.cand_count() >= 7 ==> final(self).cand_ids@ == old(self).cand_ids@
                && final(self).cand_cells@ == old(self).cand_cells@,
    {
        proof {
            lemma_counted_on(c);
        }
        self.acc.union_with(c);
        if c.get_count() < 7 {
            self.cand_ids.push(cid);
            self.cand_cells.push(c);
        }
        self.total_cells = self.total_cells + 1;
    }

    // Whether a cell's candidates overlap this subsection's.
    fn cell_belongs(&self, c: Cell) -> (r: bool)
        ensures
            r == exists|d: int| self.acc.has(d) && c.has(d),
    {
        self.acc.has_intersection(c)
    }

    // Fixes the group-size cap: the subsection size less two, bounded by the
    // number of searchable cells.
    fn calc_mgs(&mut self)
        requires
            old(self).swf(),
        ensures
            final(self).swf(),
            final(self).cand_ids@ == old(self).cand_ids@,
            final(self).cand_cells@ == old(self).cand_cells@,
            final(self).total_cells == old(self).total_cells,
            final(self).mgs + 2 <= final(self).total_cells || final(self).mgs == 0,
    {
        let cap = if self.total_cells >= 2 {
            self.total_cells - 2
        } else {
            0
        };
        let n = self.cand_ids.len();
        self.mgs = if n < cap {
            n
        } else {
            cap
        };
    }

    // Searches for a naked group among the searchable cells. A found group
    // is a list of searchable positions whose combined candidate set has
    // exactly as many digits as the list has cells.
    fn find_group(&self) -> (g: Option<Vec<usize>>)
        requires
            self.swf(),
            self.cand_ids@.len() >= 1,
        ensures
            g matches Some(v) ==> v@.len() >= 1 && (forall|k: int|
                0 <= k < v@.len() ==> self.cand_ids@.contains(#[trigger] v@[k])) && (exists|
                q: Seq<int>,
                u: Cell,
            |
                #![trigger q.len(), u.cand_count()]
                {
                    &&& q.len() == v@.len()
                    &&& v@.len() <= self.mgs
                    &&& (forall|k: int|
                        0 <= k < q.len() ==> 0 <= #[trigger] q[k] < self.cand_ids@.len())
                    &&& (forall|k: int| 0 <= k < q.len() ==> #[trigger] v@[k] == self.cand_ids@[q[k]])
                    &&& u.inv()
                    &&& !u.solved
                    &&& (forall|d: int| #[trigger] u.has(d) <==> self.q_union_has(q, d))
                    &&& u.cand_count() == v@.len()
                }),
            g is None ==> (forall|q: Seq<int>, u: Cell|
                !(#[trigger] self.naked_group_cert(q, u) && 1 <= q.len() <= self.mgs && q[0]
                    < self.cand_ids@.len() - 1)),
    {
        let mut pos: usize = 0;
        while pos < self.cand_ids.len() - 1
            invariant
                self.swf(),
                self.cand_ids@.len() >= 1,
                forall|q: Seq<int>, u: Cell|
                    !(#[trigger] self.naked_group_cert(q, u) && 1 <= q.len() <= self.mgs && q[0]
                        < pos),
            decreases self.cand_ids@.len() - pos,
        {
            let ghost seed = seq![pos as int];
            proof {
                lemma_counted_on(self.cand_cells@[pos as int]);
                assert(seed[0] == pos as int);
                assert forall|d: int| #[trigger] self.cand_cells@[pos as int].has(d)
                    <==> self.q_union_has(seed, d) by {
                    if self.cand_cells@[pos as int].has(d) {
                        assert(self.cand_cells@[seed[0]].has(d));
                    }
                }
            }
            if let Some(g) = self.find_group_r(self.cand_cells[pos], 1, pos, Ghost(seed)) {
                return Some(g);
            }
            proof {
                assert forall|q: Seq<int>, u: Cell|
                    !(#[trigger] self.naked_group_cert(q, u) && 1 <= q.len() <= self.mgs && q[0]
                        < pos + 1) by {
                    if self.naked_group_cert(q, u) && 1 <= q.len() <= self.mgs && q[0] == pos {
                        assert(forall|k: int| 0 <= k < 1 ==> #[trigger] q[k] == seed[k]);
                    }
                }
            }
            pos = pos + 1;
        }
        None
    }

    // Depth-first extension of a partial group: `acc` is the candidate
    // union over the `cell_count` cells chosen so far, whose positions are
    // `chosen`, the last of them `cid`. Prunes when the union is already
    // too large, accepts when its size matches the count.
    fn find_group_r(
        &self,
        acc: Cell,
        cell_count: usize,
        cid: usize,
        chosen: Ghost<Seq<int>>,
    ) -> (g: Option<Vec<usize>>)
        requires
            self.swf(),
            acc.inv(),
            !acc.solved,
            acc.counted(),
            cid < self.cand_ids@.len(),
            1 <= cell_count <= cid + 1,
            chosen@.len() == cell_count,
            forall|k: int| 0 <= k < chosen@.len() ==> 0 <= #[trigger] chosen@[k] < self.cand_ids@.len(),
            forall|k1: int, k2: int|
                #![trigger chosen@[k1], chosen@[k2]]
                0 <= k1 < k2 < chosen@.len() ==> chosen@[k1] < chosen@[k2],
            chosen@[cell_count - 1] == cid,
            forall|d: int| #[trigger] acc.has(d) <==> self.q_union_has(chosen@, d),
        ensures
            g matches Some(v) ==> v@.len() >= cell_count && (forall|k: int|
                cell_count - 1 <= k < v@.len() ==> self.cand_ids@.contains(#[trigger] v@[k])) && (
            exists|q: Seq<int>, u: Cell|
                #![trigger q.len(), u.cand_count()]
                {
                    &&& q.len() == v@.len()
                    &&& v@.len() <= self.mgs
                    &&& (forall|k: int|
                        0 <= k < q.len() ==> 0 <= #[trigger] q[k] < self.cand_ids@.len())
                    &&& (forall|k: int| 0 <= k < cell_count ==> #[trigger] q[k] == chosen@[k])
                    &&& (forall|k: int|
                        cell_count - 1 <= k < q.len() ==> #[trigger] v@[k] == self.cand_ids@[q[k]])
                    &&& u.inv()
                    &&& !u.solved
                    &&& (forall|d: int| #[trigger] u.has(d) <==> self.q_union_has(q, d))
                    &&& u.cand_count() == v@.len()
                }),
            g is None ==> (forall|q: Seq<int>, u: Cell|
                !(#[trigger] self.naked_group_cert(q, u) && cell_count <= q.len() <= self.mgs && (
                forall|k: int| 0 <= k < cell_count ==> #[trigger] q[k] == chosen@[k]))),
        decreases self.cand_ids@.len() - cid,
    {
        proof {
            lemma_counted_on(acc);
        }
        let acc_count = acc.get_count() as usize;
        let max_count = if acc_count > cell_count {
            acc_count
        } else {
            cell_count
        };
        if max_count > self.mgs {
            proof {
                assert forall|q: Seq<int>, u: Cell|
                    !(#[trigger] self.naked_group_cert(q, u) && cell_count <= q.len() <= self.mgs
                        && (forall|k: int| 0 <= k < cell_count ==> #[trigger] q[k] == chosen@[k])) by {
                    if self.naked_group_cert(q, u) && cell_count <= q.len() <= self.mgs && (forall|
                        k: int,
                    | 0 <= k < cell_count ==> #[trigger] q[k] == chosen@[k]) {
                        assert(cell_count <= self.mgs);
                        assert(acc_count > self.mgs);
                        assert forall|d: int| #[trigger] acc.has(d) implies u.has(d) by {
                            assert(self.q_union_has(chosen@, d));
                            let k0 = choose|k: int|
                                0 <= k < chosen@.len() && self.cand_cells@[#[trigger] chosen@[k]].has(
                                    d,
                                );
                            assert(self.cand_cells@[q[k0]].has(d));
                            assert(self.q_union_has(q, d));
                        }
                        crate::cell::lemma_cand_subset(u, acc);
                        assert(false);
                    }
                }
            }
            return None;
        }
        if acc_count == cell_count {
            let mut output: Vec<usize> = Vec::new();
            let mut t: usize = 0;
            while t < cell_count
                invariant
                    t <= cell_count,
                    output@.len() == t,
                decreases cell_count - t,
            {
                output.push(0);
                t = t + 1;
            }
            let picked = self.cand_ids[cid];
            output[cell_count - 1] = picked;
            proof {
                assert(self.cand_ids@.contains(picked));
                let q = chosen@;
                let u = acc;
                assert(output@[cell_count - 1] == self.cand_ids@[q[cell_count - 1]]);
                assert(u.cand_count() == output@.len());
                assert((exists|q2: Seq<int>, u2: Cell|
                    #![trigger q2.len(), u2.cand_count()]
                    {
                        &&& q2.len() == output@.len()
                        &&& output@.len() <= self.mgs
                        &&& (forall|k: int|
                            0 <= k < q2.len() ==> 0 <= #[trigger] q2[k] < self.cand_ids@.len())
                        &&& (forall|k: int| 0 <= k < cell_count ==> #[trigger] q2[k] == chosen@[k])
                        &&& (forall|k: int|
                            cell_count - 1 <= k < q2.len() ==> #[trigger] output@[k]
                                == self.cand_ids@[q2[k]])
                        &&& u2.inv()
                        &&& !u2.solved
                        &&& (forall|d: int| #[trigger] u2.has(d) <==> self.q_union_has(q2, d))
                        &&& u2.cand_count() == output@.len()
                    })) by {
                    assert(forall|k: int|
                        cell_count - 1 <= k < q.len() ==> #[trigger] output@[k]
                            == self.cand_ids@[q[k]]);
                }
            }
            return Some(output);
        }
        let n = self.cand_ids.len();
        let mut nid = cid + 1;
        proof {
            assert forall|q: Seq<int>, u: Cell|
                !(#[trigger] self.naked_group_cert(q, u) && cell_count < q.len() <= self.mgs && (
                forall|k: int| 0 <= k < cell_count ==> #[trigger] q[k] == chosen@[k]) && q[
                cell_count as int
                ] < cid + 1) by {
                if self.naked_group_cert(q, u) && cell_count < q.len() <= self.mgs && (forall|
                    k: int,
                | 0 <= k < cell_count ==> #[trigger] q[k] == chosen@[k]) {
                    assert(q[cell_count - 1] < q[cell_count as int]);
                    assert(q[cell_count - 1] == chosen@[cell_count - 1]);
                }
            }
        }
        while nid < n
            invariant
                self.swf(),
                acc.inv(),
                !acc.solved,
                acc.counted(),
                cid + 1 <= nid,
                cid < self.cand_ids@.len(),
                1 <= cell_count <= cid + 1,
                n == self.cand_ids@.len(),
                chosen@.len() == cell_count,
                forall|k: int|
                    0 <= k < chosen@.len() ==> 0 <= #[trigger] chosen@[k] < self.cand_ids@.len(),
                forall|k1: int, k2: int|
                    #![trigger chosen@[k1], chosen@[k2]]
                    0 <= k1 < k2 < chosen@.len() ==> chosen@[k1] < chosen@[k2],
                chosen@[cell_count - 1] == cid,
                forall|d: int| #[trigger] acc.has(d) <==> self.q_union_has(chosen@, d),
                forall|q: Seq<int>, u: Cell|
                    !(#[trigger] self.naked_group_cert(q, u) && cell_count < q.len() <= self.mgs
                        && (forall|k: int| 0 <= k < cell_count ==> #[trigger] q[k] == chosen@[k])
                        && q[cell_count as int] < nid),
            decreases self.cand_ids@.len() - nid,
        {
            let u = acc.union(self.cand_cells[nid]);
            let ghost chosen2 = chosen@.push(nid as int);
            proof {
                lemma_counted_on(acc);
                assert(chosen2[cell_count as int] == nid as int);
                assert forall|k1: int, k2: int|
                    #![trigger chosen2[k1], chosen2[k2]]
                    0 <= k1 < k2 < chosen2.len() implies chosen2[k1] < chosen2[k2] by {
                    if k2 < chosen@.len() {
                        assert(chosen@[k1] < chosen@[k2]);
                    } else {
                        if k1 < cell_count - 1 {
                            assert(chosen@[k1] < chosen@[cell_count - 1]);
                        }
                    }
                }
                assert forall|d: int| #[trigger] u.has(d) <==> self.q_union_has(chosen2, d) by {
                    if u.has(d) {
                        if acc.has(d) {
                            let k0 = choose|k: int|
                                0 <= k < chosen@.len() && self.cand_cells@[#[trigger] chosen@[k]].has(d);
                            assert(self.cand_cells@[chosen2[k0]].has(d));
                        } else {
                            assert(self.cand_cells@[chosen2[cell_count as int]].has(d));
                        }
                    }
                    if self.q_union_has(chosen2, d) {
                        let k0 = choose|k: int|
                            0 <= k < chosen2.len() && self.cand_cells@[#[trigger] chosen2[k]].has(d);
                        if k0 < chosen@.len() {
                            assert(self.cand_cells@[chosen@[k0]].has(d));
                        }
                    }
                }
            }
            if let Some(mut output) = self.find_group_r(u, cell_count + 1, nid, Ghost(chosen2)) {
                let picked = self.cand_ids[cid];
                proof {
                    assert(self.cand_ids@.contains(picked));
                }
                let ghost (q, w) = choose|q: Seq<int>, w: Cell|
                    #![trigger q.len(), w.cand_count()]
                    {
                        &&& q.len() == output@.len()
                        &&& (forall|k: int|
                            0 <= k < q.len() ==> 0 <= #[trigger] q[k] < self.cand_ids@.len())
                        &&& (forall|k: int|
                            0 <= k < cell_count + 1 ==> #[trigger] q[k] == chosen2[k])
                        &&& (forall|k: int|
                            cell_count <= k < q.len() ==> #[trigger] output@[k]
                                == self.cand_ids@[q[k]])
                        &&& w.inv()
                        &&& !w.solved
                        &&& (forall|d: int| #[trigger] w.has(d) <==> self.q_union_has(q, d))
                        &&& w.cand_count() == output@.len()
                    };
                output[cell_count - 1] = picked;
                proof {
                    assert(q[cell_count - 1] == chosen2[cell_count - 1]);
                    assert(chosen2[cell_count - 1] == chosen@[cell_count - 1]);
                    assert(output@[cell_count - 1] == self.cand_ids@[q[cell_count - 1]]);
                    assert((exists|q2: Seq<int>, u2: Cell|
                        #![trigger q2.len(), u2.cand_count()]
                        {
                            &&& q2.len() == output@.len()
                            &&& output@.len() <= self.mgs
                            &&& (forall|k: int|
                                0 <= k < q2.len() ==> 0 <= #[trigger] q2[k] < self.cand_ids@.len())
                            &&& (forall|k: int|
                                0 <= k < cell_count ==> #[trigger] q2[k] == chosen@[k])
                            &&& (forall|k: int|
                                cell_count - 1 <= k < q2.len() ==> #[trigger] output@[k]
                                    == self.cand_ids@[q2[k]])
                            &&& u2.inv()
                            &&& !u2.solved
                            &&& (forall|d: int| #[trigger] u2.has(d) <==> self.q_union_has(q2, d))
                            &&& u2.cand_count() == output@.len()
                        })) by {
                        assert(forall|k: int|
                            0 <= k < cell_count ==> #[trigger] q[k] == chosen@[k]);
                        assert(forall|k: int|
                            cell_count - 1 <= k < q.len() ==> #[trigger] output@[k]
                                == self.cand_ids@[q[k]]);
                    }
                }
                return Some(output);
            }
            proof {
                assert forall|q: Seq<int>, u: Cell|
                    !(#[trigger] self.naked_group_cert(q, u) && cell_count < q.len() <= self.mgs
                        && (forall|k: int| 0 <= k < cell_count ==> #[trigger] q[k] == chosen@[k])
                        && q[cell_count as int] < nid + 1) by {
                    if self.naked_group_cert(q, u) && cell_count < q.len() <= self.mgs && (forall|
                        k: int,
                    | 0 <= k < cell_count ==> #[trigger] q[k] == chosen@[k]) && q[cell_count as int]
                        == nid {
                        assert forall|k: int| 0 <= k < cell_count + 1 implies #[trigger] q[k]
                            == chosen2[k] by {
                            if k < cell_count {
                                assert(q[k] == chosen@[k]);
                            }
                        }
                    }
                }
            }
            nid = nid + 1;
        }
        proof {
            assert forall|q: Seq<int>, u: Cell|
                !(#[trigger] self.naked_group_cert(q, u) && cell_count <= q.len() <= self.mgs && (
                forall|k: int| 0 <= k < cell_count ==> #[trigger] q[k] == chosen@[k])) by {
                if self.naked_group_cert(q, u) && cell_count <= q.len() <= self.mgs && (forall|
                    k: int,
                | 0 <= k < cell_count ==> #[trigger] q[k] == chosen@[k]) {
                    if q.len() == cell_count {
                        assert forall|d: int| self.q_union_has(q, d) == self.q_union_has(
                            chosen@,
                            d,
                        ) by {
                            if self.q_union_has(q, d) {
                                let k0 = choose|k: int|
                                    0 <= k < q.len() && self.cand_cells@[#[trigger] q[k]].has(d);
                                assert(self.cand_cells@[chosen@[k0]].has(d));
                            }
                            if self.q_union_has(chosen@, d) {
                                let k0 = choose|k: int|
                                    0 <= k < chosen@.len() && self.cand_cells@[#[trigger] chosen@[k]].has(
                                        d,
                                    );
                                assert(self.cand_cells@[q[k0]].has(d));
                            }
                        }
                        assert(forall|d: int| #[trigger] u.has(d) <==> acc.has(d));
                        crate::cell::lemma_cand_count_eq(u, acc);
                        assert(false);
                    } else {
                        assert(q[cell_count as int] < n);
                        assert(false);
                    }
                }
            }
        }
        None
    }
}

/// The board position `id` is among one subsection's searchable cells.
spec fn in_sub(sb: Subsection, id: usize) -> bool {
    exists|p: int| 0 <= p < sb.cand_ids@.len() && (#[trigger] sb.cand_ids@[p]) == id
}

/// The board position `id` is a searchable cell of some listed subsection.
spec fn covered(sbs: Seq<Subsection>, id: usize) -> bool {
    exists|s2: int, p: int|
        0 <= s2 < sbs.len() && 0 <= p < sbs[s2].cand_ids@.len() && (#[trigger] sbs[s2].cand_ids@[p])
            == id
}

/// Digit `d` is held by some member of the group `g` on the board `cells`.
pub open spec fn group_digit(cells: Seq<Cell>, g: Seq<usize>, d: int) -> bool {
    exists|p: int| 0 <= p < g.len() && cells[#[trigger] g[p] as int].has(d)
}

/// The cell at slot `j` of section `si` is a victim of the group `g`: it is
/// unsolved and straddles the group's digit union, holding a digit from it
/// and a digit outside it.
pub open spec fn group_victim(cells: Seq<Cell>, g: Seq<usize>, si: int, j: int) -> bool {
    &&& !cells[sec_cell(si, j)].solved
    &&& (exists|d: int| cells[#[trigger] sec_cell(si, j)].has(d) && group_digit(cells, g, d))
    &&& (exists|d: int| cells[sec_cell(si, j)].has(d) && !group_digit(cells, g, d))
}

// A swap-removal introduces no element from outside the given list.
proof fn lemma_swap_remove_subset(pre: Seq<usize>, post: Seq<usize>, i: int, input: Seq<usize>)
    requires
        0 <= i < pre.len(),
        post == pre.update(i, pre.last()).drop_last(),
        forall|k: int| 0 <= k < pre.len() ==> input.contains(#[trigger] pre[k]),
    ensures
        forall|k: int| 0 <= k < post.len() ==> input.contains(#[trigger] post[k]),
{
    assert forall|k: int| 0 <= k < post.len() implies input.contains(#[trigger] post[k]) by {
        if k == i {
            assert(post[k] == pre[pre.len() - 1]);
        } else {
            assert(post[k] == pre[k]);
        }
    }
}

// Every element other than the removed one survives a swap-removal.
proof fn lemma_pool_element_survives(pre: Seq<usize>, post: Seq<usize>, i: int)
    requires
        0 <= i < pre.len(),
        post == pre.update(i, pre.last()).drop_last(),
    ensures
        forall|v: usize| pre.contains(v) && v != pre[i] ==> #[trigger] post.contains(v),
{
    assert forall|v: usize| pre.contains(v) && v != pre[i] implies #[trigger] post.contains(v) by {
        let p = choose|p: int| 0 <= p < pre.len() && pre[p] == v;
        if p < pre.len() - 1 {
            if p == i {
            } else {
                assert(post[p] == v);
            }
        } else {
            assert(i < pre.len() - 1);
            assert(post[i] == v);
        }
    }
}

impl Sudoku {
    /// Looks for one naked group in some section and removes its digits
    /// from the section's other straddling cells; greedy, one change per
    /// call. Never solves a cell, only removes candidates; a reported
    /// mutation comes with a certificate naming a section and a set of its
    /// unsolved cells that holds exactly as many candidates as it has
    /// members: the members are left untouched, every straddling cell of
    /// that section loses exactly the member digits, and nothing outside
    /// the section changes.
    pub fn group_removal(&mut self) -> (r: bool)
        requires
            old(self).wf(),
            old(self).stack_empty(),
        ensures
            final(self).wf(),
            final(self).stack_empty(),
            final(self).sections == old(self).sections,
            final(self).section_digit_sum == old(self).section_digit_sum,
            final(self).solved_cell_checked == old(self).solved_cell_checked,
            old(self).history@.is_prefix_of(final(self).history@),
            board_monotone(old(self).cells@, final(self).cells@),
            final(self).potential() <= old(self).potential(),
            r ==> final(self).potential() < old(self).potential(),
            r ==> final(self).history@.len() == old(self).history@.len() + 1
                && final(self).history@.last().name == EntryType::NakedGroup,
            !r ==> *final(self) == *old(self),
            forall|i: int|
                0 <= i < 81 ==> (#[trigger] final(self).cells@[i]).solved == old(self).cells@[
                    i
                ].solved,
            r ==> exists|gm: Seq<usize>, u: Cell, si2: int|
                #![trigger gm.len(), u.cand_count(), section_unsolved(old(self).cells@, si2)]
                {
                    &&& 0 <= si2 < 27
                    &&& gm.len() >= 1
                    &&& gm.len() + 2 <= section_unsolved(old(self).cells@, si2)
                    &&& (forall|k: int|
                        0 <= k < gm.len() ==> (#[trigger] gm[k]) < 81 && !old(self).cells@[gm[k] as int].solved)
                    &&& (forall|k: int|
                        0 <= k < gm.len() ==> exists|j2: int|
                            0 <= j2 < 9 && (#[trigger] gm[k]) == sec_cell(si2, j2))
                    &&& u.inv()
                    &&& !u.solved
                    &&& u.cand_count() == gm.len()
                    &&& (forall|d: int| #[trigger] u.has(d) <==> group_digit(
                        old(self).cells@,
                        gm,
                        d,
                    ))
                    &&& (forall|k: int|
                        0 <= k < gm.len() ==> final(self).cells@[(#[trigger] gm[k]) as int] == old(
                            self,
                        ).cells@[gm[k] as int])
                    &&& (forall|i: int, d: int|
                        0 <= i < 81 && (#[trigger] old(self).cells@[i].has(d)) && !(
                        #[trigger] final(self).cells@[i].has(d)) ==> u.has(d))
                    &&& (forall|i: int, d: int|
                        0 <= i < 81 && final(self).cells@[i] != old(self).cells@[i]
                            ==> (#[trigger] final(self).cells@[i].has(d)) == (old(self).cells@[
                            i
                        ].has(d) && !u.has(d)))
                    &&& (forall|i: int|
                        0 <= i < 81 && #[trigger] final(self).cells@[i] != old(self).cells@[i]
                            ==> exists|j2: int| 0 <= j2 < 9 && i == sec_cell(si2, j2))
                    &&& (exists|j2: int|
                        0 <= j2 < 9 && #[trigger] group_victim(old(self).cells@, gm, si2, j2))
                    &&& (forall|j2: int|
                        0 <= j2 < 9 && !(#[trigger] group_victim(old(self).cells@, gm, si2, j2))
                            ==> final(self).cells@[sec_cell(si2, j2)] == old(self).cells@[sec_cell(
                            si2,
                            j2,
                        )])
                    &&& (forall|j2: int, d: int|
                        0 <= j2 < 9 && group_victim(old(self).cells@, gm, si2, j2)
                            ==> (#[trigger] final(self).cells@[sec_cell(si2, j2)].has(d)) == (old(
                            self,
                        ).cells@[sec_cell(si2, j2)].has(d) && !u.has(d)))
                },
    {
        let mut si: usize = 0;
        while si < 27
            invariant
                si <= 27,
                self.wf(),
                self.stack_empty(),
                *self == *old(self),
            decreases 27 - si,
        {
            let mut vec_sc: Vec<usize> = Vec::new();
            let mut j: usize = 0;
            while j < 9
                invariant
                    j <= 9,
                    si < 27,
                    self.wf(),
                    vec_sc@.len() == su_to(self.cells@, si as int, j as int),
                    vec_sc@.len() <= j,
                    forall|k: int|
                        0 <= k < vec_sc@.len() ==> (#[trigger] vec_sc@[k]) < 81 && !self.cells@[vec_sc@[k] as int].solved,
                    forall|k: int|
                        0 <= k < vec_sc@.len() ==> exists|j2: int|
                            0 <= j2 < 9 && (#[trigger] vec_sc@[k]) == sec_cell(si as int, j2),
                decreases 9 - j,
            {
                let cid = self.sections[si][j];
                if !self.cells[cid].is_solved() {
                    vec_sc.push(cid);
                    proof {
                        assert(vec_sc@[vec_sc@.len() - 1] == sec_cell(si as int, j as int));
                    }
                }
                j = j + 1;
            }
            if vec_sc.len() > 2 && vec_sc.len() - 2 >= 2 {
                let ghost input_sc = vec_sc@;
                proof {
                    assert(input_sc.len() == section_unsolved(self.cells@, si as int));
                }
                let subsections = self.get_subsections(vec_sc);
                let mut t: usize = 0;
                while t < subsections.len()
                    invariant
                        t <= subsections@.len(),
                        si < 27,
                        self.wf(),
                        self.stack_empty(),
                        *self == *old(self),
                        input_sc.len() == section_unsolved(self.cells@, si as int),
                        forall|k: int|
                            0 <= k < input_sc.len() ==> exists|j2: int|
                                0 <= j2 < 9 && (#[trigger] input_sc[k]) == sec_cell(si as int, j2),
                        forall|k: int|
                            0 <= k < subsections@.len() ==> (#[trigger] subsections@[k]).swf()
                                && subsections@[k].snapshot_of(self.cells@),
                        forall|k: int, p: int|
                            #![trigger subsections@[k].cand_ids@[p]]
                            0 <= k < subsections@.len() && 0 <= p
                                < subsections@[k].cand_ids@.len() ==> input_sc.contains(
                                subsections@[k].cand_ids@[p],
                            ),
                        forall|k: int|
                            0 <= k < subsections@.len() ==> ((#[trigger] subsections@[k]).mgs + 2
                                <= input_sc.len() || subsections@[k].mgs == 0),
                    decreases subsections@.len() - t,
                {
                    let sb = &subsections[t];
                    if sb.mgs >= 2 {
                        if let Some(g) = sb.find_group() {
                            let ghost gseq = g@;
                            let ghost (q, u) = choose|q: Seq<int>, u: Cell|
                                #![trigger q.len(), u.cand_count()]
                                {
                                    &&& q.len() == gseq.len()
                                    &&& gseq.len() <= sb.mgs
                                    &&& (forall|k: int|
                                        0 <= k < q.len() ==> 0 <= #[trigger] q[k]
                                            < sb.cand_ids@.len())
                                    &&& (forall|k: int|
                                        0 <= k < q.len() ==> #[trigger] gseq[k] == sb.cand_ids@[q[k]])
                                    &&& u.inv()
                                    &&& !u.solved
                                    &&& (forall|d: int| #[trigger] u.has(d) <==> sb.q_union_has(
                                        q,
                                        d,
                                    ))
                                    &&& u.cand_count() == gseq.len()
                                };
                            proof {
                                assert forall|k: int| 0 <= k < g@.len() implies (#[trigger] g@[k])
                                    < 81 && !self.cells@[g@[k] as int].solved by {
                                    assert(sb.cand_ids@.contains(g@[k]));
                                    let p = choose|p: int|
                                        0 <= p < sb.cand_ids@.len() && sb.cand_ids@[p] == g@[k];
                                    assert(sb.cand_cells@[p] == self.cells@[g@[k] as int]);
                                }
                                assert forall|d: int| #[trigger] u.has(d) <==> group_digit(
                                    self.cells@,
                                    gseq,
                                    d,
                                ) by {
                                    if u.has(d) {
                                        let k0 = choose|k: int|
                                            0 <= k < q.len() && sb.cand_cells@[#[trigger] q[k]].has(
                                                d,
                                            );
                                        assert(sb.cand_cells@[q[k0]] == self.cells@[sb.cand_ids@[q[k0]] as int]);
                                        assert(self.cells@[gseq[k0] as int].has(d));
                                        assert(group_digit(self.cells@, gseq, d));
                                    }
                                    if group_digit(self.cells@, gseq, d) {
                                        let k0 = choose|k: int|
                                            0 <= k < gseq.len() && self.cells@[#[trigger] gseq[k] as int].has(
                                                d,
                                            );
                                        assert(sb.cand_cells@[q[k0]] == self.cells@[sb.cand_ids@[q[k0]] as int]);
                                        assert(sb.cand_cells@[q[k0]].has(d));
                                        assert(sb.q_union_has(q, d));
                                    }
                                }
                            }
                            proof {
                                assert(gseq.len() + 2 <= input_sc.len());
                                assert(input_sc.len() == section_unsolved(self.cells@, si as int));
                                assert forall|k: int| 0 <= k < gseq.len() implies exists|j2: int|
                                    0 <= j2 < 9 && (#[trigger] gseq[k]) == sec_cell(
                                        si as int,
                                        j2,
                                    ) by {
                                    assert(input_sc.contains(sb.cand_ids@[q[k]]));
                                    let m = choose|m: int|
                                        0 <= m < input_sc.len() && input_sc[m] == sb.cand_ids@[q[k]];
                                    assert(input_sc[m] == gseq[k]);
                                }
                            }
                            let ghost at_call = *self;
                            if self.handle_group(si, g) {
                                proof {
                                    assert(gseq.len() >= 1);
                                    assert(u.cand_count() == gseq.len());
                                    assert forall|i: int, d: int|
                                        0 <= i < 81 && self.cells@[i] != at_call.cells@[i] implies (
                                    #[trigger] self.cells@[i].has(d)) == (at_call.cells@[i].has(d)
                                        && !u.has(d)) by {
                                        let j0 = choose|jj: int|
                                            0 <= jj < 9 && i == sec_cell(si as int, jj);
                                        assert(group_victim(at_call.cells@, gseq, si as int, j0));
                                        assert(group_digit(at_call.cells@, gseq, d) == u.has(d));
                                    }
                                    assert forall|j2: int, d: int|
                                        0 <= j2 < 9 && group_victim(
                                            at_call.cells@,
                                            gseq,
                                            si as int,
                                            j2,
                                        ) implies (#[trigger] self.cells@[sec_cell(
                                        si as int,
                                        j2,
                                    )].has(d)) == (at_call.cells@[sec_cell(si as int, j2)].has(d)
                                        && !u.has(d)) by {
                                        assert(group_digit(at_call.cells@, gseq, d) == u.has(d));
                                    }
                                }
                                return true;
                            }
                        }
                    }
                    t = t + 1;
                }
            }
            si = si + 1;
        }
        proof {
            crate::sudoku::lemma_board_monotone_refl(self.cells@);
        }
        false
    }

    // Splits a section's unsolved cells into subsections of transitively
    // overlapping candidate sets.
    fn get_subsections(&self, sec_cells: Vec<usize>) -> (sbs: Vec<Subsection>)
        requires
            self.wf(),
            sec_cells@.len() <= 9,
            forall|k: int|
                0 <= k < sec_cells@.len() ==> (#[trigger] sec_cells@[k]) < 81 && !self.cells@[sec_cells@[k] as int].solved,
        ensures
            forall|k: int|
                0 <= k < sbs@.len() ==> (#[trigger] sbs@[k]).swf() && sbs@[k].snapshot_of(
                    self.cells@,
                ),
            forall|k: int|
                0 <= k < sec_cells@.len() && self.cells@[(#[trigger] sec_cells@[k]) as int].cand_count()
                    < 7 ==> covered(sbs@, sec_cells@[k]),
            forall|k: int, p: int|
                #![trigger sbs@[k].cand_ids@[p]]
                0 <= k < sbs@.len() && 0 <= p < sbs@[k].cand_ids@.len() ==> sec_cells@.contains(
                    sbs@[k].cand_ids@[p],
                ),
            forall|k: int|
                0 <= k < sbs@.len() ==> ((#[trigger] sbs@[k]).mgs + 2 <= sec_cells@.len()
                    || sbs@[k].mgs == 0),
    {
        let mut sbs: Vec<Subsection> = Vec::new();
        let mut pool = sec_cells;
        let ghost input = pool@;
        while pool.len() > 0
            invariant
                self.wf(),
                pool@.len() <= 9,
                pool@.len() <= input.len(),
                forall|k: int|
                    0 <= k < pool@.len() ==> (#[trigger] pool@[k]) < 81 && !self.cells@[pool@[k] as int].solved,
                forall|k: int| 0 <= k < pool@.len() ==> input.contains(#[trigger] pool@[k]),
                forall|k: int|
                    0 <= k < sbs@.len() ==> (#[trigger] sbs@[k]).swf() && sbs@[k].snapshot_of(
                        self.cells@,
                    ),
                forall|k: int|
                    0 <= k < input.len() && self.cells@[(#[trigger] input[k]) as int].cand_count()
                        < 7 ==> pool@.contains(input[k]) || covered(sbs@, input[k]),
                forall|k: int, p: int|
                    #![trigger sbs@[k].cand_ids@[p]]
                    0 <= k < sbs@.len() && 0 <= p < sbs@[k].cand_ids@.len() ==> input.contains(
                        sbs@[k].cand_ids@[p],
                    ),
                forall|k: int|
                    0 <= k < sbs@.len() ==> ((#[trigger] sbs@[k]).mgs + 2 <= input.len()
                        || sbs@[k].mgs == 0),
            decreases pool@.len(),
        {
            let mut sb = Subsection::new();
            let ghost pool_pre = pool@;
            let cid = pool.swap_remove(0);
            proof {
                lemma_pool_element_survives(pool_pre, pool@, 0);
                lemma_swap_remove_subset(pool_pre, pool@, 0, input);
                assert(input.contains(cid));
            }
            sb.add_cell(cid, self.cells[cid]);
            proof {
                assert forall|k: int|
                    0 <= k < input.len() && self.cells@[(#[trigger] input[k]) as int].cand_count()
                        < 7 implies pool@.contains(input[k]) || covered(sbs@, input[k]) || in_sub(
                    sb,
                    input[k],
                ) by {
                    if input[k] == cid {
                        assert(self.cells@[cid as int].cand_count() < 7);
                        assert(sb.cand_ids@[0] == cid);
                    } else if pool_pre.contains(input[k]) {
                        assert(pool@.contains(input[k]));
                    }
                }
            }
            let ghost pool_start = pool@;
            let mut has_int = true;
            while has_int
                invariant
                    self.wf(),
                    sb.swf(),
                    sb.snapshot_of(self.cells@),
                    sb.total_cells + pool@.len() <= 9,
                    sb.total_cells + pool@.len() <= input.len(),
                    sb.total_cells >= 1,
                    pool@.len() <= pool_start.len(),
                    forall|k: int|
                        0 <= k < pool@.len() ==> (#[trigger] pool@[k]) < 81 && !self.cells@[pool@[k] as int].solved,
                    forall|k: int| 0 <= k < pool@.len() ==> input.contains(#[trigger] pool@[k]),
                    forall|p: int|
                        0 <= p < sb.cand_ids@.len() ==> input.contains(#[trigger] sb.cand_ids@[p]),
                    forall|k: int|
                        0 <= k < input.len() && self.cells@[(#[trigger] input[k]) as int].cand_count()
                            < 7 ==> pool@.contains(input[k]) || covered(sbs@, input[k]) || in_sub(
                            sb,
                            input[k],
                        ),
                decreases pool@.len() + (if has_int {
                    1int
                } else {
                    0int
                }),
            {
                has_int = false;
                let mut ci: usize = 0;
                let ghost pool_at_pass = pool@;
                while ci < pool.len()
                    invariant
                        self.wf(),
                        sb.swf(),
                        sb.snapshot_of(self.cells@),
                        sb.total_cells + pool@.len() <= 9,
                        sb.total_cells + pool@.len() <= input.len(),
                        sb.total_cells >= 1,
                        ci <= pool@.len(),
                        pool@.len() <= pool_start.len(),
                        has_int ==> pool@.len() < pool_at_pass.len(),
                        !has_int ==> pool@ == pool_at_pass,
                        forall|k: int|
                            0 <= k < pool@.len() ==> (#[trigger] pool@[k]) < 81 && !self.cells@[pool@[k] as int].solved,
                        forall|k: int|
                            0 <= k < pool@.len() ==> input.contains(#[trigger] pool@[k]),
                        forall|p: int|
                            0 <= p < sb.cand_ids@.len() ==> input.contains(
                                #[trigger] sb.cand_ids@[p],
                            ),
                        forall|k: int|
                            0 <= k < input.len() && self.cells@[(#[trigger] input[k]) as int].cand_count()
                                < 7 ==> pool@.contains(input[k]) || covered(sbs@, input[k])
                                || in_sub(sb, input[k]),
                    decreases pool@.len() - ci,
                {
                    let cell_id = pool[ci];
                    let cell = self.cells[cell_id];
                    if sb.cell_belongs(cell) {
                        let ghost pool_mid = pool@;
                        let ghost sb_pre = sb;
                        sb.add_cell(cell_id, cell);
                        pool.swap_remove(ci);
                        proof {
                            lemma_pool_element_survives(pool_mid, pool@, ci as int);
                            lemma_swap_remove_subset(pool_mid, pool@, ci as int, input);
                            assert forall|k: int|
                                0 <= k < input.len() && self.cells@[(#[trigger] input[k]) as int].cand_count()
                                    < 7 implies pool@.contains(input[k]) || covered(
                                sbs@,
                                input[k],
                            ) || in_sub(sb, input[k]) by {
                                if in_sub(sb_pre, input[k]) {
                                    let p = choose|p: int|
                                        0 <= p < sb_pre.cand_ids@.len() && (
                                        #[trigger] sb_pre.cand_ids@[p]) == input[k];
                                    assert(sb.cand_ids@[p] == input[k]);
                                } else if pool_mid.contains(input[k]) && input[k] != cell_id {
                                    assert(pool@.contains(input[k]));
                                } else if input[k] == cell_id {
                                    assert(cell.cand_count() < 7);
                                    assert(sb.cand_ids@[sb.cand_ids@.len() - 1] == cell_id);
                                }
                            }
                        }
                        has_int = true;
                    } else {
                        ci = ci + 1;
                    }
                }
            }
            sb.calc_mgs();
            proof {
                assert(sb.mgs + 2 <= input.len() || sb.mgs == 0);
            }
            let ghost sbs_pre = sbs@;
            sbs.push(sb);
            proof {
                assert forall|k: int|
                    0 <= k < input.len() && self.cells@[(#[trigger] input[k]) as int].cand_count()
                        < 7 implies pool@.contains(input[k]) || covered(sbs@, input[k]) by {
                    if covered(sbs_pre, input[k]) {
                        let (s2, p) = choose|s2: int, p: int|
                            0 <= s2 < sbs_pre.len() && 0 <= p < sbs_pre[s2].cand_ids@.len() && (
                            #[trigger] sbs_pre[s2].cand_ids@[p]) == input[k];
                        assert(sbs@[s2].cand_ids@[p] == input[k]);
                    } else if in_sub(sb, input[k]) {
                        let p = choose|p: int|
                            0 <= p < sb.cand_ids@.len() && (#[trigger] sb.cand_ids@[p]) == input[k];
                        assert(sbs@[sbs@.len() - 1].cand_ids@[p] == input[k]);
                    }
                }
            }
        }
        sbs
    }

    // Applies one found naked group: removes its digit union from every
    // other cell of the section that holds both a group digit and an
    // outside digit, and logs the change.
    #[verifier::rlimit(100)]
    fn handle_group(&mut self, si: usize, g: Vec<usize>) -> (r: bool)
        requires
            old(self).wf(),
            old(self).stack_empty(),
            si < 27,
            g@.len() >= 1,
            forall|k: int|
                0 <= k < g@.len() ==> (#[trigger] g@[k]) < 81 && !old(self).cells@[g@[k] as int].solved,
        ensures
            final(self).wf(),
            final(self).stack_empty(),
            final(self).sections == old(self).sections,
            final(self).section_digit_sum == old(self).section_digit_sum,
            final(self).solved_cell_checked == old(self).solved_cell_checked,
            old(self).history@.is_prefix_of(final(self).history@),
            board_monotone(old(self).cells@, final(self).cells@),
            pot_to(final(self).cells@, 81) <= pot_to(old(self).cells@, 81),
            r ==> pot_to(final(self).cells@, 81) < pot_to(old(self).cells@, 81),
            r ==> final(self).history@.len() == old(self).history@.len() + 1
                && final(self).history@.last().name == EntryType::NakedGroup
                && final(self).history@.last().cells@ == g@ && (forall|d: int|
                #[trigger] final(self).history@.last().digits.has(d) <==> group_digit(
                    old(self).cells@,
                    g@,
                    d,
                )) && (forall|k: int|
                0 <= k < final(self).history@.last().changes@.len()
                    ==> (#[trigger] final(self).history@.last().changes@[k]).id < 81
                    && final(self).history@.last().changes@[k].new_cell
                    == final(self).cells@[final(self).history@.last().changes@[k].id as int]),
            !r ==> *final(self) == *old(self),
            forall|i: int|
                0 <= i < 81 ==> (#[trigger] final(self).cells@[i]).solved == old(self).cells@[
                    i
                ].solved,
            forall|p: int|
                0 <= p < g@.len() ==> final(self).cells@[#[trigger] g@[p] as int]
                    == old(self).cells@[g@[p] as int],
            forall|i: int, d: int|
                0 <= i < 81 && (#[trigger] old(self).cells@[i].has(d))
                    && !(#[trigger] final(self).cells@[i].has(d)) ==> group_digit(
                    old(self).cells@,
                    g@,
                    d,
                ),
            r == exists|j: int|
                0 <= j < 9 && #[trigger] group_victim(old(self).cells@, g@, si as int, j),
            forall|j: int|
                0 <= j < 9 && !(#[trigger] group_victim(old(self).cells@, g@, si as int, j))
                    ==> final(self).cells@[sec_cell(si as int, j)] == old(self).cells@[sec_cell(
                    si as int,
                    j,
                )],
            forall|j: int, d: int|
                0 <= j < 9 && group_victim(old(self).cells@, g@, si as int, j)
                    ==> (#[trigger] final(self).cells@[sec_cell(si as int, j)].has(d))
                    == (old(self).cells@[sec_cell(si as int, j)].has(d) && !group_digit(
                    old(self).cells@,
                    g@,
                    d,
                )),
            forall|i: int|
                0 <= i < 81 && #[trigger] final(self).cells@[i] != old(self).cells@[i]
                    ==> exists|j: int| 0 <= j < 9 && i == sec_cell(si as int, j),
    {
        let mut acc = Cell::acc();
        let mut k: usize = 0;
        while k < g.len()
            invariant
                k <= g@.len(),
                self.wf(),
                *self == *old(self),
                acc.inv(),
                !acc.solved,
                forall|p: int|
                    0 <= p < g@.len() ==> (#[trigger] g@[p]) < 81 && !self.cells@[g@[p] as int].solved,
                forall|d: int|
                    #[trigger] acc.has(d) <==> exists|p: int|
                        0 <= p < k && old(self).cells@[#[trigger] g@[p] as int].has(d),
            decreases g@.len() - k,
        {
            let ghost acc0 = acc;
            let cell = self.cells[g[k]];
            acc.union_with(cell);
            proof {
                assert forall|d: int| #[trigger] acc.has(d) implies exists|p: int|
                    0 <= p < k + 1 && old(self).cells@[#[trigger] g@[p] as int].has(d) by {
                    if acc0.has(d) {
                        let p0 = choose|p: int|
                            0 <= p < k && old(self).cells@[#[trigger] g@[p] as int].has(d);
                        assert(old(self).cells@[g@[p0] as int].has(d));
                    } else {
                        assert(old(self).cells@[g@[k as int] as int].has(d));
                    }
                }
                assert forall|d: int|
                    (exists|p: int|
                        0 <= p < k + 1 && old(self).cells@[#[trigger] g@[p] as int].has(
                            d,
                        )) implies #[trigger] acc.has(d) by {
                    let p0 = choose|p: int|
                        0 <= p < k + 1 && old(self).cells@[#[trigger] g@[p] as int].has(d);
                    if p0 < k {
                        assert(acc0.has(d));
                    }
                }
            }
            k = k + 1;
        }
        let inv_acc = acc.inverse();
        let mut changes: Vec<CellChange> = Vec::new();
        let mut j: usize = 0;
        proof {
            crate::sudoku::lemma_board_monotone_refl(self.cells@);
        }
        while j < 9
            invariant
                j <= 9,
                si < 27,
                acc.inv(),
                !acc.solved,
                inv_acc.inv(),
                !inv_acc.solved,
                is_inverse_of(inv_acc, acc),
                self.wf(),
                self.stack_empty(),
                self.sections == old(self).sections,
                self.section_digit_sum == old(self).section_digit_sum,
                self.solved_cell_checked == old(self).solved_cell_checked,
                self.history == old(self).history,
                self.cell_change_stack == old(self).cell_change_stack,
                board_monotone(old(self).cells@, self.cells@),
                pot_to(self.cells@, 81) <= pot_to(old(self).cells@, 81),
                changes@.len() == 0 ==> *self == *old(self),
                changes@.len() > 0 ==> pot_to(self.cells@, 81) < pot_to(old(self).cells@, 81),
                forall|i: int|
                    0 <= i < 81 ==> (#[trigger] self.cells@[i]).solved == old(self).cells@[
                        i
                    ].solved,
                forall|p: int|
                    0 <= p < g@.len() ==> (#[trigger] g@[p]) < 81 && !old(self).cells@[g@[p] as int].solved,
                forall|d: int|
                    #[trigger] acc.has(d) <==> group_digit(old(self).cells@, g@, d),
                forall|p: int|
                    0 <= p < g@.len() ==> self.cells@[#[trigger] g@[p] as int] == old(
                        self,
                    ).cells@[g@[p] as int],
                forall|i: int, d: int|
                    0 <= i < 81 && (#[trigger] old(self).cells@[i].has(d)) && !(#[trigger] self.cells@[i].has(
                        d,
                    )) ==> group_digit(old(self).cells@, g@, d),
                forall|jj: int|
                    j <= jj < 9 ==> self.cells@[#[trigger] sec_cell(si as int, jj)] == old(
                        self,
                    ).cells@[sec_cell(si as int, jj)],
                forall|jj: int|
                    0 <= jj < j && !(#[trigger] group_victim(old(self).cells@, g@, si as int, jj))
                        ==> self.cells@[sec_cell(si as int, jj)] == old(self).cells@[sec_cell(
                        si as int,
                        jj,
                    )],
                forall|jj: int, d: int|
                    0 <= jj < j && group_victim(old(self).cells@, g@, si as int, jj)
                        ==> #[trigger] self.cells@[sec_cell(si as int, jj)].has(d) == (old(
                        self,
                    ).cells@[sec_cell(si as int, jj)].has(d) && !group_digit(
                        old(self).cells@,
                        g@,
                        d,
                    )),
                forall|i: int|
                    0 <= i < 81 && #[trigger] self.cells@[i] != old(self).cells@[i] ==> exists|
                        jj: int,
                    | 0 <= jj < j && i == sec_cell(si as int, jj),
                (changes@.len() > 0) == exists|jj: int|
                    0 <= jj < 9 && jj < j && #[trigger] group_victim(
                        old(self).cells@,
                        g@,
                        si as int,
                        jj,
                    ),
                forall|k: int|
                    0 <= k < changes@.len() ==> (#[trigger] changes@[k]).id < 81 && changes@[k].new_cell
                        == self.cells@[changes@[k].id as int],
                forall|k: int|
                    0 <= k < changes@.len() ==> exists|jj: int|
                        0 <= jj < j && (#[trigger] changes@[k]).id == sec_cell(si as int, jj),
            decreases 9 - j,
        {
            let sid = self.sections[si][j];
            let cell = self.cells[sid];
            proof {
                assert forall|jj: int| 0 <= jj < 9 && jj != j implies sec_cell(si as int, jj)
                    != sid as int by {
                    crate::index_manip::lemma_sec_cell_inj(si as int, j as int, jj);
                }
                assert(cell == old(self).cells@[sid as int]);
            }
            if !cell.is_solved() && cell.has_intersection(acc) && cell.has_intersection(inv_acc) {
                proof {
                    assert forall|p: int| 0 <= p < g@.len() implies (#[trigger] g@[p]) != sid by {
                        if g@[p] == sid {
                            let d0 = choose|d: int| cell.has(d) && inv_acc.has(d);
                            assert(old(self).cells@[g@[p] as int].has(d0));
                            assert(group_digit(old(self).cells@, g@, d0));
                            assert(acc.has(d0));
                        }
                    }
                    let d1 = choose|d: int| cell.has(d) && acc.has(d);
                    assert(old(self).cells@[sec_cell(si as int, j as int)].has(d1) && group_digit(
                        old(self).cells@,
                        g@,
                        d1,
                    ));
                    let d2 = choose|d: int| cell.has(d) && inv_acc.has(d);
                    assert(old(self).cells@[sec_cell(si as int, j as int)].has(d2) && !group_digit(
                        old(self).cells@,
                        g@,
                        d2,
                    ));
                    assert(group_victim(old(self).cells@, g@, si as int, j as int));
                }
                let mut c2 = self.cells[sid];
                proof {
                    lemma_counted_on(c2);
                }
                let ch = c2.remove_digits(acc);
                proof {
                    assert(ch);
                }
                if ch {
                    let ghost pre = self.cells@;
                    self.cells[sid] = c2;
                    proof {
                        assert(cell_monotone(pre[sid as int], c2));
                        lemma_board_monotone_step(old(self).cells@, pre, sid as int, c2);
                        lemma_pot_update(pre, sid as int, c2, 81);
                        assert forall|i: int, d: int|
                            0 <= i < 81 && (#[trigger] old(self).cells@[i].has(d)) && !(
                            #[trigger] self.cells@[i].has(d)) implies group_digit(
                            old(self).cells@,
                            g@,
                            d,
                        ) by {
                            if i == sid as int && pre[i].has(d) {
                                assert(acc.has(d));
                            }
                        }
                        assert forall|d: int| #[trigger] self.cells@[sec_cell(
                            si as int,
                            j as int,
                        )].has(d) == (old(self).cells@[sec_cell(si as int, j as int)].has(d)
                            && !group_digit(old(self).cells@, g@, d)) by {
                            assert(self.cells@[sid as int].has(d) == (cell.has(d) && !acc.has(d)));
                        }
                    }
                    proof {
                        assert forall|k: int|
                            0 <= k < changes@.len() implies (#[trigger] changes@[k]).new_cell
                            == self.cells@[changes@[k].id as int] by {
                            let jj = choose|jj: int|
                                0 <= jj < j && (#[trigger] changes@[k]).id == sec_cell(
                                    si as int,
                                    jj,
                                );
                            crate::index_manip::lemma_sec_cell_inj(si as int, jj, j as int);
                            assert(changes@[k].id != sid);
                        }
                        assert(c2 == self.cells@[sid as int]);
                    }
                    changes.push(CellChange { id: sid, new_cell: c2 });
                }
            } else {
                proof {
                    assert(!group_victim(old(self).cells@, g@, si as int, j as int)) by {
                        if group_victim(old(self).cells@, g@, si as int, j as int) {
                            assert(!cell.solved);
                            let d1 = choose|d: int|
                                old(self).cells@[sec_cell(si as int, j as int)].has(d)
                                    && group_digit(old(self).cells@, g@, d);
                            assert(cell.has(d1) && acc.has(d1));
                            let d2 = choose|d: int|
                                old(self).cells@[sec_cell(si as int, j as int)].has(d)
                                    && !group_digit(old(self).cells@, g@, d);
                            assert(cell.has(d2));
                            assert(inv_acc.has(d2));
                        }
                    }
                }
            }
            j = j + 1;
        }
        if changes.len() > 0 {
            self.history.push(HistoryEntry::new(EntryType::NakedGroup, g, acc, changes));
            true
        } else {
            false
        }
    }
}

} // verus!
