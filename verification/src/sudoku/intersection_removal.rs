//! Intersection removal: pointed groups and box-line reductions. Every box
//! is cut into three row-aligned and three column-aligned triples; a digit
//! confined to one triple on one side of the overlap is removed from the
//! other side.

use crate::cell::Cell;
use crate::history::EntryType;
use crate::index_manip::{peers, sec_cell, spec_box_of, spec_col_of, spec_row_of};
use crate::sudoku::{
    board_monotone, cell_monotone, elimination_witness, lemma_board_monotone_step,
    lemma_board_monotone_trans, lemma_pot_update, pot_to, Sudoku,
};
use vstd::prelude::*;

verus! {

/// Digit `d` is still carried by an unsolved cell of the triple `(x, y)`
/// of box division `b`.
pub open spec fn triple_digit(cells: Seq<Cell>, b: int, x: int, y: int, d: int) -> bool {
    exists|c: int|
        0 <= c < 3 && !cells[bd_cell(b, x, y, c)].solved && cells[#[trigger] bd_cell(
            b,
            x,
            y,
            c,
        )].has(d)
}

/// Every listed position lies in the triple `(x, y)` of division `b`.
pub open spec fn from_source_trio(cells_list: Seq<usize>, b: int, x: int, y: int) -> bool {
    forall|k: int|
        0 <= k < cells_list.len() ==> exists|c: int|
            0 <= c < 3 && (#[trigger] cells_list[k]) == bd_cell(b, x, y, c)
}

/// A pointed group or box-line reduction is available at triple `(x, y)`
/// of division `b` for digit `d`: the triple still carries `d`, and `d`
/// survives on exactly one of the two sides of the overlap.
pub open spec fn intersection_applies(cells: Seq<Cell>, b: int, x: int, y: int, d: int) -> bool {
    triple_digit(cells, b, x, y, d) && ((triple_digit(cells, b, (x + 1) % 3, y, d) || triple_digit(
        cells,
        b,
        (x + 2) % 3,
        y,
        d,
    )) != (triple_digit(cells, b, x, (y + 1) % 3, d) || triple_digit(cells, b, x, (y + 2) % 3, d)))
}

// A cell's box is determined by its row and column bands.
proof fn lemma_box_from_coords(i: int)
    requires
        0 <= i < 81,
    ensures
        spec_box_of(i) == spec_col_of(i) / 3 + (spec_row_of(i) / 3) * 3,
{
    assert((i / 3) % 3 == (i % 9) / 3 && i / 27 == (i / 9) / 3) by (nonlinear_arith)
        requires
            0 <= i < 81,
    ;
}

/// Where a division slot sits on the board: its row and column, and hence
/// its box.
proof fn lemma_bd_coords(b: int, x: int, y: int, c: int)
    requires
        0 <= b < 6,
        0 <= x < 3,
        0 <= y < 3,
        0 <= c < 3,
    ensures
        0 <= bd_cell(b, x, y, c) < 81,
        b < 3 ==> spec_row_of(bd_cell(b, x, y, c)) == b * 3 + x && spec_col_of(bd_cell(b, x, y, c))
            == y * 3 + c,
        b >= 3 ==> spec_col_of(bd_cell(b, x, y, c)) == (b - 3) * 3 + x && spec_row_of(
            bd_cell(b, x, y, c),
        ) == y * 3 + c,
{
}

/// The cell at slot `c` of the triple `(x, y)` of box division `b`: the
/// first three divisions cut the three row bands, the other three the
/// three column stacks.
pub open spec fn bd_cell(b: int, x: int, y: int, c: int) -> int {
    if b < 3 {
        sec_cell(b * 3 + x, y * 3 + c)
    } else {
        sec_cell(9 + (b - 3) * 3 + x, y * 3 + c)
    }
}

// The board position behind `bd_cell`, computed directly.
fn bd_index(b: usize, x: usize, y: usize, c: usize) -> (r: usize)
    requires
        b < 6,
        x < 3,
        y < 3,
        c < 3,
    ensures
        r == bd_cell(b as int, x as int, y as int, c as int),
        r < 81,
{
    if b < 3 {
        (b * 3 + x) * 9 + y * 3 + c
    } else {
        (y * 3 + c) * 9 + (b - 3) * 3 + x
    }
}

// A digit still alive in the source triple justifies its removal from any
// slot of a target triple: the two lie in one line (pointed group) or one
// box (box-line reduction), and in different triples.
proof fn lemma_intersection_witness(
    cells: Seq<Cell>,
    b: int,
    x: int,
    y: int,
    i: int,
    j: int,
    c: int,
    d: int,
    boxline: bool,
)
    requires
        cells.len() == 81,
        0 <= b < 6,
        0 <= x < 3,
        0 <= y < 3,
        0 <= i < 3,
        0 <= j < 3,
        0 <= c < 3,
        triple_digit(cells, b, x, y, d),
        boxline ==> i != x && j == y,
        !boxline ==> i == x && j != y,
    ensures
        elimination_witness(cells, bd_cell(b, i, j, c), d),
{
    let cid = bd_cell(b, i, j, c);
    let c0 = choose|cc: int|
        0 <= cc < 3 && !cells[bd_cell(b, x, y, cc)].solved && cells[#[trigger] bd_cell(
            b,
            x,
            y,
            cc,
        )].has(d);
    let src = bd_cell(b, x, y, c0);
    lemma_bd_coords(b, x, y, c0);
    lemma_bd_coords(b, i, j, c);
    lemma_box_from_coords(src);
    lemma_box_from_coords(cid);
    if boxline {
        assert(spec_box_of(src) == spec_box_of(cid));
        assert(src != cid);
    } else {
        if b < 3 {
            assert(spec_row_of(src) == spec_row_of(cid));
        } else {
            assert(spec_col_of(src) == spec_col_of(cid));
        }
        assert(src != cid);
    }
    assert(peers(src, cid));
}

// Stripping the digits of `ds` from one unsolved cell cannot bring a digit
// of `ds` back into any triple.
proof fn lemma_triple_stays_clean(
    pre: Seq<Cell>,
    post: Seq<Cell>,
    cid: int,
    ds: Cell,
    b: int,
    tx: int,
    ty: int,
    d: int,
)
    requires
        pre.len() == 81,
        post.len() == 81,
        0 <= cid < 81,
        forall|k: int| 0 <= k < 81 && k != cid ==> #[trigger] post[k] == pre[k],
        post[cid].solved == pre[cid].solved,
        forall|dd: int| #[trigger] post[cid].has(dd) == (pre[cid].has(dd) && !ds.has(dd)),
        ds.has(d),
        0 <= b < 6,
        0 <= tx < 3,
        0 <= ty < 3,
        !triple_digit(pre, b, tx, ty, d),
    ensures
        !triple_digit(post, b, tx, ty, d),
{
    if triple_digit(post, b, tx, ty, d) {
        let c0 = choose|c: int|
            0 <= c < 3 && !post[bd_cell(b, tx, ty, c)].solved && post[#[trigger] bd_cell(
                b,
                tx,
                ty,
                c,
            )].has(d);
        lemma_bd_coords(b, tx, ty, c0);
        if bd_cell(b, tx, ty, c0) == cid {
            assert(post[cid].has(d) == (pre[cid].has(d) && !ds.has(d)));
        } else {
            assert(post[bd_cell(b, tx, ty, c0)] == pre[bd_cell(b, tx, ty, c0)]);
        }
    }
}

// The same, for a single already-stripped board slot.
proof fn lemma_slot_stays_clean(
    pre: Seq<Cell>,
    post: Seq<Cell>,
    cid: int,
    ds: Cell,
    slot: int,
    d: int,
)
    requires
        pre.len() == 81,
        post.len() == 81,
        0 <= cid < 81,
        0 <= slot < 81,
        forall|k: int| 0 <= k < 81 && k != cid ==> #[trigger] post[k] == pre[k],
        post[cid].solved == pre[cid].solved,
        forall|dd: int| #[trigger] post[cid].has(dd) == (pre[cid].has(dd) && !ds.has(dd)),
        ds.has(d),
        pre[slot].solved || !pre[slot].has(d),
    ensures
        post[slot].solved || !post[slot].has(d),
{
}

impl Sudoku {
    /// Looks for one pointed group or box-line reduction and applies it;
    /// greedy, one elimination per call, relying on the scheduler's restart.
    /// Never solves a cell, and only removes digits that an unsolved peer
    /// of the stripped cell still carries.
    #[verifier::rlimit(100)]
    pub fn intersection_removal(&mut self) -> (r: bool)
        requires
            old(self).wf(),
            old(self).stack_empty(),
        ensures
            final(self).wf(),
            final(self).stack_empty(),
            final(self).sections == old(self).sections,
            final(self).section_digit_sum == old(self).section_digit_sum,
            final(self).solved_cell_checked == old(self).solved_cell_checked,
            old(self).history@.is_prefix_of(final(self).history@),
            board_monotone(old(self).cells@, final(self).cells@),
            final(self).potential() <= old(self).potential(),
            r ==> final(self).potential() < old(self).potential(),
            r ==> final(self).history@.len() > old(self).history@.len(),
            forall|k: int|
                old(self).history@.len() <= k < final(self).history@.len()
                    ==> (#[trigger] final(self).history@[k]).name == EntryType::PointedGroup
                    || final(self).history@[k].name == EntryType::BoxLineReduction,
            !r ==> *final(self) == *old(self),
            forall|i: int|
                0 <= i < 81 ==> (#[trigger] final(self).cells@[i]).solved == old(self).cells@[
                    i
                ].solved,
            forall|i: int, d: int|
                0 <= i < 81 && (#[trigger] old(self).cells@[i].has(d))
                    && !(#[trigger] final(self).cells@[i].has(d)) ==> elimination_witness(
                    old(self).cells@,
                    i,
                    d,
                ),
            !r ==> (forall|b2: int, x2: int, y2: int, d: int|
                0 <= b2 < 6 && 0 <= x2 < 3 && 0 <= y2 < 3 ==> !(#[trigger] intersection_applies(
                    old(self).cells@,
                    b2,
                    x2,
                    y2,
                    d,
                ))),
            r ==> (exists|b2: int, x2: int, y2: int, d: int|
                0 <= b2 < 6 && 0 <= x2 < 3 && 0 <= y2 < 3 && #[trigger] intersection_applies(
                    old(self).cells@,
                    b2,
                    x2,
                    y2,
                    d,
                )),
    {
        let mut b: usize = 0;
        while b < 6
            invariant
                b <= 6,
                self.wf(),
                self.stack_empty(),
                *self == *old(self),
                forall|b2: int, x2: int, y2: int, d: int|
                    0 <= b2 < b && 0 <= x2 < 3 && 0 <= y2 < 3 ==> !(#[trigger] intersection_applies(
                        old(self).cells@,
                        b2,
                        x2,
                        y2,
                        d,
                    )),
            decreases 6 - b,
        {
            let trio_mat = self.get_trio_mat(b);
            let mut x: usize = 0;
            while x < 3
                invariant
                    x <= 3,
                    b < 6,
                    self.wf(),
                    self.stack_empty(),
                    *self == *old(self),
                    trio_mat@.len() == 9,
                    forall|k: int|
                        0 <= k < 9 ==> (#[trigger] trio_mat@[k]).inv() && !trio_mat@[k].solved,
                    forall|k: int, d: int|
                        0 <= k < 9 ==> ((#[trigger] trio_mat@[k].has(d)) <==> triple_digit(
                            old(self).cells@,
                            b as int,
                            k / 3,
                            k % 3,
                            d,
                        )),
                    forall|b2: int, x2: int, y2: int, d: int|
                        0 <= b2 < 6 && 0 <= x2 < 3 && 0 <= y2 < 3 && (b2 < b || (b2 == b && x2 < x))
                            ==> !(#[trigger] intersection_applies(
                            old(self).cells@,
                            b2,
                            x2,
                            y2,
                            d,
                        )),
                decreases 3 - x,
            {
                let mut y: usize = 0;
                while y < 3
                    invariant
                        x < 3,
                        y <= 3,
                        b < 6,
                        self.wf(),
                        self.stack_empty(),
                        *self == *old(self),
                        trio_mat@.len() == 9,
                        forall|k: int|
                            0 <= k < 9 ==> (#[trigger] trio_mat@[k]).inv() && !trio_mat@[k].solved,
                        forall|k: int, d: int|
                            0 <= k < 9 ==> ((#[trigger] trio_mat@[k].has(d)) <==> triple_digit(
                                old(self).cells@,
                                b as int,
                                k / 3,
                                k % 3,
                                d,
                            )),
                        forall|b2: int, x2: int, y2: int, d: int|
                            0 <= b2 < 6 && 0 <= x2 < 3 && 0 <= y2 < 3 && (b2 < b || (b2 == b && (x2
                                < x || (x2 == x && y2 < y)))) ==> !(
                            #[trigger] intersection_applies(old(self).cells@, b2, x2, y2, d)),
                    decreases 3 - y,
                {
                    let trio = trio_mat[x * 3 + y];
                    let nx1 = (x + 1) % 3;
                    let nx2 = (x + 2) % 3;
                    let ny1 = (y + 1) % 3;
                    let ny2 = (y + 2) % 3;
                    let other_box = trio_mat[nx1 * 3 + y].union(trio_mat[nx2 * 3 + y]);
                    let other_sec = trio_mat[x * 3 + ny1].union(trio_mat[x * 3 + ny2]);
                    let ds = trio.intersect(other_box.xor(other_sec));
                    let ds_box = ds.intersect(other_box);
                    let ds_sec = ds.intersect(other_sec);
                    proof {
                        assert forall|d: int| #[trigger] ds_box.has(d) implies triple_digit(
                            self.cells@,
                            b as int,
                            x as int,
                            y as int,
                            d,
                        ) by {
                            assert(ds.has(d));
                            assert(trio.has(d));
                            assert((x * 3 + y) as int / 3 == x as int && (x * 3 + y) as int % 3
                                == y as int);
                            assert(trio_mat@[(x * 3 + y) as int].has(d));
                        }
                        assert forall|d: int| #[trigger] ds_sec.has(d) implies triple_digit(
                            self.cells@,
                            b as int,
                            x as int,
                            y as int,
                            d,
                        ) by {
                            assert(ds.has(d));
                            assert(trio.has(d));
                            assert((x * 3 + y) as int / 3 == x as int && (x * 3 + y) as int % 3
                                == y as int);
                            assert(trio_mat@[(x * 3 + y) as int].has(d));
                        }
                    }
                    let mut r2 = false;
                    if ds_box.has_digits() {
                        r2 = self.handle_intersection(
                            EntryType::BoxLineReduction,
                            b,
                            ds_box,
                            x,
                            y,
                            nx1,
                            nx2,
                        );
                    }
                    let ghost mid = *self;
                    proof {
                        crate::sudoku::lemma_board_monotone_refl(old(self).cells@);
                        assert(board_monotone(old(self).cells@, mid.cells@));
                        assert forall|d: int| #[trigger] ds_sec.has(d) implies triple_digit(
                            mid.cells@,
                            b as int,
                            x as int,
                            y as int,
                            d,
                        ) by {
                            assert(triple_digit(
                                old(self).cells@,
                                b as int,
                                x as int,
                                y as int,
                                d,
                            ));
                            let c0 = choose|c: int|
                                0 <= c < 3 && !old(self).cells@[bd_cell(
                                    b as int,
                                    x as int,
                                    y as int,
                                    c,
                                )].solved && old(self).cells@[#[trigger] bd_cell(
                                    b as int,
                                    x as int,
                                    y as int,
                                    c,
                                )].has(d);
                            assert(mid.cells@[bd_cell(b as int, x as int, y as int, c0)] == old(
                                self,
                            ).cells@[bd_cell(b as int, x as int, y as int, c0)]);
                        }
                    }
                    if ds_sec.has_digits() {
                        let r3 = self.handle_intersection(
                            EntryType::PointedGroup,
                            b,
                            ds_sec,
                            x,
                            y,
                            ny1,
                            ny2,
                        );
                        r2 = r3 || r2;
                        proof {
                            lemma_board_monotone_trans(old(self).cells@, mid.cells@, self.cells@);
                            assert forall|i2: int, d: int|
                                0 <= i2 < 81 && (#[trigger] old(self).cells@[i2].has(d)) && !(
                                #[trigger] self.cells@[i2].has(d)) implies elimination_witness(
                                old(self).cells@,
                                i2,
                                d,
                            ) by {
                                if mid.cells@[i2].has(d) {
                                    assert(elimination_witness(mid.cells@, i2, d));
                                    let j0 = choose|j: int|
                                        0 <= j < 81 && j != i2 && peers(j, i2) && !(
                                        #[trigger] mid.cells@[j]).solved && mid.cells@[j].has(d);
                                    assert(cell_monotone(old(self).cells@[j0], mid.cells@[j0]));
                                    if old(self).cells@[j0].solved {
                                        assert(mid.cells@[j0] == old(self).cells@[j0]);
                                    }
                                    assert(!old(self).cells@[j0].solved);
                                    assert(old(self).cells@[j0].has(d));
                                }
                            }
                        }
                    }
                    if r2 {
                        proof {
                            assert forall|k: int|
                                old(self).history@.len() <= k < self.history@.len() implies (
                            #[trigger] self.history@[k]).name == EntryType::PointedGroup
                                || self.history@[k].name == EntryType::BoxLineReduction by {
                                if k < mid.history@.len() {
                                    assert(mid.history@.is_prefix_of(self.history@));
                                    assert(self.history@[k] == mid.history@[k]);
                                    assert(mid.history@[k] == mid.history@.last());
                                } else {
                                    assert(self.history@[k] == self.history@.last());
                                }
                            }
                            let d0 = choose|d: int| ds_box.has(d) || ds_sec.has(d);
                            assert((x * 3 + y) as int / 3 == x as int && (x * 3 + y) as int % 3
                                == y as int);
                            assert((nx1 * 3 + y) as int / 3 == nx1 as int && (nx1 * 3 + y) as int
                                % 3 == y as int);
                            assert((nx2 * 3 + y) as int / 3 == nx2 as int && (nx2 * 3 + y) as int
                                % 3 == y as int);
                            assert((x * 3 + ny1) as int / 3 == x as int && (x * 3 + ny1) as int % 3
                                == ny1 as int);
                            assert((x * 3 + ny2) as int / 3 == x as int && (x * 3 + ny2) as int % 3
                                == ny2 as int);
                            assert(nx1 as int == (x as int + 1) % 3 && nx2 as int == (x as int + 2)
                                % 3);
                            assert(ny1 as int == (y as int + 1) % 3 && ny2 as int == (y as int + 2)
                                % 3);
                            assert(intersection_applies(
                                old(self).cells@,
                                b as int,
                                x as int,
                                y as int,
                                d0,
                            ));
                        }
                        return true;
                    }
                    proof {
                        assert forall|d: int| !(#[trigger] intersection_applies(
                            old(self).cells@,
                            b as int,
                            x as int,
                            y as int,
                            d,
                        )) by {
                            if intersection_applies(old(self).cells@, b as int, x as int, y as int, d) {
                                assert((x * 3 + y) as int / 3 == x as int && (x * 3 + y) as int % 3
                                    == y as int);
                                assert((nx1 * 3 + y) as int / 3 == nx1 as int && (nx1 * 3 + y) as int
                                    % 3 == y as int);
                                assert((nx2 * 3 + y) as int / 3 == nx2 as int && (nx2 * 3 + y) as int
                                    % 3 == y as int);
                                assert((x * 3 + ny1) as int / 3 == x as int && (x * 3 + ny1) as int
                                    % 3 == ny1 as int);
                                assert((x * 3 + ny2) as int / 3 == x as int && (x * 3 + ny2) as int
                                    % 3 == ny2 as int);
                                assert(nx1 as int == (x as int + 1) % 3 && nx2 as int == (x as int
                                    + 2) % 3);
                                assert(ny1 as int == (y as int + 1) % 3 && ny2 as int == (y as int
                                    + 2) % 3);
                                assert(trio.has(d));
                                assert(other_box.has(d) != other_sec.has(d));
                                if other_box.has(d) {
                                    assert(ds_box.has(d));
                                } else {
                                    assert(ds_sec.has(d));
                                }
                                assert(false);
                            }
                        }
                    }
                    y = y + 1;
                }
                x = x + 1;
            }
            b = b + 1;
        }
        proof {
            crate::sudoku::lemma_board_monotone_refl(self.cells@);
        }
        false
    }

    // The nine triple accumulators of one box division: the union of the
    // unsolved cells of each row- or column-aligned triple.
    fn get_trio_mat(&self, b: usize) -> (r: Vec<Cell>)
        requires
            self.wf(),
            b < 6,
        ensures
            r@.len() == 9,
            forall|k: int| 0 <= k < 9 ==> (#[trigger] r@[k]).inv() && !r@[k].solved && r@[k].count_off(),
            forall|k: int, d: int|
                0 <= k < 9 ==> ((#[trigger] r@[k].has(d)) <==> triple_digit(
                    self.cells@,
                    b as int,
                    k / 3,
                    k % 3,
                    d,
                )),
    {
        let mut r: Vec<Cell> = Vec::new();
        let mut x: usize = 0;
        while x < 3
            invariant
                x <= 3,
                b < 6,
                self.wf(),
                r@.len() == 3 * x,
                forall|k: int|
                    0 <= k < r@.len() ==> (#[trigger] r@[k]).inv() && !r@[k].solved
                        && r@[k].count_off(),
                forall|k: int, d: int|
                    0 <= k < r@.len() ==> ((#[trigger] r@[k].has(d)) <==> triple_digit(
                        self.cells@,
                        b as int,
                        k / 3,
                        k % 3,
                        d,
                    )),
            decreases 3 - x,
        {
            let mut y: usize = 0;
            while y < 3
                invariant
                    x < 3,
                    y <= 3,
                    b < 6,
                    self.wf(),
                    r@.len() == 3 * x + y,
                    forall|k: int|
                        0 <= k < r@.len() ==> (#[trigger] r@[k]).inv() && !r@[k].solved
                            && r@[k].count_off(),
                    forall|k: int, d: int|
                        0 <= k < r@.len() ==> ((#[trigger] r@[k].has(d)) <==> triple_digit(
                            self.cells@,
                            b as int,
                            k / 3,
                            k % 3,
                            d,
                        )),
                decreases 3 - y,
            {
                let mut acc = Cell::acc();
                let mut ci: usize = 0;
                while ci < 3
                    invariant
                        x < 3,
                        y < 3,
                        ci <= 3,
                        b < 6,
                        self.wf(),
                        acc.inv(),
                        !acc.solved,
                        acc.count_off(),
                        forall|d: int|
                            (#[trigger] acc.has(d)) <==> exists|c: int|
                                0 <= c < ci && !self.cells@[bd_cell(
                                    b as int,
                                    x as int,
                                    y as int,
                                    c,
                                )].solved && self.cells@[#[trigger] bd_cell(
                                    b as int,
                                    x as int,
                                    y as int,
                                    c,
                                )].has(d),
                    decreases 3 - ci,
                {
                    let ghost acc0 = acc;
                    let idx = bd_index(b, x, y, ci);
                    let cell = self.cells[idx];
                    if !cell.is_solved() {
                        acc.union_with(cell);
                    }
                    proof {
                        assert forall|d: int| (#[trigger] acc.has(d)) implies exists|c: int|
                            0 <= c < ci + 1 && !self.cells@[bd_cell(
                                b as int,
                                x as int,
                                y as int,
                                c,
                            )].solved && self.cells@[#[trigger] bd_cell(
                                b as int,
                                x as int,
                                y as int,
                                c,
                            )].has(d) by {
                            if acc0.has(d) {
                                let c0 = choose|c: int|
                                    0 <= c < ci && !self.cells@[bd_cell(
                                        b as int,
                                        x as int,
                                        y as int,
                                        c,
                                    )].solved && self.cells@[#[trigger] bd_cell(
                                        b as int,
                                        x as int,
                                        y as int,
                                        c,
                                    )].has(d);
                                assert(self.cells@[bd_cell(b as int, x as int, y as int, c0)].has(
                                    d,
                                ));
                            } else {
                                assert(self.cells@[bd_cell(
                                    b as int,
                                    x as int,
                                    y as int,
                                    ci as int,
                                )].has(d));
                            }
                        }
                        assert forall|d: int|
                            (exists|c: int|
                                0 <= c < ci + 1 && !self.cells@[bd_cell(
                                    b as int,
                                    x as int,
                                    y as int,
                                    c,
                                )].solved && self.cells@[#[trigger] bd_cell(
                                    b as int,
                                    x as int,
                                    y as int,
                                    c,
                                )].has(d)) implies (#[trigger] acc.has(d)) by {
                            let c0 = choose|c: int|
                                0 <= c < ci + 1 && !self.cells@[bd_cell(
                                    b as int,
                                    x as int,
                                    y as int,
                                    c,
                                )].solved && self.cells@[#[trigger] bd_cell(
                                    b as int,
                                    x as int,
                                    y as int,
                                    c,
                                )].has(d);
                            if c0 < ci {
                                assert(acc0.has(d));
                            }
                        }
                    }
                    ci = ci + 1;
                }
                proof {
                    assert((3 * x + y) as int / 3 == x as int && (3 * x + y) as int % 3
                        == y as int);
                }
                r.push(acc);
                y = y + 1;
            }
            x = x + 1;
        }
        r
    }

    // Applies one detected intersection: removes the digit set `ds` from
    // the two triples on the far side of the overlap and logs the change.
    #[verifier::rlimit(100)]
    fn handle_intersection(
        &mut self,
        name: EntryType,
        b: usize,
        ds: Cell,
        x: usize,
        y: usize,
        id1: usize,
        id2: usize,
    ) -> (r: bool)
        requires
            old(self).wf(),
            old(self).stack_empty(),
            b < 6,
            x < 3,
            y < 3,
            id1 < 3,
            id2 < 3,
            ds.inv(),
            !ds.solved,
            name == EntryType::BoxLineReduction || name == EntryType::PointedGroup,
            name == EntryType::BoxLineReduction ==> id1 != x && id2 != x,
            name == EntryType::PointedGroup ==> id1 != y && id2 != y,
            id1 != id2,
            forall|d: int|
                #[trigger] ds.has(d) ==> triple_digit(
                    old(self).cells@,
                    b as int,
                    x as int,
                    y as int,
                    d,
                ),
        ensures
            final(self).wf(),
            final(self).stack_empty(),
            final(self).sections == old(self).sections,
            final(self).section_digit_sum == old(self).section_digit_sum,
            final(self).solved_cell_checked == old(self).solved_cell_checked,
            old(self).history@.is_prefix_of(final(self).history@),
            board_monotone(old(self).cells@, final(self).cells@),
            pot_to(final(self).cells@, 81) <= pot_to(old(self).cells@, 81),
            r ==> pot_to(final(self).cells@, 81) < pot_to(old(self).cells@, 81),
            r ==> final(self).history@.len() == old(self).history@.len() + 1
                && final(self).history@.last().name == name
                && final(self).history@.last().digits == ds && from_source_trio(
                final(self).history@.last().cells@,
                b as int,
                x as int,
                y as int,
            ),
            !r ==> *final(self) == *old(self),
            forall|i: int|
                0 <= i < 81 ==> (#[trigger] final(self).cells@[i]).solved == old(self).cells@[
                    i
                ].solved,
            forall|i: int, d: int|
                0 <= i < 81 && (#[trigger] old(self).cells@[i].has(d))
                    && !(#[trigger] final(self).cells@[i].has(d)) ==> ds.has(d),
            forall|i: int, d: int|
                0 <= i < 81 && (#[trigger] old(self).cells@[i].has(d))
                    && !(#[trigger] final(self).cells@[i].has(d)) ==> elimination_witness(
                    old(self).cells@,
                    i,
                    d,
                ),
            forall|c: int|
                0 <= c < 3 ==> final(self).cells@[#[trigger] bd_cell(
                    b as int,
                    x as int,
                    y as int,
                    c,
                )] == old(self).cells@[bd_cell(b as int, x as int, y as int, c)],
            name == EntryType::BoxLineReduction ==> (forall|d: int|
                #[trigger] ds.has(d) ==> !triple_digit(
                    final(self).cells@,
                    b as int,
                    id1 as int,
                    y as int,
                    d,
                ) && !triple_digit(final(self).cells@, b as int, id2 as int, y as int, d)),
            name == EntryType::PointedGroup ==> (forall|d: int|
                #[trigger] ds.has(d) ==> !triple_digit(
                    final(self).cells@,
                    b as int,
                    x as int,
                    id1 as int,
                    d,
                ) && !triple_digit(final(self).cells@, b as int, x as int, id2 as int, d)),
    {
        proof {
            crate::sudoku::lemma_board_monotone_refl(self.cells@);
        }
        let ghost tp = if name == EntryType::BoxLineReduction {
            seq![(id1 as int, y as int), (id2 as int, y as int)]
        } else {
            seq![(x as int, id1 as int), (x as int, id2 as int)]
        };
        proof {
            assert(tp[0].0 != tp[1].0 || tp[0].1 != tp[1].1);
        }
        let mut idx: usize = 0;
        while idx < 2
            invariant
                idx <= 2,
                b < 6,
                x < 3,
                y < 3,
                id1 < 3,
                id2 < 3,
                ds.inv(),
                !ds.solved,
                self.wf(),
                self.sections == old(self).sections,
                self.section_digit_sum == old(self).section_digit_sum,
                self.solved_cell_checked == old(self).solved_cell_checked,
                self.history == old(self).history,
                board_monotone(old(self).cells@, self.cells@),
                pot_to(self.cells@, 81) <= pot_to(old(self).cells@, 81),
                old(self).cell_change_stack@.is_prefix_of(self.cell_change_stack@),
                !self.stack_empty() ==> pot_to(self.cells@, 81) < pot_to(old(self).cells@, 81),
                self.stack_empty() ==> *self == *old(self),
                forall|k: int|
                    0 <= k < 81 ==> (#[trigger] self.cells@[k]).solved == old(self).cells@[
                        k
                    ].solved,
                forall|i: int, d: int|
                    0 <= i < 81 && (#[trigger] old(self).cells@[i].has(d))
                        && !(#[trigger] self.cells@[i].has(d)) ==> ds.has(d),
                forall|i: int, d: int|
                    0 <= i < 81 && (#[trigger] old(self).cells@[i].has(d))
                        && !(#[trigger] self.cells@[i].has(d)) ==> elimination_witness(
                        old(self).cells@,
                        i,
                        d,
                    ),
                forall|c: int|
                    0 <= c < 3 ==> self.cells@[#[trigger] bd_cell(
                        b as int,
                        x as int,
                        y as int,
                        c,
                    )] == old(self).cells@[bd_cell(b as int, x as int, y as int, c)],
                forall|d: int|
                    #[trigger] ds.has(d) ==> triple_digit(
                        old(self).cells@,
                        b as int,
                        x as int,
                        y as int,
                        d,
                    ),
                name == EntryType::BoxLineReduction ==> id1 != x && id2 != x,
                name == EntryType::PointedGroup ==> id1 != y && id2 != y,
                name == EntryType::BoxLineReduction || name == EntryType::PointedGroup,
                tp.len() == 2,
                0 <= tp[0].0 < 3 && 0 <= tp[0].1 < 3 && 0 <= tp[1].0 < 3 && 0 <= tp[1].1 < 3,
                name == EntryType::BoxLineReduction ==> tp[0] == (id1 as int, y as int) && tp[1]
                    == (id2 as int, y as int),
                name == EntryType::PointedGroup ==> tp[0] == (x as int, id1 as int) && tp[1] == (
                x as int,
                id2 as int,
                ),
                forall|p: int, d: int|
                    0 <= p < idx && #[trigger] ds.has(d) ==> !triple_digit(
                        self.cells@,
                        b as int,
                        (#[trigger] tp[p]).0,
                        tp[p].1,
                        d,
                    ),
            decreases 2 - idx,
        {
            let here = if idx == 0 {
                id1
            } else {
                id2
            };
            let (i, j) = if matches!(name, EntryType::BoxLineReduction) {
                (here, y)
            } else {
                (x, here)
            };
            let mut cpos: usize = 0;
            while cpos < 3
                invariant
                    cpos <= 3,
                    b < 6,
                    i < 3,
                    j < 3,
                    ds.inv(),
                    !ds.solved,
                    self.wf(),
                    self.sections == old(self).sections,
                    self.section_digit_sum == old(self).section_digit_sum,
                    self.solved_cell_checked == old(self).solved_cell_checked,
                    self.history == old(self).history,
                    board_monotone(old(self).cells@, self.cells@),
                    pot_to(self.cells@, 81) <= pot_to(old(self).cells@, 81),
                    old(self).cell_change_stack@.is_prefix_of(self.cell_change_stack@),
                    !self.stack_empty() ==> pot_to(self.cells@, 81) < pot_to(old(self).cells@, 81),
                    self.stack_empty() ==> *self == *old(self),
                    forall|k: int|
                        0 <= k < 81 ==> (#[trigger] self.cells@[k]).solved == old(self).cells@[
                            k
                        ].solved,
                    forall|i: int, d: int|
                        0 <= i < 81 && (#[trigger] old(self).cells@[i].has(d))
                            && !(#[trigger] self.cells@[i].has(d)) ==> ds.has(d),
                    forall|i: int, d: int|
                        0 <= i < 81 && (#[trigger] old(self).cells@[i].has(d))
                            && !(#[trigger] self.cells@[i].has(d)) ==> elimination_witness(
                            old(self).cells@,
                            i,
                            d,
                        ),
                    forall|c: int|
                        0 <= c < 3 ==> self.cells@[#[trigger] bd_cell(
                            b as int,
                            x as int,
                            y as int,
                            c,
                        )] == old(self).cells@[bd_cell(b as int, x as int, y as int, c)],
                    forall|d: int|
                        #[trigger] ds.has(d) ==> triple_digit(
                            old(self).cells@,
                            b as int,
                            x as int,
                            y as int,
                            d,
                        ),
                    x < 3,
                    y < 3,
                    name == EntryType::BoxLineReduction || name == EntryType::PointedGroup,
                    name == EntryType::BoxLineReduction ==> i != x && j == y,
                    name == EntryType::PointedGroup ==> i == x && j != y,
                    idx < 2,
                    tp.len() == 2,
                    tp[idx as int] == (i as int, j as int),
                    0 <= tp[0].0 < 3 && 0 <= tp[0].1 < 3 && 0 <= tp[1].0 < 3 && 0 <= tp[1].1 < 3,
                    forall|p: int, d: int|
                        0 <= p < idx && #[trigger] ds.has(d) ==> !triple_digit(
                            self.cells@,
                            b as int,
                            (#[trigger] tp[p]).0,
                            tp[p].1,
                            d,
                        ),
                    forall|c: int, d: int|
                        #![trigger ds.has(d), bd_cell(b as int, i as int, j as int, c)]
                        0 <= c < cpos && ds.has(d) ==> (self.cells@[bd_cell(
                            b as int,
                            i as int,
                            j as int,
                            c,
                        )].solved || !self.cells@[bd_cell(b as int, i as int, j as int, c)].has(
                            d,
                        )),
                decreases 3 - cpos,
            {
                let cid = bd_index(b, i, j, cpos);
                let mut cell = self.cells[cid];
                if !cell.is_solved() {
                    proof {
                        crate::cell::lemma_counted_on(cell);
                    }
                    let ch = cell.remove_digits(ds);
                    if ch {
                        let ghost pre = self.cells@;
                        self.cells[cid] = cell;
                        proof {
                            assert(cell_monotone(pre[cid as int], cell));
                            lemma_board_monotone_step(old(self).cells@, pre, cid as int, cell);
                            lemma_pot_update(pre, cid as int, cell, 81);
                            assert forall|i2: int, d: int|
                                0 <= i2 < 81 && (#[trigger] old(self).cells@[i2].has(d)) && !(
                                #[trigger] self.cells@[i2].has(d)) implies elimination_witness(
                                old(self).cells@,
                                i2,
                                d,
                            ) by {
                                if pre[i2].has(d) {
                                    assert(i2 == cid as int);
                                    assert(ds.has(d));
                                    lemma_intersection_witness(
                                        old(self).cells@,
                                        b as int,
                                        x as int,
                                        y as int,
                                        i as int,
                                        j as int,
                                        cpos as int,
                                        d,
                                        name == EntryType::BoxLineReduction,
                                    );
                                }
                            }
                            assert forall|p: int, d: int|
                                0 <= p < idx && #[trigger] ds.has(d) implies !triple_digit(
                                self.cells@,
                                b as int,
                                (#[trigger] tp[p]).0,
                                tp[p].1,
                                d,
                            ) by {
                                lemma_triple_stays_clean(
                                    pre,
                                    self.cells@,
                                    cid as int,
                                    ds,
                                    b as int,
                                    tp[p].0,
                                    tp[p].1,
                                    d,
                                );
                            }
                            assert forall|c: int, d: int|
                                #![trigger ds.has(d), bd_cell(b as int, i as int, j as int, c)]
                                0 <= c < cpos && ds.has(d) implies (self.cells@[bd_cell(
                                b as int,
                                i as int,
                                j as int,
                                c,
                            )].solved || !self.cells@[bd_cell(b as int, i as int, j as int, c)].has(
                                d,
                            )) by {
                                lemma_bd_coords(b as int, i as int, j as int, c);
                                lemma_slot_stays_clean(
                                    pre,
                                    self.cells@,
                                    cid as int,
                                    ds,
                                    bd_cell(b as int, i as int, j as int, c),
                                    d,
                                );
                            }
                        }
                        self.register_change(cid);
                    }
                }
                proof {
                    assert forall|c: int, d: int|
                        #![trigger ds.has(d), bd_cell(b as int, i as int, j as int, c)]
                        0 <= c < cpos + 1 && ds.has(d) implies (self.cells@[bd_cell(
                        b as int,
                        i as int,
                        j as int,
                        c,
                    )].solved || !self.cells@[bd_cell(b as int, i as int, j as int, c)].has(
                        d,
                    )) by {
                        if c == cpos as int {
                            assert(bd_cell(b as int, i as int, j as int, c) == cid as int);
                        }
                    }
                }
                cpos = cpos + 1;
            }
            proof {
                assert forall|d: int| #[trigger] ds.has(d) implies !triple_digit(
                    self.cells@,
                    b as int,
                    i as int,
                    j as int,
                    d,
                ) by {
                    if triple_digit(self.cells@, b as int, i as int, j as int, d) {
                        let c0 = choose|c: int|
                            0 <= c < 3 && !self.cells@[bd_cell(
                                b as int,
                                i as int,
                                j as int,
                                c,
                            )].solved && self.cells@[#[trigger] bd_cell(
                                b as int,
                                i as int,
                                j as int,
                                c,
                            )].has(d);
                        assert(self.cells@[bd_cell(b as int, i as int, j as int, c0)].solved
                            || !self.cells@[bd_cell(b as int, i as int, j as int, c0)].has(d));
                    }
                }
            }
            idx = idx + 1;
        }
        let r = self.has_changes();
        if r {
            let mut v: Vec<usize> = Vec::new();
            let mut c: usize = 0;
            while c < 3
                invariant
                    c <= 3,
                    b < 6,
                    x < 3,
                    y < 3,
                    ds.inv(),
                    self.wf(),
                    from_source_trio(v@, b as int, x as int, y as int),
                decreases 3 - c,
            {
                let cid = bd_index(b, x, y, c);
                let cell = self.cells[cid];
                if !cell.is_solved() && ds.has_intersection(cell) {
                    v.push(cid);
                    proof {
                        assert(v@[v@.len() - 1] == bd_cell(b as int, x as int, y as int, c as int));
                    }
                }
                c = c + 1;
            }
            let ghost vv = v@;
            self.add_history_entry(name, v, ds);
            proof {
                assert(self.history@.last().cells@ == vv);
                assert(from_source_trio(
                    self.history@.last().cells@,
                    b as int,
                    x as int,
                    y as int,
                ));
            }
        }
        r
    }
}

} // verus!
