//! One board position: a packed candidate-set / solved-value cell.
//!
//! A cell is either solved, holding a single value in `num` (0 meaning "no
//! valid digit could be placed"), or unsolved, holding a set of candidate
//! digits from 1 to 9 in `mask` together with a cached count of that set.
//! The count may be switched off for accumulator cells built by repeated
//! unions, where maintaining it would be wasted work.

use vstd::prelude::*;

verus! {

/// Width of the scalar values a cell hands out: digits, counts and masks.
pub type CellSize = u16;

/// Sentinel stored in `count` when the count of an unsolved cell is not
/// being maintained.
pub const COUNT_OFF: u16 = 15;

/// Bits 1 through 9, one for each digit (bit position `d` holds digit `d`).
pub const DIGIT_BITS: u16 = 0x03FE;

/// True when bit `d` of `m` is set.
pub open spec fn bit_set(m: u16, d: u16) -> bool {
    (m >> d) & 1u16 == 1u16
}

/// A mask in canonical form uses only the digit bits 1 through 9.
pub open spec fn mask_canon(m: u16) -> bool {
    m & !DIGIT_BITS == 0u16
}

/// Number of digits 1..=d present in `m`.
pub open spec fn count_to(m: u16, d: int) -> nat
    decreases d,
{
    if d <= 0 {
        0
    } else {
        count_to(m, d - 1) + (if bit_set(m, d as u16) { 1nat } else { 0nat })
    }
}

proof fn lemma_bit_or(a: u16, b: u16)
    by (bit_vector)
    ensures
        forall|d: u16| #![auto] d < 16 ==> bit_set(a | b, d) == (bit_set(a, d) || bit_set(b, d)),
        mask_canon(a) && mask_canon(b) ==> mask_canon(a | b),
{
}

proof fn lemma_bit_and(a: u16, b: u16)
    by (bit_vector)
    ensures
        forall|d: u16| #![auto] d < 16 ==> bit_set(a & b, d) == (bit_set(a, d) && bit_set(b, d)),
        mask_canon(a) ==> mask_canon(a & b),
{
}

proof fn lemma_bit_xor(a: u16, b: u16)
    by (bit_vector)
    ensures
        forall|d: u16| #![auto] d < 16 ==> bit_set(a ^ b, d) == (bit_set(a, d) != bit_set(b, d)),
        mask_canon(a) && mask_canon(b) ==> mask_canon(a ^ b),
{
}

proof fn lemma_bit_not(a: u16)
    by (bit_vector)
    ensures
        forall|d: u16| #![auto] d < 16 ==> bit_set(!a & DIGIT_BITS, d) == (1 <= d <= 9
            && !bit_set(a, d)),
        mask_canon(!a & DIGIT_BITS),
{
}

proof fn lemma_bit_single(d: u16)
    by (bit_vector)
    requires
        1 <= d <= 9,
    ensures
        forall|e: u16| #![auto] e < 16 ==> bit_set(1u16 << d, e) == (e == d),
        mask_canon(1u16 << d),
{
}

proof fn lemma_bit_zero()
    by (bit_vector)
    ensures
        forall|d: u16| #![auto] d < 16 ==> !bit_set(0u16, d),
        mask_canon(0u16),
{
}

proof fn lemma_bit_full()
    by (bit_vector)
    ensures
        forall|d: u16| #![auto] d < 16 ==> bit_set(DIGIT_BITS, d) == (1 <= d <= 9),
        mask_canon(DIGIT_BITS),
{
}

proof fn lemma_bit_add(a: u16, d: u16)
    by (bit_vector)
    requires
        1 <= d <= 9,
    ensures
        forall|e: u16| #![auto] e < 16 ==> bit_set(a | (1u16 << d), e) == (bit_set(a, e) || e
            == d),
        mask_canon(a) ==> mask_canon(a | (1u16 << d)),
{
}

proof fn lemma_bit_remove(a: u16, d: u16)
    by (bit_vector)
    requires
        1 <= d <= 9,
    ensures
        forall|e: u16| #![auto] e < 16 ==> bit_set(a & !(1u16 << d), e) == (bit_set(a, e) && e
            != d),
        mask_canon(a) ==> mask_canon(a & !(1u16 << d)),
{
}

/// Two canonical masks holding the same digits are the same value.
proof fn lemma_mask_ext(a: u16, b: u16)
    by (bit_vector)
    requires
        mask_canon(a),
        mask_canon(b),
        bit_set(a, 1) == bit_set(b, 1),
        bit_set(a, 2) == bit_set(b, 2),
        bit_set(a, 3) == bit_set(b, 3),
        bit_set(a, 4) == bit_set(b, 4),
        bit_set(a, 5) == bit_set(b, 5),
        bit_set(a, 6) == bit_set(b, 6),
        bit_set(a, 7) == bit_set(b, 7),
        bit_set(a, 8) == bit_set(b, 8),
        bit_set(a, 9) == bit_set(b, 9),
    ensures
        a == b,
{
}

proof fn lemma_count_le(m: u16, d: int)
    ensures
        count_to(m, d) <= (if d >= 0 { d } else { 0 }),
    decreases d,
{
    if d > 0 {
        lemma_count_le(m, d - 1);
    }
}

proof fn lemma_count_agree(a: u16, b: u16, d: int)
    requires
        d <= 9,
        forall|e: u16| 1 <= e as int <= d ==> #[trigger] bit_set(a, e) == bit_set(b, e),
    ensures
        count_to(a, d) == count_to(b, d),
    decreases d,
{
    if d > 0 {
        lemma_count_agree(a, b, d - 1);
    }
}

/// Removing one present digit from a mask lowers its count by exactly one.
proof fn lemma_count_drop(a: u16, b: u16, j: u16, d: int)
    requires
        d <= 9,
        1 <= j <= 9,
        bit_set(a, j),
        !bit_set(b, j),
        forall|e: u16| 1 <= e as int <= d && e != j ==> #[trigger] bit_set(a, e) == bit_set(b, e),
    ensures
        count_to(a, d) == count_to(b, d) + (if j as int <= d { 1int } else { 0int }),
    decreases d,
{
    if d > 0 {
        lemma_count_drop(a, b, j, d - 1);
    }
}

proof fn lemma_count_none(m: u16, d: int)
    requires
        d <= 9,
        forall|e: u16| 1 <= e as int <= d ==> !(#[trigger] bit_set(m, e)),
    ensures
        count_to(m, d) == 0,
    decreases d,
{
    if d > 0 {
        lemma_count_none(m, d - 1);
    }
}

proof fn lemma_count_subset(a: u16, b: u16, d: int)
    requires
        d <= 9,
        forall|e: u16| 1 <= e as int <= d && #[trigger] bit_set(a, e) ==> bit_set(b, e),
    ensures
        count_to(a, d) <= count_to(b, d),
    decreases d,
{
    if d > 0 {
        lemma_count_subset(a, b, d - 1);
    }
}

/// One sudoku cell.
#[derive(Debug, Clone, Copy)]
pub struct Cell {
    /// Whether the cell has been committed to a single value.
    pub solved: bool,
    /// The committed value, 0 through 9; 0 both for unsolved cells and for
    /// cells solved to "no valid digit".
    pub num: u16,
    /// Candidate digits, one bit per digit at positions 1 through 9.
    pub mask: u16,
    /// Cached size of the candidate set, or `COUNT_OFF`.
    pub count: u16,
}

impl Cell {
    /// The digit `d` is a candidate of this cell (or, for a solved cell, its value).
    pub open spec fn has(self, d: int) -> bool {
        1 <= d <= 9 && bit_set(self.mask, d as u16)
    }

    /// Size of the candidate set.
    pub open spec fn cand_count(self) -> nat {
        count_to(self.mask, 9)
    }

    /// The cached count is switched off.
    pub open spec fn count_off(self) -> bool {
        self.count == COUNT_OFF
    }

    /// The cached count agrees with the candidate set.
    pub open spec fn counted(self) -> bool {
        self.count as nat == self.cand_count()
    }

    /// The value this cell reports: its solution, or 0 while unsolved.
    pub open spec fn spec_number(self) -> u16 {
        if self.solved {
            self.num
        } else {
            0
        }
    }

    /// Well-formedness: the fields are mutually consistent.
    pub open spec fn inv(self) -> bool {
        &&& mask_canon(self.mask)
        &&& self.num <= 9
        &&& !self.solved ==> self.num == 0
        &&& self.solved ==> (forall|d: int| #[trigger] self.has(d) <==> (self.num != 0 && d
            == self.num))
        &&& self.solved ==> self.counted()
        &&& !self.solved ==> (self.count_off() || self.counted())
    }

    /// A fresh cell holding all nine candidates.
    pub fn full() -> (r: Cell)
        ensures
            r.inv(),
            !r.solved,
            !r.count_off(),
            r.counted(),
            forall|d: int| 1 <= d <= 9 ==> #[trigger] r.has(d),
            r.cand_count() == 9,
    {
        let r = Cell { solved: false, num: 0, mask: DIGIT_BITS, count: 9 };
        proof {
            lemma_bit_full();
            assert forall|d: int| 1 <= d <= 9 implies #[trigger] r.has(d) by {
                assert(bit_set(DIGIT_BITS, d as u16));
            }
            assert(count_to(DIGIT_BITS, 9) == 9) by {
                lemma_count_full_digits();
            }
        }
        r
    }

    /// An unsolved cell with no candidates and count zero.
    pub fn empty() -> (r: Cell)
        ensures
            r.inv(),
            !r.solved,
            !r.count_off(),
            r.counted(),
            forall|d: int| !r.has(d),
            r.cand_count() == 0,
    {
        let r = Cell { solved: false, num: 0, mask: 0, count: 0 };
        proof {
            lemma_bit_zero();
            lemma_count_none(0u16, 9);
        }
        r
    }

    /// An accumulator cell: no candidates yet, count switched off.
    pub fn acc() -> (r: Cell)
        ensures
            r.inv(),
            !r.solved,
            r.count_off(),
            forall|d: int| !r.has(d),
            r.cand_count() == 0,
    {
        let r = Cell { solved: false, num: 0, mask: 0, count: COUNT_OFF };
        proof {
            lemma_bit_zero();
            lemma_count_none(0u16, 9);
        }
        r
    }
}

/// Count of a full candidate mask.
proof fn lemma_count_full_digits()
    ensures
        count_to(DIGIT_BITS, 9) == 9,
{
    lemma_bit_full();
    reveal_with_fuel(count_to, 10);
    assert(count_to(DIGIT_BITS, 9) == 9);
}

impl Cell {
    /// The solved value, or 0 for an unsolved cell.
    pub fn get_number(&self) -> (r: CellSize)
        ensures
            r == self.spec_number(),
    {
        if self.is_solved() {
            self.num
        } else {
            0
        }
    }

    /// Whether the cached count is switched off.
    pub fn count_is_off(&self) -> (r: bool)
        ensures
            r == self.count_off(),
    {
        self.count == COUNT_OFF
    }

    /// Stops maintaining the count; only meaningful on an unsolved cell.
    pub fn turn_count_off(&mut self)
        requires
            !old(self).solved,
        ensures
            final(self).solved == old(self).solved,
            final(self).num == old(self).num,
            final(self).mask == old(self).mask,
            final(self).count_off(),
            old(self).inv() ==> final(self).inv(),
    {
        self.count = COUNT_OFF;
    }

    /// The size of the candidate set; 0 or 1 for a solved cell.
    pub fn get_count(&self) -> (r: CellSize)
        requires
            self.inv(),
            self.solved || !self.count_off(),
        ensures
            r as nat == self.cand_count(),
            r <= 9,
    {
        proof {
            lemma_count_le(self.mask, 9);
        }
        self.count
    }

    // Overwrites the cached count; the caller answers for its accuracy.
    fn set_count(&mut self, c: CellSize)
        requires
            !old(self).solved,
            c <= 9,
        ensures
            final(self).solved == old(self).solved,
            final(self).num == old(self).num,
            final(self).mask == old(self).mask,
            final(self).count == c,
    {
        self.count = c;
    }

    /// Recomputes the count from the candidate bits, switching it back on.
    pub fn reset_count(&mut self)
        requires
            !old(self).solved,
            mask_canon(old(self).mask),
            old(self).num == 0,
        ensures
            final(self).solved == old(self).solved,
            final(self).num == old(self).num,
            final(self).mask == old(self).mask,
            final(self).counted(),
            final(self).inv(),
    {
        let mut c: u16 = 0;
        let mut d: u16 = 1;
        while d <= 9
            invariant
                1 <= d <= 10,
                c as nat == count_to(self.mask, d as int - 1),
                c <= 9,
                !self.solved,
                self.num == old(self).num,
                self.mask == old(self).mask,
            decreases 10 - d,
        {
            proof {
                lemma_count_le(self.mask, d as int);
            }
            if self.has_digit(d) {
                c = c + 1;
            }
            d = d + 1;
        }
        self.set_count(c);
    }

    /// Membership test for a digit 1 through 9.
    pub fn has_digit(&self, digit: CellSize) -> (r: bool)
        requires
            1 <= digit <= 9,
        ensures
            r == self.has(digit as int),
    {
        (self.mask >> digit) & 1 == 1
    }

    /// The candidate bits packed into the low nine bits of the result.
    pub fn get_digits(&self) -> (r: CellSize)
        ensures
            r == self.mask >> 1u16,
            forall|d: u16| 1 <= d <= 9 ==> #[trigger] bit_set(r << 1u16, d) == bit_set(
                self.mask,
                d,
            ) || !mask_canon(self.mask),
    {
        proof {
            lemma_shr1(self.mask);
        }
        self.mask >> 1
    }

    /// Adds a digit to an unsolved cell's candidates; no-op when solved.
    pub fn add_digit(&mut self, digit: CellSize)
        requires
            old(self).inv(),
            1 <= digit <= 9,
        ensures
            final(self).inv(),
            old(self).solved ==> *final(self) == *old(self),
            !old(self).solved ==> {
                &&& final(self).solved == old(self).solved
                &&& final(self).num == old(self).num
                &&& (forall|d: int| final(self).has(d) == (old(self).has(d) || d == digit as int))
                &&& final(self).count_off() == old(self).count_off()
                &&& (old(self).counted() && !old(self).count_off() ==> final(self).counted())
            },
    {
        if self.is_solved() || self.has_digit(digit) {
            return ;
        }
        proof {
            lemma_bit_add(self.mask, digit);
            lemma_count_le(self.mask | (1u16 << digit), 9);
            lemma_count_drop(self.mask | (1u16 << digit), self.mask, digit, 9);
        }
        if !self.count_is_off() {
            let c = self.count;
            self.set_count(c + 1);
        }
        self.mask = self.mask | (1u16 << digit);
    }

    /// Removes a digit from an unsolved cell's candidates; reports whether
    /// anything changed. No-op on a solved cell or an absent digit.
    pub fn remove_digit(&mut self, digit: CellSize) -> (r: bool)
        requires
            old(self).inv(),
            1 <= digit <= 9,
        ensures
            final(self).inv(),
            r == (!old(self).solved && old(self).has(digit as int)),
            !r ==> *final(self) == *old(self),
            r ==> {
                &&& final(self).solved == old(self).solved
                &&& final(self).num == old(self).num
                &&& (forall|d: int| final(self).has(d) == (old(self).has(d) && d != digit as int))
                &&& final(self).count_off() == old(self).count_off()
                &&& (!old(self).count_off() ==> final(self).counted())
                &&& final(self).cand_count() + 1 == old(self).cand_count()
            },
    {
        if self.is_solved() || !self.has_digit(digit) {
            return false;
        }
        proof {
            lemma_bit_remove(self.mask, digit);
            lemma_count_drop(self.mask, self.mask & !(1u16 << digit), digit, 9);
            lemma_count_le(self.mask & !(1u16 << digit), 9);
        }
        if !self.count_is_off() {
            let c = self.count;
            self.set_count(c - 1);
        }
        self.mask = self.mask & !(1u16 << digit);
        true
    }

    /// Whether the cell is committed to a value.
    pub fn is_solved(&self) -> (r: bool)
        ensures
            r == self.solved,
    {
        self.solved
    }
}

proof fn lemma_shr1(m: u16)
    by (bit_vector)
    ensures
        forall|d: u16| 1 <= d <= 9 && mask_canon(m) ==> #[trigger] bit_set((m >> 1u16) << 1u16, d)
            == bit_set(m, d),
{
}

proof fn lemma_mask_nonzero(a: u16)
    by (bit_vector)
    requires
        mask_canon(a),
    ensures
        (a != 0) == (bit_set(a, 1) || bit_set(a, 2) || bit_set(a, 3) || bit_set(a, 4) || bit_set(
            a,
            5,
        ) || bit_set(a, 6) || bit_set(a, 7) || bit_set(a, 8) || bit_set(a, 9)),
{
}

proof fn lemma_inter_nonzero(a: u16, b: u16)
    by (bit_vector)
    ensures
        ((a & b) & DIGIT_BITS != 0) == ((bit_set(a, 1) && bit_set(b, 1)) || (bit_set(a, 2)
            && bit_set(b, 2)) || (bit_set(a, 3) && bit_set(b, 3)) || (bit_set(a, 4) && bit_set(
            b,
            4,
        )) || (bit_set(a, 5) && bit_set(b, 5)) || (bit_set(a, 6) && bit_set(b, 6)) || (bit_set(
            a,
            7,
        ) && bit_set(b, 7)) || (bit_set(a, 8) && bit_set(b, 8)) || (bit_set(a, 9) && bit_set(
            b,
            9,
        ))),
{
}

/// Complementary digit sets split the nine digits between them.
proof fn lemma_inter_none(a: u16, b: u16)
    by (bit_vector)
    requires
        (a & b) & DIGIT_BITS == 0,
    ensures
        forall|d: u16| #![auto] 1 <= d <= 9 ==> !(bit_set(a, d) && bit_set(b, d)),
{
}

proof fn lemma_count_partition(a: u16, b: u16, d: int)
    requires
        d <= 9,
        forall|e: u16| 1 <= e as int <= d ==> #[trigger] bit_set(a, e) == !bit_set(b, e),
    ensures
        count_to(a, d) + count_to(b, d) == (if d >= 0 { d } else { 0 }),
    decreases d,
{
    if d > 0 {
        lemma_count_partition(a, b, d - 1);
    }
}

/// A strict subset of digits has a strictly smaller count.
proof fn lemma_count_strict(a: u16, b: u16, j: u16, d: int)
    requires
        d <= 9,
        forall|e: u16| 1 <= e as int <= d && #[trigger] bit_set(a, e) ==> bit_set(b, e),
        1 <= j,
        j as int <= d,
        bit_set(b, j),
        !bit_set(a, j),
    ensures
        count_to(a, d) < count_to(b, d),
    decreases d,
{
    if j as int == d {
        lemma_count_subset(a, b, d - 1);
    } else {
        lemma_count_strict(a, b, j, d - 1);
    }
}

/// What it means for `r` to be the set-complement of the unsolved cell `c`.
pub open spec fn is_inverse_of(r: Cell, c: Cell) -> bool {
    &&& !r.solved
    &&& r.num == 0
    &&& (forall|d: int| #[trigger] r.has(d) == (1 <= d <= 9 && !c.has(d)))
    &&& r.count_off() == c.count_off()
    &&& (!r.count_off() ==> r.counted())
}

impl Cell {
    /// The set-complement of an unsolved cell's candidates within 1 through 9.
    pub fn inverse(&self) -> (r: Cell)
        requires
            self.inv(),
            !self.solved,
        ensures
            r.inv(),
            is_inverse_of(r, *self),
            r.cand_count() + self.cand_count() == 9,
    {
        let m = !self.mask & DIGIT_BITS;
        proof {
            lemma_bit_not(self.mask);
            lemma_count_partition(m, self.mask, 9);
            lemma_count_le(self.mask, 9);
        }
        if self.count_is_off() {
            Cell { solved: false, num: 0, mask: m, count: COUNT_OFF }
        } else {
            let c = self.get_count();
            Cell { solved: false, num: 0, mask: m, count: 9 - c }
        }
    }

    /// Commits the cell to `digit` (0 standing for "no valid digit"); no-op
    /// when already solved.
    pub fn solve_cell(&mut self, digit: CellSize)
        requires
            old(self).inv(),
            digit <= 9,
            !old(self).solved ==> (digit == 0 || old(self).has(digit as int)),
        ensures
            final(self).inv(),
            old(self).solved ==> *final(self) == *old(self),
            !old(self).solved ==> {
                &&& final(self).solved
                &&& final(self).num == digit
                &&& (forall|d: int| #[trigger] final(self).has(d) <==> (digit != 0 && d
                    == digit as int))
                &&& final(self).counted()
                &&& final(self).cand_count() == (if digit == 0 {
                    0nat
                } else {
                    1nat
                })
            },
    {
        if self.is_solved() {
            return ;
        }
        proof {
            lemma_bit_zero();
            lemma_count_none(0u16, 9);
            if digit != 0 {
                lemma_bit_single(digit);
                lemma_count_drop(1u16 << digit, 0u16, digit, 9);
            }
        }
        if digit == 0 {
            self.mask = 0;
            self.count = 0;
        } else {
            self.mask = 1u16 << digit;
            self.count = 1;
        }
        self.solved = true;
        self.num = digit;
    }

    /// A copy of the cell with the solved flag cleared; the candidates of a
    /// solved cell become its value alone (or nothing, for a value of 0).
    pub fn get_unsolved_copy(&self) -> (r: Cell)
        requires
            self.inv(),
        ensures
            r.inv(),
            !r.solved,
            r.num == 0,
            r.mask == self.mask,
            forall|d: int| #[trigger] r.has(d) == self.has(d),
            !self.solved ==> r == *self,
            r.count_off() == (!self.solved && self.count_off()),
            !r.count_off() ==> r.counted(),
    {
        if !self.is_solved() {
            return *self;
        }
        proof {
            lemma_count_le(self.mask, 9);
        }
        Cell { solved: false, num: 0, mask: self.mask, count: self.count }
    }

    /// Whether the two candidate sets share a digit; usable on solved cells,
    /// whose set is their value.
    pub fn has_intersection(&self, other: Cell) -> (r: bool)
        ensures
            r == exists|d: int| self.has(d) && other.has(d),
    {
        let r = (self.mask & other.mask) & DIGIT_BITS != 0;
        proof {
            if r {
                lemma_inter_nonzero(self.mask, other.mask);
                if self.has(1) && other.has(1) {
                    assert(self.has(1) && other.has(1));
                } else if self.has(2) && other.has(2) {
                    assert(self.has(2) && other.has(2));
                } else if self.has(3) && other.has(3) {
                    assert(self.has(3) && other.has(3));
                } else if self.has(4) && other.has(4) {
                    assert(self.has(4) && other.has(4));
                } else if self.has(5) && other.has(5) {
                    assert(self.has(5) && other.has(5));
                } else if self.has(6) && other.has(6) {
                    assert(self.has(6) && other.has(6));
                } else if self.has(7) && other.has(7) {
                    assert(self.has(7) && other.has(7));
                } else {
                    assert(self.has(8) && other.has(8) || self.has(9) && other.has(9));
                }
            } else {
                lemma_inter_none(self.mask, other.mask);
                assert forall|d: int| !(self.has(d) && other.has(d)) by {
                    if 1 <= d <= 9 {
                        assert(!(bit_set(self.mask, d as u16) && bit_set(other.mask, d as u16)));
                    }
                }
            }
        }
        r
    }

    /// Whether any candidate at all is present.
    pub fn has_digits(&self) -> (r: bool)
        requires
            mask_canon(self.mask),
        ensures
            r == (self.cand_count() > 0),
            r == exists|d: int| self.has(d),
    {
        proof {
            lemma_bit_zero();
            lemma_count_none(0u16, 9);
            if self.mask != 0 {
                lemma_mask_nonzero(self.mask);
                if self.has(1) {
                    assert(self.has(1));
                } else if self.has(2) {
                    assert(self.has(2));
                } else if self.has(3) {
                    assert(self.has(3));
                } else if self.has(4) {
                    assert(self.has(4));
                } else if self.has(5) {
                    assert(self.has(5));
                } else if self.has(6) {
                    assert(self.has(6));
                } else if self.has(7) {
                    assert(self.has(7));
                } else {
                    assert(self.has(8) || self.has(9));
                }
                let d0 = choose|d: int| self.has(d);
                lemma_count_strict(0u16, self.mask, d0 as u16, 9);
            } else {
                lemma_count_none(self.mask, 9);
                assert forall|d: int| !self.has(d) by {
                    if 1 <= d <= 9 {
                        assert(!bit_set(0u16, d as u16));
                    }
                }
            }
        }
        self.mask != 0
    }

    /// The union of two unsolved cells' candidate sets. The count is kept
    /// from `self` when nothing was added, recomputed otherwise, and stays
    /// switched off for an accumulator.
    pub fn union(&self, other: Cell) -> (r: Cell)
        requires
            self.inv(),
            other.inv(),
            !self.solved,
            !other.solved,
        ensures
            r.inv(),
            !r.solved,
            r.num == 0,
            r.mask == (self.mask | other.mask),
            forall|d: int| #[trigger] r.has(d) == (self.has(d) || other.has(d)),
            r.count_off() == self.count_off(),
            !r.count_off() ==> r.counted(),
            r.mask == self.mask ==> r == *self,
    {
        let m = self.mask | other.mask;
        proof {
            lemma_bit_or(self.mask, other.mask);
            lemma_count_le(m, 9);
            lemma_count_le(self.mask, 9);
        }
        let mut c = Cell { solved: false, num: 0, mask: m, count: self.count };
        if m != self.mask && !self.count_is_off() {
            c.reset_count();
        }
        c
    }

    /// The intersection of two unsolved cells' candidate sets.
    pub fn intersect(&self, other: Cell) -> (r: Cell)
        requires
            self.inv(),
            other.inv(),
            !self.solved,
            !other.solved,
        ensures
            r.inv(),
            !r.solved,
            r.num == 0,
            r.mask == (self.mask & other.mask),
            forall|d: int| #[trigger] r.has(d) == (self.has(d) && other.has(d)),
            r.count_off() == self.count_off(),
            !r.count_off() ==> r.counted(),
            r.mask == self.mask ==> r == *self,
    {
        let m = self.mask & other.mask;
        proof {
            lemma_bit_and(self.mask, other.mask);
            lemma_count_le(m, 9);
            lemma_count_le(self.mask, 9);
        }
        let mut c = Cell { solved: false, num: 0, mask: m, count: self.count };
        if m != self.mask && !self.count_is_off() {
            c.reset_count();
        }
        c
    }

    /// The symmetric difference of two unsolved cells' candidate sets.
    pub fn xor(&self, other: Cell) -> (r: Cell)
        requires
            self.inv(),
            other.inv(),
            !self.solved,
            !other.solved,
        ensures
            r.inv(),
            !r.solved,
            r.num == 0,
            forall|d: int| #[trigger] r.has(d) == (self.has(d) != other.has(d)),
            r.count_off() == self.count_off(),
            !r.count_off() ==> r.counted(),
    {
        let m = self.mask ^ other.mask;
        proof {
            lemma_bit_xor(self.mask, other.mask);
            lemma_count_le(m, 9);
            lemma_count_le(self.mask, 9);
        }
        let mut c = Cell { solved: false, num: 0, mask: m, count: self.count };
        if m != self.mask && !self.count_is_off() {
            c.reset_count();
        }
        c
    }

    /// Unions `other`'s candidates into `self`; reports whether anything was
    /// added.
    pub fn union_with(&mut self, other: Cell) -> (r: bool)
        requires
            old(self).inv(),
            other.inv(),
            !old(self).solved,
            !other.solved,
        ensures
            final(self).inv(),
            !final(self).solved,
            final(self).num == 0,
            r == exists|d: int| other.has(d) && !old(self).has(d),
            !r ==> *final(self) == *old(self),
            forall|d: int| #[trigger] final(self).has(d) == (old(self).has(d) || other.has(d)),
            final(self).count_off() == old(self).count_off(),
            !final(self).count_off() ==> final(self).counted(),
    {
        let nc = self.union(other);
        let r = self.mask != nc.mask;
        proof {
            if r {
                lemma_grow_witness(*self, other);
            } else {
                assert(nc == *self);
                assert forall|d: int| other.has(d) implies old(self).has(d) by {
                    assert(nc.has(d) == (old(self).has(d) || other.has(d)));
                }
            }
        }
        *self = nc;
        r
    }

    /// Intersects `self` with `other`; reports whether anything was removed.
    pub fn intersect_with(&mut self, other: Cell) -> (r: bool)
        requires
            old(self).inv(),
            other.inv(),
            !old(self).solved,
            !other.solved,
        ensures
            final(self).inv(),
            !final(self).solved,
            final(self).num == 0,
            r == exists|d: int| old(self).has(d) && !other.has(d),
            !r ==> *final(self) == *old(self),
            forall|d: int| #[trigger] final(self).has(d) == (old(self).has(d) && other.has(d)),
            final(self).count_off() == old(self).count_off(),
            !final(self).count_off() ==> final(self).counted(),
            final(self).cand_count() <= old(self).cand_count(),
            r ==> final(self).cand_count() < old(self).cand_count(),
    {
        let nc = self.intersect(other);
        let r = self.mask != nc.mask;
        proof {
            assert forall|e: u16| 1 <= e as int <= 9 && #[trigger] bit_set(nc.mask, e) implies
                bit_set(self.mask, e) by {
                assert(nc.has(e as int) == (old(self).has(e as int) && other.has(e as int)));
            }
            lemma_count_subset(nc.mask, self.mask, 9);
            if r {
                lemma_shrink_witness(*self, other);
                let j = choose|d: int| old(self).has(d) && !other.has(d);
                assert(!nc.has(j));
                lemma_count_strict(nc.mask, self.mask, j as u16, 9);
            } else {
                assert(nc == *self);
                assert forall|d: int| old(self).has(d) implies other.has(d) by {
                    assert(nc.has(d) == (old(self).has(d) && other.has(d)));
                }
            }
        }
        *self = nc;
        r
    }

    /// Removes every candidate of `other` from `self`; reports whether
    /// anything was removed. This is the workhorse of the elimination rules.
    pub fn remove_digits(&mut self, other: Cell) -> (r: bool)
        requires
            old(self).inv(),
            other.inv(),
            !old(self).solved,
            !other.solved,
        ensures
            final(self).inv(),
            !final(self).solved,
            final(self).num == 0,
            r == exists|d: int| old(self).has(d) && other.has(d),
            !r ==> *final(self) == *old(self),
            forall|d: int| #[trigger] final(self).has(d) == (old(self).has(d) && !other.has(d)),
            final(self).count_off() == old(self).count_off(),
            !final(self).count_off() ==> final(self).counted(),
            final(self).cand_count() <= old(self).cand_count(),
            r ==> final(self).cand_count() < old(self).cand_count(),
    {
        let inv_o = other.inverse();
        let r = self.intersect_with(inv_o);
        proof {
            if r {
                assert(exists|d: int| old(self).has(d) && other.has(d));
            }
        }
        r
    }

    /// Commits an unsolved cell to one of its candidates, drawn uniformly at
    /// random; a cell with no candidates left is solved to 0. No-op when
    /// already solved.
    pub fn generate_number(&mut self)
        requires
            old(self).inv(),
        ensures
            final(self).inv(),
            old(self).solved ==> *final(self) == *old(self),
            !old(self).solved ==> {
                &&& final(self).solved
                &&& final(self).num <= 9
                &&& (old(self).cand_count() == 0 ==> final(self).num == 0)
                &&& (old(self).cand_count() > 0 ==> 1 <= final(self).num && old(self).has(
                    final(self).num as int,
                ))
                &&& final(self).counted()
            },
    {
        if self.is_solved() {
            return ;
        }
        // Size of the candidate set, counted directly so that the cached
        // count need not be on.
        let mut k: u16 = 0;
        let mut d: u16 = 1;
        while d <= 9
            invariant
                1 <= d <= 10,
                k as nat == count_to(self.mask, d as int - 1),
                k <= 9,
                !self.solved,
                *self == *old(self),
            decreases 10 - d,
        {
            proof {
                lemma_count_le(self.mask, d as int);
            }
            if self.has_digit(d) {
                k = k + 1;
            }
            d = d + 1;
        }
        if k == 0 {
            self.solve_cell(0);
            return ;
        }
        let j = crate::rng::random_below(k as usize);
        let mut seen: usize = 0;
        let mut d: u16 = 1;
        let mut chosen: u16 = 0;
        while d <= 9
            invariant
                1 <= d <= 10,
                j < self.cand_count(),
                !self.solved,
                *self == *old(self),
                self.inv(),
                chosen == 0 ==> seen as nat == count_to(self.mask, d as int - 1) && seen <= j,
                chosen != 0 ==> 1 <= chosen <= 9 && self.has(chosen as int),
            decreases 10 - d,
        {
            if chosen == 0 && self.has_digit(d) {
                if seen == j {
                    chosen = d;
                } else {
                    seen = seen + 1;
                }
            }
            d = d + 1;
        }
        assert(chosen != 0);
        self.solve_cell(chosen);
    }
}

proof fn lemma_or_grows(a: u16, b: u16)
    by (bit_vector)
    requires
        mask_canon(a),
        mask_canon(b),
        a != (a | b),
    ensures
        (bit_set(b, 1) && !bit_set(a, 1)) || (bit_set(b, 2) && !bit_set(a, 2)) || (bit_set(b, 3)
            && !bit_set(a, 3)) || (bit_set(b, 4) && !bit_set(a, 4)) || (bit_set(b, 5) && !bit_set(
            a,
            5,
        )) || (bit_set(b, 6) && !bit_set(a, 6)) || (bit_set(b, 7) && !bit_set(a, 7)) || (bit_set(
            b,
            8,
        ) && !bit_set(a, 8)) || (bit_set(b, 9) && !bit_set(a, 9)),
{
}

proof fn lemma_and_shrinks(a: u16, b: u16)
    by (bit_vector)
    requires
        mask_canon(a),
        a != (a & b),
    ensures
        (bit_set(a, 1) && !bit_set(b, 1)) || (bit_set(a, 2) && !bit_set(b, 2)) || (bit_set(a, 3)
            && !bit_set(b, 3)) || (bit_set(a, 4) && !bit_set(b, 4)) || (bit_set(a, 5) && !bit_set(
            b,
            5,
        )) || (bit_set(a, 6) && !bit_set(b, 6)) || (bit_set(a, 7) && !bit_set(b, 7)) || (bit_set(
            a,
            8,
        ) && !bit_set(b, 8)) || (bit_set(a, 9) && !bit_set(b, 9)),
{
}

/// Some candidate of `b` is missing from `a` when the union grows `a`.
proof fn lemma_grow_witness(a: Cell, b: Cell)
    requires
        mask_canon(a.mask),
        mask_canon(b.mask),
        a.mask != (a.mask | b.mask),
    ensures
        exists|d: int| b.has(d) && !a.has(d),
{
    lemma_or_grows(a.mask, b.mask);
    if b.has(1) && !a.has(1) {
        assert(b.has(1) && !a.has(1));
    } else if b.has(2) && !a.has(2) {
        assert(b.has(2) && !a.has(2));
    } else if b.has(3) && !a.has(3) {
        assert(b.has(3) && !a.has(3));
    } else if b.has(4) && !a.has(4) {
        assert(b.has(4) && !a.has(4));
    } else if b.has(5) && !a.has(5) {
        assert(b.has(5) && !a.has(5));
    } else if b.has(6) && !a.has(6) {
        assert(b.has(6) && !a.has(6));
    } else if b.has(7) && !a.has(7) {
        assert(b.has(7) && !a.has(7));
    } else {
        assert(b.has(8) && !a.has(8) || b.has(9) && !a.has(9));
    }
}

/// Some candidate of `a` is missing from `b` when intersecting shrinks `a`.
proof fn lemma_shrink_witness(a: Cell, b: Cell)
    requires
        mask_canon(a.mask),
        a.mask != (a.mask & b.mask),
    ensures
        exists|d: int| a.has(d) && !b.has(d),
{
    lemma_and_shrinks(a.mask, b.mask);
    if a.has(1) && !b.has(1) {
        assert(a.has(1) && !b.has(1));
    } else if a.has(2) && !b.has(2) {
        assert(a.has(2) && !b.has(2));
    } else if a.has(3) && !b.has(3) {
        assert(a.has(3) && !b.has(3));
    } else if a.has(4) && !b.has(4) {
        assert(a.has(4) && !b.has(4));
    } else if a.has(5) && !b.has(5) {
        assert(a.has(5) && !b.has(5));
    } else if a.has(6) && !b.has(6) {
        assert(a.has(6) && !b.has(6));
    } else if a.has(7) && !b.has(7) {
        assert(a.has(7) && !b.has(7));
    } else {
        assert(a.has(8) && !b.has(8) || a.has(9) && !b.has(9));
    }
}

/// A candidate set never holds more than the nine digits.
pub proof fn lemma_cand_count_le(c: Cell)
    ensures
        c.cand_count() <= 9,
{
    lemma_count_le(c.mask, 9);
}

/// An accurate cached count is never the switched-off sentinel.
pub proof fn lemma_counted_on(c: Cell)
    requires
        c.counted(),
    ensures
        !c.count_off(),
{
    lemma_count_le(c.mask, 9);
}

/// A cell whose candidates all occur in another's has no more of them.
pub proof fn lemma_cand_subset(a: Cell, b: Cell)
    requires
        forall|d: int| #[trigger] b.has(d) ==> a.has(d),
    ensures
        b.cand_count() <= a.cand_count(),
{
    assert forall|e: u16| 1 <= e as int <= 9 && #[trigger] bit_set(b.mask, e) implies bit_set(
        a.mask,
        e,
    ) by {
        assert(b.has(e as int));
    }
    lemma_count_subset(b.mask, a.mask, 9);
}

/// Cells holding the same candidates have the same count of them.
pub proof fn lemma_cand_count_eq(a: Cell, b: Cell)
    requires
        forall|d: int| #[trigger] a.has(d) <==> b.has(d),
    ensures
        a.cand_count() == b.cand_count(),
{
    lemma_cand_subset(a, b);
    lemma_cand_subset(b, a);
}

/// A solved cell keeps at most one candidate, and that candidate is its
/// value: solving never invents a digit.
pub proof fn lemma_solved_candidates(c: Cell)
    requires
        c.inv(),
        c.solved,
    ensures
        c.cand_count() == (if c.num == 0 {
            0nat
        } else {
            1nat
        }),
        c.cand_count() == 1 ==> c.has(c.num as int) && 1 <= c.num <= 9,
{
    lemma_bit_zero();
    lemma_count_none(0u16, 9);
    if c.num == 0 {
        assert forall|e: u16| 1 <= e as int <= 9 implies #[trigger] bit_set(c.mask, e) == bit_set(
            0u16,
            e,
        ) by {
            assert(!c.has(e as int));
        }
        lemma_count_agree(c.mask, 0u16, 9);
    } else {
        assert(c.has(c.num as int));
        assert forall|e: u16| 1 <= e as int <= 9 && e != c.num implies #[trigger] bit_set(
            c.mask,
            e,
        ) == bit_set(0u16, e) by {
            assert(!c.has(e as int));
        }
        lemma_count_drop(c.mask, 0u16, c.num, 9);
    }
}

/// Union keeps every candidate of its left operand: with `u` the union of
/// `a` and `b` and `w` the intersection of `u` with `a`, `w` holds all of
/// `a`'s candidates.
pub proof fn lemma_union_intersect_keeps(a: Cell, b: Cell, u: Cell, w: Cell)
    requires
        forall|d: int| #[trigger] u.has(d) == (a.has(d) || b.has(d)),
        forall|d: int| #[trigger] w.has(d) == (u.has(d) && a.has(d)),
    ensures
        forall|d: int| #[trigger] a.has(d) ==> w.has(d),
{
}

/// An intersection holds no candidate beyond either operand.
pub proof fn lemma_intersect_within(a: Cell, b: Cell, w: Cell)
    requires
        forall|d: int| #[trigger] w.has(d) == (a.has(d) && b.has(d)),
    ensures
        forall|d: int| #[trigger] w.has(d) ==> a.has(d) && b.has(d),
{
}

/// Taking the inverse of an unsolved cell twice gives the cell back.
pub proof fn lemma_inverse_involution(a: Cell, r1: Cell, r2: Cell)
    requires
        a.inv(),
        !a.solved,
        r1.inv(),
        r2.inv(),
        is_inverse_of(r1, a),
        is_inverse_of(r2, r1),
    ensures
        r2 == a,
{
    assert(r2.has(1) == a.has(1) && r2.has(2) == a.has(2) && r2.has(3) == a.has(3) && r2.has(4)
        == a.has(4) && r2.has(5) == a.has(5) && r2.has(6) == a.has(6) && r2.has(7) == a.has(7)
        && r2.has(8) == a.has(8) && r2.has(9) == a.has(9));
    lemma_mask_ext(r2.mask, a.mask);
    if !a.count_off() {
        assert(r2.counted() && a.counted());
    }
    assert(r2.num == a.num && r2.solved == a.solved && r2.mask == a.mask && r2.count == a.count);
}

} // verus!
