use vstd::prelude::*;

verus! {

/// What a cell holds: three flags and a mine tally of five bits.
pub struct CellView {
    pub mine: bool,
    pub covered: bool,
    pub flagged: bool,
    pub neighbours: nat,
}

impl CellView {
    pub open spec fn with_neighbours(self, n: nat) -> CellView {
        CellView { neighbours: n, ..self }
    }

    pub open spec fn with_covered(self, b: bool) -> CellView {
        CellView { covered: b, ..self }
    }

    pub open spec fn with_flagged(self, b: bool) -> CellView {
        CellView { flagged: b, ..self }
    }

    pub open spec fn with_mine(self, b: bool) -> CellView {
        CellView { mine: b, ..self }
    }

    /// Neither a mine nor next to one.
    pub open spec fn blank(self) -> bool {
        !self.mine && self.neighbours == 0
    }
}

/// The cell `v` after `k` calls of `Cell::inc_neighbours`.
pub open spec fn after_incs(v: CellView, k: nat) -> CellView
    decreases k,
{
    if k == 0 {
        v
    } else {
        let w = after_incs(v, (k - 1) as nat);
        w.with_neighbours(((w.neighbours + 1) % 32) as nat)
    }
}

proof fn lemma_after_incs(v: CellView, k: nat)
    requires
        v.neighbours < 32,
    ensures
        after_incs(v, k) == v.with_neighbours(((v.neighbours + k) % 32) as nat),
    decreases k,
{
    if k > 0 {
        lemma_after_incs(v, (k - 1) as nat);
    }
}

/// Thirty-two increments bring a tally back to where it started: the count
/// wraps modulo 32.
pub proof fn lemma_incs_wrap(v: CellView)
    requires
        v.neighbours < 32,
    ensures
        after_incs(v, 32) == v,
{
    lemma_after_incs(v, 32);
}

/// Toggling the flag twice, or the cover twice, gives the cell back; a toggle
/// of one touches neither the other nor the mine.
pub proof fn lemma_toggle_twice(v: CellView)
    ensures
        v.with_flagged(!v.flagged).with_flagged(!v.with_flagged(!v.flagged).flagged) == v,
        v.with_covered(!v.covered).with_covered(!v.with_covered(!v.covered).covered) == v,
        v.with_flagged(!v.flagged).covered == v.covered && v.with_flagged(!v.flagged).mine == v.mine,
        v.with_covered(!v.covered).flagged == v.flagged && v.with_covered(!v.covered).mine == v.mine,
{
}

/// One square of the grid packed into a byte: bit 0 is the mine, bit 1 the
/// cover, bit 2 the flag, and bits 3 to 7 the number of neighbouring mines.
#[derive(Clone, Copy, Debug, PartialEq, Eq)]
pub struct Cell {
    bits: u8,
}

pub open spec fn bit_set(b: u8, k: u8) -> bool {
    (b >> k) & 1 == 1
}

/// The meaning of a packed byte.
pub open spec fn unpack(b: u8) -> CellView {
    CellView {
        mine: bit_set(b, 0),
        covered: bit_set(b, 1),
        flagged: bit_set(b, 2),
        neighbours: (b >> 3) as nat,
    }
}

impl View for Cell {
    type V = CellView;

    closed spec fn view(&self) -> CellView {
        unpack(self.bits)
    }
}

impl Cell {
    pub const MINE: u8 = 1;

    pub const COVERED: u8 = 2;

    pub const FLAGGED: u8 = 4;

    /// A cell from its packed byte.
    pub fn from_bits(bits: u8) -> (r: Cell)
        ensures
            r@ == unpack(bits),
    {
        Cell { bits }
    }

    pub fn bits(&self) -> (r: u8)
        ensures
            unpack(r) == self@,
    {
        self.bits
    }

    /// What the three single-flag bytes hold.
    pub proof fn lemma_flag_bits()
        ensures
            bit_set(Cell::MINE, 0) && !bit_set(Cell::MINE, 1) && !bit_set(Cell::MINE, 2)
                && Cell::MINE >> 3 == 0,
            !bit_set(Cell::COVERED, 0) && bit_set(Cell::COVERED, 1) && !bit_set(Cell::COVERED, 2)
                && Cell::COVERED >> 3 == 0,
            !bit_set(Cell::FLAGGED, 0) && !bit_set(Cell::FLAGGED, 1) && bit_set(Cell::FLAGGED, 2)
                && Cell::FLAGGED >> 3 == 0,
    {
        assert(bit_set(1u8, 0) && !bit_set(1u8, 1) && !bit_set(1u8, 2) && (1u8 >> 3u8) == 0)
            by (bit_vector);
        assert(!bit_set(2u8, 0) && bit_set(2u8, 1) && !bit_set(2u8, 2) && (2u8 >> 3u8) == 0)
            by (bit_vector);
        assert(!bit_set(4u8, 0) && !bit_set(4u8, 1) && bit_set(4u8, 2) && (4u8 >> 3u8) == 0)
            by (bit_vector);
    }

    /// Every cell's tally fits in five bits.
    pub proof fn lemma_neighbours_bound(c: Cell)
        ensures
            c@.neighbours < 32,
    {
        let b = c.bits;
        assert(b >> 3u8 < 32) by (bit_vector);
    }

    pub fn mine(&self) -> (r: bool)
        ensures
            r == self@.mine,
    {
        let b = self.bits;
        assert((b >> 0u8) & 1 == b & 1) by (bit_vector);
        self.bits & 1 == 1
    }

    pub fn covered(&self) -> (r: bool)
        ensures
            r == self@.covered,
    {
        (self.bits >> 1) & 1 == 1
    }

    pub fn flagged(&self) -> (r: bool)
        ensures
            r == self@.flagged,
    {
        (self.bits >> 2) & 1 == 1
    }

    pub fn neighbours(&self) -> (r: u8)
        ensures
            r as nat == self@.neighbours,
            r < 32,
    {
        let b = self.bits;
        assert(b >> 3u8 < 32) by (bit_vector);
        self.bits >> 3
    }

    /// Overwrites the tally with `value` modulo 32 (the bits above the
    /// fifth are lost); the three flags stay as they were.
    pub fn set_neighbours(&mut self, value: u8)
        ensures
            final(self)@ == old(self)@.with_neighbours((value % 32) as nat),
    {
        let b = self.bits;
        let nb: u8 = (b & (255u8 >> 5u8)) | (value << 3u8);
        assert(bit_set(nb, 0) == bit_set(b, 0) && bit_set(nb, 1) == bit_set(b, 1)
            && bit_set(nb, 2) == bit_set(b, 2) && nb >> 3u8 == value % 32) by (bit_vector)
            requires
                nb == (b & (255u8 >> 5u8)) | (value << 3u8),
        ;
        self.bits = nb;
    }

    /// Adds one to the tally; 31 wraps round to 0.
    pub fn inc_neighbours(&mut self)
        ensures
            final(self)@ == old(self)@.with_neighbours((old(self)@.neighbours + 1) % 32),
    {
        let nbors = self.neighbours();
        self.set_neighbours(nbors + 1);
    }

    pub fn toggle_mine(&mut self)
        ensures
            final(self)@ == old(self)@.with_mine(!old(self)@.mine),
    {
        let b = self.bits;
        let nb: u8 = b ^ 1u8;
        assert(bit_set(nb, 0) == !bit_set(b, 0) && bit_set(nb, 1) == bit_set(b, 1)
            && bit_set(nb, 2) == bit_set(b, 2) && nb >> 3u8 == b >> 3u8) by (bit_vector)
            requires
                nb == b ^ 1u8,
        ;
        self.bits = nb;
    }

    pub fn toggle_covered(&mut self)
        ensures
            final(self)@ == old(self)@.with_covered(!old(self)@.covered),
    {
        let b = self.bits;
        let nb: u8 = b ^ 2u8;
        assert(bit_set(nb, 0) == bit_set(b, 0) && bit_set(nb, 1) == !bit_set(b, 1)
            && bit_set(nb, 2) == bit_set(b, 2) && nb >> 3u8 == b >> 3u8) by (bit_vector)
            requires
                nb == b ^ 2u8,
        ;
        self.bits = nb;
    }

    pub fn toggle_flagged(&mut self)
        ensures
            final(self)@ == old(self)@.with_flagged(!old(self)@.flagged),
    {
        let b = self.bits;
        let nb: u8 = b ^ 4u8;
        assert(bit_set(nb, 0) == bit_set(b, 0) && bit_set(nb, 1) == bit_set(b, 1)
            && bit_set(nb, 2) == !bit_set(b, 2) && nb >> 3u8 == b >> 3u8) by (bit_vector)
            requires
                nb == b ^ 4u8,
        ;
        self.bits = nb;
    }
}

} // verus!
