//! The unbounded tape. In theory it is infinite in both directions and blank
//! (all zeros); in practice each side is a vector that grows on demand.

use crate::model::Symbol;
use vstd::prelude::*;

verus! {

/// The contents of a tape: the allocated cells at non-negative positions,
/// and, separately, those at negative positions, where position `-1` is
/// stored at index 0, `-2` at index 1, and so on.
pub struct TapeView {
    pub positive: Seq<Symbol>,
    pub negative: Seq<Symbol>,
}

/// The index inside its side's vector at which `position` is stored.
pub open spec fn cell_index(position: int) -> int {
    if position >= 0 {
        position
    } else {
        -position - 1
    }
}

/// Whether `position` can be turned into a vector index on this machine.
pub open spec fn position_readable(position: int) -> bool {
    &&& i64::MIN < position
    &&& cell_index(position) <= usize::MAX
}

/// Whether `position` can be turned into a vector index and one more cell
/// can still be allocated after it on this machine.
pub open spec fn position_fits(position: int) -> bool {
    &&& i64::MIN < position
    &&& cell_index(position) < usize::MAX
}

/// The number of cells holding the symbol 1.
pub open spec fn count_ones_in(cells: Seq<Symbol>) -> nat
    decreases cells.len(),
{
    if cells.len() == 0 {
        0
    } else {
        count_ones_in(cells.drop_last()) + (if cells.last() == 1 { 1nat } else { 0nat })
    }
}

/// `cells`, padded with zeros so that `index` exists, with `symbol` at `index`.
pub open spec fn grown_and_set(cells: Seq<Symbol>, index: int, symbol: Symbol) -> Seq<Symbol> {
    let grown = if index < cells.len() {
        cells
    } else {
        cells + Seq::new((index + 1 - cells.len()) as nat, |i: int| 0u8)
    };
    grown.update(index, symbol)
}

impl TapeView {
    /// The blank tape, with nothing allocated.
    pub open spec fn blank() -> TapeView {
        TapeView { positive: Seq::empty(), negative: Seq::empty() }
    }

    /// The symbol at `position`: what was last written there, or 0.
    pub open spec fn read(self, position: int) -> Symbol {
        let cells = if position >= 0 {
            self.positive
        } else {
            self.negative
        };
        let index = cell_index(position);
        if index < cells.len() {
            cells[index]
        } else {
            0
        }
    }

    /// The tape after writing `symbol` at `position`.
    pub open spec fn write(self, position: int, symbol: Symbol) -> TapeView {
        if position >= 0 {
            TapeView {
                positive: grown_and_set(self.positive, position, symbol),
                negative: self.negative,
            }
        } else {
            TapeView {
                positive: self.positive,
                negative: grown_and_set(self.negative, cell_index(position), symbol),
            }
        }
    }

    /// The number of ones on the tape.
    pub open spec fn ones(self) -> nat {
        count_ones_in(self.positive) + count_ones_in(self.negative)
    }

    /// The number of allocated cells.
    pub open spec fn allocated(self) -> nat {
        self.positive.len() + self.negative.len()
    }
}

/// Appending blank cells does not change the number of ones.
proof fn lemma_count_ones_zero_padding(cells: Seq<Symbol>, n: nat)
    ensures
        count_ones_in(cells + Seq::new(n, |i: int| 0u8)) == count_ones_in(cells),
    decreases n,
{
    let padded = cells + Seq::new(n, |i: int| 0u8);
    if n > 0 {
        let shorter = cells + Seq::new((n - 1) as nat, |i: int| 0u8);
        assert(padded.drop_last() =~= shorter);
        lemma_count_ones_zero_padding(cells, (n - 1) as nat);
    } else {
        assert(padded =~= cells);
    }
}

/// Overwriting one cell changes the count of ones by that cell alone.
proof fn lemma_count_ones_update(cells: Seq<Symbol>, index: int, symbol: Symbol)
    requires
        0 <= index < cells.len(),
    ensures
        count_ones_in(cells.update(index, symbol)) + (if cells[index] == 1 { 1int } else { 0int })
            == count_ones_in(cells) + (if symbol == 1 { 1int } else { 0int }),
    decreases cells.len(),
{
    let updated = cells.update(index, symbol);
    if index == cells.len() - 1 {
        assert(updated.drop_last() =~= cells.drop_last());
    } else {
        assert(updated.drop_last() =~= cells.drop_last().update(index, symbol));
        lemma_count_ones_update(cells.drop_last(), index, symbol);
    }
}

/// A blank tape reads 0 at every position and holds no ones.
pub proof fn law_blank_tape(position: int)
    ensures
        TapeView::blank().read(position) == 0,
        TapeView::blank().ones() == 0,
        TapeView::blank().allocated() == 0,
{
}

/// Reading gives back what the last write at that position wrote, and a write
/// leaves every other position as it was.
pub proof fn law_read_after_write(tape: TapeView, position: int, symbol: Symbol, other: int)
    ensures
        tape.write(position, symbol).read(position) == symbol,
        other != position ==> tape.write(position, symbol).read(other) == tape.read(other),
{
}

/// A write changes the number of ones only through the cell it overwrites.
pub proof fn law_ones_after_write(tape: TapeView, position: int, symbol: Symbol)
    ensures
        tape.write(position, symbol).ones() + (if tape.read(position) == 1 { 1int } else { 0int })
            == tape.ones() + (if symbol == 1 { 1int } else { 0int }),
{
    let cells = if position >= 0 {
        tape.positive
    } else {
        tape.negative
    };
    let index = cell_index(position);
    if index >= cells.len() {
        let n = (index + 1 - cells.len()) as nat;
        lemma_count_ones_zero_padding(cells, n);
        let grown = cells + Seq::new(n, |i: int| 0u8);
        lemma_count_ones_update(grown, index, symbol);
    } else {
        lemma_count_ones_update(cells, index, symbol);
    }
}

/// A write grows the side it touches to cover the position and no further,
/// fills the cells it adds before the position with zeros, keeps every other
/// cell, and writing the same symbol there again changes nothing.
pub proof fn law_write_allocation(tape: TapeView, position: int, symbol: Symbol)
    ensures
        ({
            let after = tape.write(position, symbol);
            let old_cells = if position >= 0 { tape.positive } else { tape.negative };
            let new_cells = if position >= 0 { after.positive } else { after.negative };
            let index = cell_index(position);
            &&& position >= 0 ==> after.negative == tape.negative
            &&& position < 0 ==> after.positive == tape.positive
            &&& new_cells.len() == if old_cells.len() > index { old_cells.len() as int } else { index + 1 }
            &&& forall|i: int| 0 <= i < old_cells.len() && i != index ==> new_cells[i] == old_cells[i]
            &&& forall|i: int| old_cells.len() <= i < index ==> new_cells[i] == 0
            &&& new_cells[index] == symbol
            &&& after.write(position, symbol) == after
        }),
{
    let after = tape.write(position, symbol);
    let twice = after.write(position, symbol);
    assert(twice.positive =~= after.positive);
    assert(twice.negative =~= after.negative);
}

/// The tape after applying `writes` (position, symbol) in order.
pub open spec fn written(tape: TapeView, writes: Seq<(int, Symbol)>) -> TapeView
    decreases writes.len(),
{
    if writes.len() == 0 {
        tape
    } else {
        written(tape, writes.drop_last()).write(writes.last().0, writes.last().1)
    }
}

/// One past the rightmost non-negative position written, or 0.
pub open spec fn reach_right(writes: Seq<(int, Symbol)>) -> nat
    decreases writes.len(),
{
    if writes.len() == 0 {
        0
    } else {
        let before = reach_right(writes.drop_last());
        let p = writes.last().0;
        if p >= 0 && p + 1 > before { (p + 1) as nat } else { before }
    }
}

/// How far left of the origin the writes went: the largest `-p` over the
/// negative positions written, or 0.
pub open spec fn reach_left(writes: Seq<(int, Symbol)>) -> nat
    decreases writes.len(),
{
    if writes.len() == 0 {
        0
    } else {
        let before = reach_left(writes.drop_last());
        let p = writes.last().0;
        if p < 0 && -p > before { (-p) as nat } else { before }
    }
}

/// After a series of writes on a blank tape, the non-negative side holds one
/// cell past the rightmost position written and the negative side reaches the
/// leftmost one; the count of allocated cells is the sum.
pub proof fn law_allocated_after_writes(writes: Seq<(int, Symbol)>)
    ensures
        written(TapeView::blank(), writes).positive.len() == reach_right(writes),
        written(TapeView::blank(), writes).negative.len() == reach_left(writes),
        written(TapeView::blank(), writes).allocated() == reach_right(writes) + reach_left(writes),
    decreases writes.len(),
{
    if writes.len() > 0 {
        law_allocated_after_writes(writes.drop_last());
        let before = written(TapeView::blank(), writes.drop_last());
        law_write_allocation(before, writes.last().0, writes.last().1);
    }
}

/// The number of ones is the number of positions that read 1; there are
/// finitely many of them.
pub proof fn law_ones_are_positions_reading_one(tape: TapeView)
    ensures
        Set::new(|p: int| tape.read(p) == 1).finite(),
        Set::new(|p: int| tape.read(p) == 1).len() == tape.ones(),
    decreases tape.positive.len() + tape.negative.len(),
{
    let ones_at = Set::new(|p: int| tape.read(p) == 1);
    if tape.positive.len() > 0 {
        let shorter = TapeView { positive: tape.positive.drop_last(), negative: tape.negative };
        law_ones_are_positions_reading_one(shorter);
        let fewer = Set::new(|p: int| shorter.read(p) == 1);
        let q = tape.positive.len() - 1;
        assert(shorter.read(q) == 0);
        assert(!fewer.contains(q));
        if tape.positive[q] == 1 {
            assert(ones_at =~= fewer.insert(q));
        } else {
            assert(ones_at =~= fewer);
        }
    } else if tape.negative.len() > 0 {
        let shorter = TapeView { positive: tape.positive, negative: tape.negative.drop_last() };
        law_ones_are_positions_reading_one(shorter);
        let fewer = Set::new(|p: int| shorter.read(p) == 1);
        let q = -(tape.negative.len() as int);
        assert(cell_index(q) == tape.negative.len() - 1);
        assert(shorter.read(q) == 0);
        assert(!fewer.contains(q));
        if tape.negative[tape.negative.len() - 1] == 1 {
            assert(ones_at =~= fewer.insert(q));
        } else {
            assert(ones_at =~= fewer);
        }
    } else {
        assert(ones_at =~= Set::<int>::empty());
    }
}

/// A sparse tape: non-negative positions live in `positive_cells`, negative
/// ones in `negative_cells` (`-1 -> 0`, `-2 -> 1`, ...).
#[derive(Clone, Debug, Default)]
pub struct Tape {
    positive_cells: Vec<Symbol>,
    negative_cells: Vec<Symbol>,
}

impl View for Tape {
    type V = TapeView;

    closed spec fn view(&self) -> TapeView {
        TapeView { positive: self.positive_cells@, negative: self.negative_cells@ }
    }
}

/// The number of ones in `cells`.
fn count_ones_of(cells: &Vec<Symbol>) -> (count: usize)
    ensures
        count == count_ones_in(cells@),
        count <= cells@.len(),
{
    let mut count: usize = 0;
    let mut i: usize = 0;
    while i < cells.len()
        invariant
            i <= cells@.len(),
            count == count_ones_in(cells@.take(i as int)),
            count <= i,
        decreases cells@.len() - i,
    {
        assert(cells@.take(i + 1).drop_last() =~= cells@.take(i as int));
        if cells[i] == 1 {
            count = count + 1;
        }
        i = i + 1;
    }
    assert(cells@.take(i as int) =~= cells@);
    count
}

impl Tape {
    /// A blank tape.
    pub fn new() -> (tape: Self)
        ensures
            tape@ == TapeView::blank(),
    {
        Self { positive_cells: Vec::new(), negative_cells: Vec::new() }
    }

    /// The symbol at `position`; 0 where nothing was ever written.
    pub fn read(&self, position: i64) -> (symbol: Symbol)
        requires
            position_readable(position as int),
        ensures
            symbol == self@.read(position as int),
    {
        let (cells, index) = self.cells_and_index(position);
        if index < cells.len() {
            cells[index]
        } else {
            0
        }
    }

    /// Writes `symbol` at `position`, growing the tape with zeros as needed.
    pub fn write(&mut self, position: i64, symbol: Symbol)
        requires
            position_fits(position as int),
        ensures
            final(self)@ == old(self)@.write(position as int, symbol),
    {
        let (cells, index) = self.cells_and_index_mut(position);
        let ghost before = cells@;
        while cells.len() <= index
            invariant
                index < usize::MAX,
                before.len() <= cells@.len() <= if before.len() <= index { index + 1 } else { before.len() as int },
                cells@ =~= (if before.len() <= index {
                    before + Seq::new((cells@.len() - before.len()) as nat, |i: int| 0u8)
                } else {
                    before
                }),
            decreases index + 1 - cells@.len(),
        {
            cells.push(0);
        }
        cells.set(index, symbol);
    }

    /// The number of ones on the tape.
    pub fn count_ones(&self) -> (count: usize)
        requires
            self@.allocated() <= usize::MAX,
        ensures
            count == self@.ones(),
    {
        count_ones_of(&self.positive_cells) + count_ones_of(&self.negative_cells)
    }

    /// The number of cells allocated so far.
    pub fn allocated_cells(&self) -> (count: usize)
        requires
            self@.allocated() <= usize::MAX,
        ensures
            count == self@.allocated(),
    {
        self.positive_cells.len() + self.negative_cells.len()
    }

    /// The side vector that holds `position`, and the index in it.
    fn cells_and_index(&self, position: i64) -> (found: (&[Symbol], usize))
        requires
            position_readable(position as int),
        ensures
            found.1 == cell_index(position as int),
            found.0@ == if position >= 0 {
                self@.positive
            } else {
                self@.negative
            },
    {
        if position >= 0 {
            (self.positive_cells.as_slice(), position as usize)
        } else {
            (self.negative_cells.as_slice(), (-position - 1) as usize)
        }
    }

    /// The side vector that holds `position`, borrowed for writing, and the
    /// index in it.
    fn cells_and_index_mut(&mut self, position: i64) -> (found: (&mut Vec<Symbol>, usize))
        requires
            position_fits(position as int),
        ensures
            found.1 == cell_index(position as int),
            *found.0 == if position >= 0 {
                old(self).positive_cells
            } else {
                old(self).negative_cells
            },
            position >= 0 ==> final(self).positive_cells == *final(found.0)
                && final(self).negative_cells == old(self).negative_cells,
            position < 0 ==> final(self).negative_cells == *final(found.0)
                && final(self).positive_cells == old(self).positive_cells,
    {
        if position >= 0 {
            (&mut self.positive_cells, position as usize)
        } else {
            (&mut self.negative_cells, (-position - 1) as usize)
        }
    }
}

} // verus!
