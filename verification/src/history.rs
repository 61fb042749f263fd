use vstd::prelude::*;
use crate::position::Position;
use crate::takmove::Move;

verus! {

/// The bound that no history value exceeds in size.
pub const HISTORY_LIMIT: i32 = 16384;

/// The greatest bonus, in size, that one update applies.
pub const MAX_BONUS: i32 = 4096;

/// The number of values in one table: one for each packed move.
pub const MOVE_ENTRIES: usize = 32768;

/// The number of tables that the key of the walls and capstones chooses from.
pub const BLOCKER_ENTRIES: usize = 512;

/// The part of `value` that an update with `bonus` takes away: the product
/// of the value and the bonus's size, divided by the limit and rounded
/// towards zero.
pub open spec fn decay(value: int, bonus: int) -> int {
    let size = if bonus >= 0 {
        bonus
    } else {
        -bonus
    };
    if value >= 0 {
        (value * size) / (HISTORY_LIMIT as int)
    } else {
        -(((-value) * size) / (HISTORY_LIMIT as int))
    }
}

/// The value after an update with `bonus`: the bonus is added, and the
/// nearer the value is to the limit on the bonus's side the less of it stays.
pub open spec fn gravity(value: int, bonus: int) -> int {
    value + bonus - decay(value, bonus)
}

/// The bonus that is applied when `bonus` is asked for: no larger in size than the greatest bonus.
pub open spec fn clamped(bonus: int) -> int {
    if bonus < -(MAX_BONUS as int) {
        -(MAX_BONUS as int)
    } else if bonus > MAX_BONUS {
        MAX_BONUS as int
    } else {
        bonus
    }
}

/// An update with a bonus no larger than the limit keeps a value within the limit.
pub proof fn lemma_gravity_bounds(value: int, bonus: int)
    requires
        -16384 <= value <= 16384,
        -16384 <= bonus <= 16384,
    ensures
        -16384 <= gravity(value, bonus) <= 16384,
{
    let size = if bonus >= 0 {
        bonus
    } else {
        -bonus
    };
    let mag = if value >= 0 {
        value
    } else {
        -value
    };
    let q = (mag * size) / 16384;
    assert(0 <= mag * size <= 16384 * 16384) by (nonlinear_arith)
        requires
            0 <= mag <= 16384,
            0 <= size <= 16384,
    ;
    assert(16384 * q <= mag * size < 16384 * q + 16384);
    assert((16384 - mag) * (16384 - size) >= 0) by (nonlinear_arith)
        requires
            0 <= mag <= 16384,
            0 <= size <= 16384,
    ;
    assert((16384 - mag) * (16384 - size) == 16384 * 16384 - 16384 * mag - 16384 * size + mag
        * size) by (nonlinear_arith);
    assert(mag * size <= 16384 * mag) by (nonlinear_arith)
        requires
            0 <= mag,
            0 <= size <= 16384,
    ;
    assert(mag * size <= 16384 * size) by (nonlinear_arith)
        requires
            0 <= size,
            0 <= mag <= 16384,
    ;
}

/// One value of a history table.
#[derive(Clone, Copy, Debug)]
pub struct Entry {
    pub value: i16,
}

impl Entry {
    pub open spec fn wf(self) -> bool {
        -HISTORY_LIMIT <= self.value <= HISTORY_LIMIT
    }

    /// Moves the value towards the side of `bonus`.
    pub fn update(&mut self, bonus: i32)
        requires
            old(self).wf(),
            -HISTORY_LIMIT <= bonus <= HISTORY_LIMIT,
        ensures
            final(self).wf(),
            final(self).value == gravity(old(self).value as int, bonus as int),
    {
        let value = self.value as i32;
        let size = if bonus >= 0 {
            bonus
        } else {
            -bonus
        };
        let mag = if value >= 0 {
            value
        } else {
            -value
        };
        proof {
            lemma_gravity_bounds(value as int, bonus as int);
            assert(0 <= mag * size <= 16384 * 16384) by (nonlinear_arith)
                requires
                    0 <= mag <= 16384,
                    0 <= size <= 16384,
            ;
        }
        let q = (mag * size) / HISTORY_LIMIT;
        let lost = if value >= 0 {
            q
        } else {
            -q
        };
        self.value = (value + bonus - lost) as i16;
    }

    pub fn get(&self) -> (r: i32)
        ensures
            r == self.value,
    {
        self.value as i32
    }
}

/// A table with one value for each packed move.
pub struct CombinedHist {
    pub entries: Vec<Entry>,
}

impl CombinedHist {
    pub open spec fn wf(&self) -> bool {
        &&& self.entries@.len() == MOVE_ENTRIES
        &&& forall|i: int| 0 <= i < self.entries@.len() ==> (#[trigger] self.entries@[i]).wf()
    }

    /// The values of the table, by packed move.
    pub open spec fn view(&self) -> Seq<int> {
        Seq::new(self.entries@.len(), |i: int| self.entries@[i].value as int)
    }

    /// A table of zeros.
    pub fn new() -> (r: CombinedHist)
        ensures
            r.wf(),
            forall|i: int| 0 <= i < MOVE_ENTRIES ==> r@[i] == 0,
    {
        let mut entries: Vec<Entry> = Vec::with_capacity(MOVE_ENTRIES);
        let mut i: usize = 0;
        while i < MOVE_ENTRIES
            invariant
                i <= MOVE_ENTRIES,
                entries@.len() == i,
                forall|k: int| 0 <= k < i ==> (#[trigger] entries@[k]).value == 0,
            decreases MOVE_ENTRIES - i,
        {
            entries.push(Entry { value: 0 });
            i += 1;
        }
        CombinedHist { entries }
    }

    /// Sets every value to zero.
    pub fn clear(&mut self)
        requires
            old(self).wf(),
        ensures
            final(self).wf(),
            forall|i: int| 0 <= i < MOVE_ENTRIES ==> final(self)@[i] == 0,
    {
        let mut i: usize = 0;
        while i < MOVE_ENTRIES
            invariant
                i <= MOVE_ENTRIES,
                self.entries@.len() == MOVE_ENTRIES,
                forall|k: int| 0 <= k < i ==> (#[trigger] self.entries@[k]).value == 0,
            decreases MOVE_ENTRIES - i,
        {
            self.entries[i] = Entry { value: 0 };
            i += 1;
        }
    }

    /// The value of the move `mv`.
    pub fn get(&self, mv: Move) -> (r: i32)
        requires
            self.wf(),
            mv.raw < MOVE_ENTRIES,
        ensures
            r == self@[mv.raw as int],
            -HISTORY_LIMIT <= r <= HISTORY_LIMIT,
    {
        self.entries[mv.raw() as usize].get()
    }

    /// Moves the value of the move `mv` towards the side of `bonus`.
    pub fn update(&mut self, mv: Move, bonus: i32)
        requires
            old(self).wf(),
            mv.raw < MOVE_ENTRIES,
            -HISTORY_LIMIT <= bonus <= HISTORY_LIMIT,
        ensures
            final(self).wf(),
            final(self)@ == old(self)@.update(
                mv.raw as int,
                gravity(old(self)@[mv.raw as int], bonus as int),
            ),
    {
        let i = mv.raw() as usize;
        let mut e = self.entries[i];
        e.update(bonus);
        self.entries[i] = e;
        proof {
            assert(self@ =~= old(self)@.update(
                mv.raw as int,
                gravity(old(self)@[mv.raw as int], bonus as int),
            ));
        }
    }
}

/// The tables that the key of the walls and capstones chooses from.
pub struct HashedTable {
    pub entries: Vec<CombinedHist>,
}

impl HashedTable {
    pub open spec fn wf(&self) -> bool {
        &&& self.entries@.len() == BLOCKER_ENTRIES
        &&& forall|i: int| 0 <= i < self.entries@.len() ==> (#[trigger] self.entries@[i]).wf()
    }

    /// The tables' values, by table and by packed move.
    pub open spec fn view(&self) -> Seq<Seq<int>> {
        Seq::new(self.entries@.len(), |i: int| self.entries@[i]@)
    }

    /// Whether every value is zero.
    pub open spec fn is_zero(&self) -> bool {
        forall|i: int, j: int|
            0 <= i < BLOCKER_ENTRIES && 0 <= j < MOVE_ENTRIES ==> (#[trigger] self@[i][j]) == 0
    }

    /// Tables of zeros.
    pub fn new() -> (r: HashedTable)
        ensures
            r.wf(),
            r.is_zero(),
    {
        let mut entries: Vec<CombinedHist> = Vec::with_capacity(BLOCKER_ENTRIES);
        let mut i: usize = 0;
        while i < BLOCKER_ENTRIES
            invariant
                i <= BLOCKER_ENTRIES,
                entries@.len() == i,
                forall|k: int| 0 <= k < i ==> (#[trigger] entries@[k]).wf(),
                forall|k: int, j: int|
                    0 <= k < i && 0 <= j < MOVE_ENTRIES ==> (#[trigger] entries@[k]@[j]) == 0,
            decreases BLOCKER_ENTRIES - i,
        {
            entries.push(CombinedHist::new());
            i += 1;
        }
        HashedTable { entries }
    }

    /// Sets every value to zero.
    pub fn clear(&mut self)
        requires
            old(self).wf(),
        ensures
            final(self).wf(),
            final(self).is_zero(),
    {
        let mut i: usize = 0;
        while i < BLOCKER_ENTRIES
            invariant
                i <= BLOCKER_ENTRIES,
                self.entries@.len() == BLOCKER_ENTRIES,
                forall|k: int| 0 <= k < BLOCKER_ENTRIES ==> (#[trigger] self.entries@[k]).wf(),
                forall|k: int, j: int|
                    0 <= k < i && 0 <= j < MOVE_ENTRIES ==> (#[trigger] self.entries@[k]@[j]) == 0,
            decreases BLOCKER_ENTRIES - i,
        {
            self.entries[i].clear();
            i += 1;
        }
    }
}

/// The tables of one side: one for all positions, and those chosen by the
/// key of the walls and capstones.
pub struct SidedTables {
    pub hist: CombinedHist,
    pub blocker: HashedTable,
}

impl SidedTables {
    pub open spec fn wf(&self) -> bool {
        self.hist.wf() && self.blocker.wf()
    }

    /// Whether every value is zero.
    pub open spec fn is_zero(&self) -> bool {
        &&& forall|j: int| 0 <= j < MOVE_ENTRIES ==> (#[trigger] self.hist@[j]) == 0
        &&& self.blocker.is_zero()
    }

    pub fn new() -> (r: SidedTables)
        ensures
            r.wf(),
            r.is_zero(),
    {
        SidedTables { hist: CombinedHist::new(), blocker: HashedTable::new() }
    }

    /// Sets every value to zero.
    pub fn clear(&mut self)
        requires
            old(self).wf(),
        ensures
            final(self).wf(),
            final(self).is_zero(),
    {
        self.hist.clear();
        self.blocker.clear();
    }

    /// The number of the table that the key `blocker_key` chooses.
    pub open spec fn bucket(blocker_key: u64) -> int {
        blocker_key as int % (BLOCKER_ENTRIES as int)
    }

    /// The score of the move `mv` where the walls and capstones have the key `blocker_key`.
    pub open spec fn score_of(&self, blocker_key: u64, mv: Move) -> int {
        self.hist@[mv.raw as int] + self.blocker@[SidedTables::bucket(blocker_key)][mv.raw as int]
    }
}

/// What the search has learnt of each side's moves: how often they were
/// good, overall and by the layout of walls and capstones.
pub struct History {
    pub tables: Vec<SidedTables>,
}

impl History {
    pub open spec fn wf(&self) -> bool {
        &&& self.tables@.len() == 2
        &&& self.tables@[0].wf()
        &&& self.tables@[1].wf()
    }

    /// A history of zeros.
    pub fn new() -> (r: History)
        ensures
            r.wf(),
            r.tables@[0].is_zero(),
            r.tables@[1].is_zero(),
    {
        let mut tables: Vec<SidedTables> = Vec::with_capacity(2);
        tables.push(SidedTables::new());
        tables.push(SidedTables::new());
        History { tables }
    }

    /// A history of zeros, on the heap.
    pub fn boxed() -> (r: Box<History>)
        ensures
            r.wf(),
            r.tables@[0].is_zero(),
            r.tables@[1].is_zero(),
    {
        Box::new(History::new())
    }

    /// Sets every value to zero.
    pub fn clear(&mut self)
        requires
            old(self).wf(),
        ensures
            final(self).wf(),
            final(self).tables@[0].is_zero(),
            final(self).tables@[1].is_zero(),
    {
        self.tables[0].clear();
        self.tables[1].clear();
    }

    /// Moves the two values of the move `mv` for the side to move in `pos`
    /// towards the side of `bonus`: the overall one, and the one for the
    /// layout of walls and capstones in `pos`. A bonus larger in size than
    /// the greatest bonus counts as the greatest.
    pub fn update(&mut self, pos: &Position, mv: Move, bonus: i32)
        requires
            old(self).wf(),
            mv.raw < MOVE_ENTRIES,
        ensures
            final(self).wf(),
            final(self).tables@[pos.stm.flipped().index()] == old(self).tables@[pos.stm.flipped().index()],
            final(self).tables@[pos.stm.index()].hist@ == old(self).tables@[pos.stm.index()].hist@.update(
                mv.raw as int,
                gravity(old(self).tables@[pos.stm.index()].hist@[mv.raw as int], clamped(bonus as int)),
            ),
            final(self).tables@[pos.stm.index()].blocker@ == old(
                self,
            ).tables@[pos.stm.index()].blocker@.update(
                SidedTables::bucket(pos.blocker_key),
                old(self).tables@[pos.stm.index()].blocker@[SidedTables::bucket(
                    pos.blocker_key,
                )].update(
                    mv.raw as int,
                    gravity(
                        old(self).tables@[pos.stm.index()].blocker@[SidedTables::bucket(
                            pos.blocker_key,
                        )][mv.raw as int],
                        clamped(bonus as int),
                    ),
                ),
            ),
    {
        let bonus = if bonus < -MAX_BONUS {
            -MAX_BONUS
        } else if bonus > MAX_BONUS {
            MAX_BONUS
        } else {
            bonus
        };
        let side = pos.stm().idx();
        let bucket = (pos.blocker_key() % (BLOCKER_ENTRIES as u64)) as usize;
        self.tables[side].hist.update(mv, bonus);
        self.tables[side].blocker.entries[bucket].update(mv, bonus);
        proof {
            let s = pos.stm.index();
            let b = SidedTables::bucket(pos.blocker_key);
            assert(self.tables@[s].blocker@ =~= old(self).tables@[s].blocker@.update(
                b,
                self.tables@[s].blocker@[b],
            ));
        }
    }

    /// The score of the move `mv` for the side to move in `pos`: the sum
    /// of its overall value and its value for the layout of walls and
    /// capstones in `pos`.
    pub fn score(&self, pos: &Position, mv: Move) -> (r: i32)
        requires
            self.wf(),
            mv.raw < MOVE_ENTRIES,
        ensures
            r == self.tables@[pos.stm.index()].score_of(pos.blocker_key, mv),
            -2 * HISTORY_LIMIT <= r <= 2 * HISTORY_LIMIT,
    {
        let side = pos.stm().idx();
        let bucket = (pos.blocker_key() % (BLOCKER_ENTRIES as u64)) as usize;
        let tables = &self.tables[side];
        let mut history: i32 = 0;
        history += tables.hist.get(mv);
        history += tables.blocker.entries[bucket].get(mv);
        history
    }
}

} // verus!
