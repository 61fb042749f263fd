use vstd::prelude::*;

verus! {

/// The number of entries that one mebibyte of the table's budget pays for.
pub const ENTRIES_PER_MIB: usize = 65536;

/// The number of generations that the table tells apart.
pub const GENERATIONS: u8 = 64;

/// What a stored score says of the true one.
#[derive(Clone, Copy, Debug, PartialEq, Eq, Structural)]
pub enum Bound {
    /// Nothing: the entry is empty.
    Empty,
    Exact,
    Lower,
    Upper,
}

/// What the table keeps of one position: the upper half of its key, the
/// best move found, packed, the score, the depth of the search that gave
/// it, what the score says of the true one, and the generation of the
/// search that stored it.
#[derive(Clone, Copy, Debug, PartialEq, Eq, Structural)]
pub struct TtEntry {
    pub key32: u32,
    pub mv: u16,
    pub score: i16,
    pub depth: u8,
    pub bound: Bound,
    pub generation: u8,
}

/// What a look into the table gives: the move of the position's entry, if
/// there is one, and the entry itself if it is deep enough.
#[derive(Clone, Copy, Debug, PartialEq, Eq, Structural)]
pub struct TtProbe {
    pub mv: Option<u16>,
    pub entry: Option<TtEntry>,
}

/// The upper half of a key, by which an entry knows its position.
pub open spec fn key_tag(key: u64) -> u32 {
    (key / 0x1_0000_0000) as u32
}

/// The empty entry.
pub open spec fn empty_entry() -> TtEntry {
    TtEntry { key32: 0, mv: 0, score: 0, depth: 0, bound: Bound::Empty, generation: 0 }
}

/// A table of search results, with one place for each key.
pub struct TranspositionTable {
    pub entries: Vec<TtEntry>,
    pub generation: u8,
}

impl TranspositionTable {
    pub open spec fn wf(&self) -> bool {
        &&& self.entries@.len() >= 1
        &&& self.generation < GENERATIONS
        &&& forall|i: int|
            0 <= i < self.entries@.len() ==> (#[trigger] self.entries@[i]).generation < GENERATIONS
    }

    /// The place of the entry for `key`.
    pub open spec fn slot(&self, key: u64) -> int {
        key as int % self.entries@.len() as int
    }

    /// Whether the entry `e` is the one of the position with the key `key`.
    pub open spec fn matches(e: TtEntry, key: u64) -> bool {
        e.bound != Bound::Empty && e.key32 == key_tag(key)
    }

    /// The number of generations since the entry `e` was stored.
    pub open spec fn age(&self, e: TtEntry) -> int {
        (self.generation + GENERATIONS - e.generation) % (GENERATIONS as int)
    }

    /// Whether a result of a search to depth `depth` takes the place of
    /// the entry `old`: always if its score is exact or the place is empty;
    /// else if its depth, with two for each generation that `old` has aged,
    /// is at least the depth of `old`.
    pub open spec fn replaces(&self, old: TtEntry, depth: u8, bound: Bound) -> bool {
        bound == Bound::Exact || old.bound == Bound::Empty || depth + 2 * self.age(old)
            >= old.depth
    }

    /// An empty table of `mib` mebibytes.
    pub fn new(mib: usize) -> (r: TranspositionTable)
        requires
            1 <= mib <= 32768,
        ensures
            r.wf(),
            r.entries@.len() == mib * ENTRIES_PER_MIB,
            r.generation == 0,
            forall|i: int| 0 <= i < r.entries@.len() ==> r.entries@[i] == empty_entry(),
    {
        let n = mib * ENTRIES_PER_MIB;
        let mut entries: Vec<TtEntry> = Vec::with_capacity(n);
        let mut i: usize = 0;
        while i < n
            invariant
                i <= n,
                entries@.len() == i,
                forall|k: int| 0 <= k < i ==> entries@[k] == empty_entry(),
            decreases n - i,
        {
            entries.push(
                TtEntry { key32: 0, mv: 0, score: 0, depth: 0, bound: Bound::Empty, generation: 0 },
            );
            i += 1;
        }
        TranspositionTable { entries, generation: 0 }
    }

    /// Empties the table.
    pub fn clear(&mut self)
        requires
            old(self).wf(),
        ensures
            final(self).wf(),
            final(self).entries@.len() == old(self).entries@.len(),
            final(self).generation == 0,
            forall|i: int| 0 <= i < final(self).entries@.len() ==> final(self).entries@[i] == empty_entry(),
    {
        let n = self.entries.len();
        let mut i: usize = 0;
        while i < n
            invariant
                i <= n,
                self.entries@.len() == n,
                forall|k: int| 0 <= k < i ==> self.entries@[k] == empty_entry(),
            decreases n - i,
        {
            self.entries[i] = TtEntry {
                key32: 0,
                mv: 0,
                score: 0,
                depth: 0,
                bound: Bound::Empty,
                generation: 0,
            };
            i += 1;
        }
        self.generation = 0;
    }

    /// Begins a new generation, for a new search.
    pub fn new_search(&mut self)
        requires
            old(self).wf(),
        ensures
            final(self).wf(),
            final(self).entries == old(self).entries,
            final(self).generation == (old(self).generation + 1) % (GENERATIONS as int),
    {
        self.generation = (self.generation + 1) % GENERATIONS;
    }

    /// Looks for the position with the key `key`: gives the move of its
    /// entry, and the entry if its depth is at least `depth`.
    pub fn probe(&self, key: u64, depth: u8) -> (r: TtProbe)
        requires
            self.wf(),
        ensures
            ({
                let e = self.entries@[self.slot(key)];
                &&& r.mv == if TranspositionTable::matches(e, key) {
                    Some(e.mv)
                } else {
                    None
                }
                &&& r.entry == if TranspositionTable::matches(e, key) && e.depth >= depth {
                    Some(e)
                } else {
                    None
                }
            }),
    {
        let n = self.entries.len() as u64;
        let e = self.entries[(key % n) as usize];
        if e.bound != Bound::Empty && e.key32 == (key / 0x1_0000_0000) as u32 {
            TtProbe {
                mv: Some(e.mv),
                entry: if e.depth >= depth {
                    Some(e)
                } else {
                    None
                },
            }
        } else {
            TtProbe { mv: None, entry: None }
        }
    }

    /// Stores a result for the position with the key `key`, if it takes
    /// the place of what is there.
    pub fn store(&mut self, key: u64, mv: u16, score: i16, depth: u8, bound: Bound)
        requires
            old(self).wf(),
            bound != Bound::Empty,
        ensures
            final(self).wf(),
            final(self).generation == old(self).generation,
            final(self).entries@ == if old(self).replaces(
                old(self).entries@[old(self).slot(key)],
                depth,
                bound,
            ) {
                old(self).entries@.update(
                    old(self).slot(key),
                    TtEntry {
                        key32: key_tag(key),
                        mv,
                        score,
                        depth,
                        bound,
                        generation: old(self).generation,
                    },
                )
            } else {
                old(self).entries@
            },
    {
        let n = self.entries.len() as u64;
        let i = (key % n) as usize;
        let e = self.entries[i];
        let age = (self.generation + GENERATIONS - e.generation) % GENERATIONS;
        if bound == Bound::Exact || e.bound == Bound::Empty || depth as u32 + 2 * (age as u32)
            >= e.depth as u32 {
            self.entries[i] = TtEntry {
                key32: (key / 0x1_0000_0000) as u32,
                mv,
                score,
                depth,
                bound,
                generation: self.generation,
            };
        }
    }
}

} // verus!
