use vstd::prelude::*;
use crate::prng::Sfc64;
use crate::types::{PieceType, Player, Square};

verus! {

/// The seed that every key is drawn from.
pub const KEY_SEED: u64 = 0x75e83deec533723c;

/// The number of tiles of one stack that have keys of their own.
pub const MAX_HEIGHT: usize = 64;

pub const TOP_OFFSET: usize = 1;

pub const PLAYER_OFFSET: usize = 109;

pub const TOTAL_KEYS: usize = 4717;

/// The `i`-th word drawn from the generator seeded with the key seed.
pub open spec fn key_word(i: int) -> u64 {
    Sfc64::seeded(KEY_SEED).advanced(i as nat).output()
}

/// The key that stands for the second player being to move.
pub open spec fn p2_key_word() -> u64 {
    key_word(0)
}

/// The key of a top tile of kind `pt` on square `sq`.
pub open spec fn top_key_word(pt: PieceType, sq: int) -> u64 {
    key_word(TOP_OFFSET + sq * 3 + pt.index())
}

/// The key of a tile of `player` at `height` tiles above the ground on square `sq`.
pub open spec fn player_key_word(height: int, player: Player, sq: int) -> u64 {
    key_word(PLAYER_OFFSET + sq * 128 + height * 2 + player.index())
}

/// The table of all keys, drawn once from the generator.
pub struct Keys {
    pub table: Vec<u64>,
}

impl Keys {
    /// The table holds the first words drawn from the seeded generator, in order.
    pub open spec fn wf(&self) -> bool {
        self.table@ == Sfc64::seeded(KEY_SEED).stream(TOTAL_KEYS as nat)
    }

    pub fn new() -> (r: Keys)
        ensures
            r.wf(),
    {
        let mut table: Vec<u64> = Vec::new();
        let mut i: usize = 0;
        while i < TOTAL_KEYS
            invariant
                i <= TOTAL_KEYS,
                table@.len() == i,
            decreases TOTAL_KEYS - i,
        {
            table.push(0);
            i += 1;
        }
        let mut prng = Sfc64::new(KEY_SEED);
        prng.fill(&mut table);
        Keys { table }
    }
}

pub fn p2_key(keys: &Keys) -> (r: u64)
    requires
        keys.wf(),
    ensures
        r == p2_key_word(),
{
    keys.table[0]
}

pub fn top_key(keys: &Keys, pt: PieceType, sq: Square) -> (r: u64)
    requires
        keys.wf(),
        sq.wf(),
    ensures
        r == top_key_word(pt, sq.index()),
{
    keys.table[TOP_OFFSET + sq.idx() * 3 + pt.idx()]
}

pub fn player_key(keys: &Keys, height: u8, player: Player, sq: Square) -> (r: u64)
    requires
        keys.wf(),
        sq.wf(),
        height < MAX_HEIGHT,
    ensures
        r == player_key_word(height as int, player, sq.index()),
{
    keys.table[PLAYER_OFFSET + sq.idx() * 128 + (height as usize) * 2 + player.idx()]
}

} // verus!
