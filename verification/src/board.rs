use vstd::prelude::*;
use crate::bits::{bit, lemma_bit_shifts, lemma_join, lemma_low_bit, lemma_low_mask, lemma_split};
use crate::types::{Piece, PieceType, Player, Square};

verus! {

/// The owner of the tile that bit `k` of a colour word stands for.
pub open spec fn owner_of_bit(players: u64, k: int) -> Player {
    if bit(players, k) {
        Player::P2
    } else {
        Player::P1
    }
}

/// The owners of the `h` lowest tiles of a colour word, lowest first.
pub open spec fn owners(players: u64, h: int) -> Seq<Player> {
    Seq::new(h as nat, |k: int| owner_of_bit(players, k))
}

/// One stack as a list: the owners of its tiles from the ground up, and
/// the kind of its top tile. The tiles below the top are flats.
pub struct StackView {
    pub tiles: Seq<Player>,
    pub top: Option<PieceType>,
}

impl StackView {
    pub open spec fn wf(self) -> bool {
        self.tiles.len() == 0 <==> self.top.is_none()
    }

    /// The owner of the top tile of a stack that is not empty.
    pub open spec fn owner(self) -> Player {
        self.tiles.last()
    }

    pub open spec fn empty() -> StackView {
        StackView { tiles: Seq::empty(), top: None }
    }

    /// The stack without its `n` top tiles.
    pub open spec fn without_top(self, n: int) -> StackView {
        StackView {
            tiles: self.tiles.subrange(0, self.tiles.len() - n),
            top: if self.tiles.len() == n {
                None
            } else {
                Some(PieceType::Flat)
            },
        }
    }

    /// The `n` top tiles of the stack, lowest first.
    pub open spec fn top_tiles(self, n: int) -> Seq<Player> {
        self.tiles.subrange(self.tiles.len() - n, self.tiles.len() as int)
    }

    /// The stack with `more` set on top of it, the new top tile being of kind `top`.
    pub open spec fn with_on_top(self, more: Seq<Player>, top: PieceType) -> StackView {
        StackView { tiles: self.tiles + more, top: Some(top) }
    }
}

/// The stacks of the 36 squares: for each its height, the colours of its
/// tiles as a word whose lowest bit is the lowest tile (a set bit is a tile
/// of the second player), and the kind of its top tile.
#[derive(Clone, Copy, Debug)]
pub struct Stacks {
    pub heights: [u8; 36],
    pub players: [u64; 36],
    pub tops: [Option<PieceType>; 36],
}

impl Stacks {
    /// Every stack is lower than 64 tiles, has a top tile if and only if it
    /// is not empty, and has no colour bit at or above its height.
    pub open spec fn wf(&self) -> bool {
        forall|i: int|
            0 <= i < 36 ==> {
                &&& (#[trigger] self.heights[i]) < 64
                &&& (self.heights[i] == 0 <==> self.tops[i].is_none())
                &&& self.players[i] >> (self.heights[i] as u64) == 0
            }
    }

    /// The stack on square `i` as a list.
    pub open spec fn view_at(&self, i: int) -> StackView {
        StackView { tiles: owners(self.players[i], self.heights[i] as int), top: self.tops[i] }
    }

    /// All 36 stacks as lists.
    pub open spec fn view(&self) -> Seq<StackView> {
        Seq::new(36, |i: int| self.view_at(i))
    }

    /// The stacks of the empty board.
    pub fn new() -> (r: Stacks)
        ensures
            r.wf(),
            forall|i: int| 0 <= i < 36 ==> r.view_at(i) == StackView::empty(),
    {
        let r = Stacks { heights: [0u8;36], players: [0u64;36], tops: [None;36] };
        proof {
            lemma_low_bit(0, 0);
            assert forall|i: int| 0 <= i < 36 implies r.view_at(i) == StackView::empty() by {
                assert(r.view_at(i).tiles =~= Seq::empty());
            }
        }
        r
    }

    pub fn height(&self, sq: Square) -> (r: u8)
        requires
            sq.wf(),
        ensures
            r == self.heights[sq.index()],
            r == self.view_at(sq.index()).tiles.len(),
    {
        self.heights[sq.idx()]
    }

    pub fn players(&self, sq: Square) -> (r: u64)
        requires
            sq.wf(),
        ensures
            r == self.players[sq.index()],
    {
        self.players[sq.idx()]
    }

    pub fn top(&self, sq: Square) -> (r: Option<PieceType>)
        requires
            sq.wf(),
        ensures
            r == self.tops[sq.index()],
            r == self.view_at(sq.index()).top,
    {
        self.tops[sq.idx()]
    }

    /// The owner of the top tile of the stack on `sq`, if it is not empty.
    pub fn top_owner(&self, sq: Square) -> (r: Option<Player>)
        requires
            self.wf(),
            sq.wf(),
        ensures
            self.heights[sq.index()] == 0 ==> r.is_none(),
            self.heights[sq.index()] > 0 ==> r == Some(self.view_at(sq.index()).owner()),
    {
        let h = self.heights[sq.idx()];
        if h == 0 {
            None
        } else {
            let b = (self.players[sq.idx()] >> ((h - 1) as u64)) & 1;
            proof {
                lemma_low_bit(self.players[sq.index()], (h - 1) as u64);
            }
            if b == 1 {
                Some(Player::P2)
            } else {
                Some(Player::P1)
            }
        }
    }

    /// Puts `piece` on the empty square `sq`.
    pub fn place(&mut self, sq: Square, piece: Piece)
        requires
            old(self).wf(),
            sq.wf(),
            old(self).heights[sq.index()] == 0,
        ensures
            final(self).wf(),
            final(self).view_at(sq.index()) == (StackView {
                tiles: seq![piece.owner()],
                top: Some(piece.kind()),
            }),
            forall|i: int|
                0 <= i < 36 && i != sq.index() ==> final(self).view_at(i) == old(self).view_at(i),
    {
        let i = sq.idx();
        let bits: u64 = match piece.player() {
            Player::P1 => 0,
            Player::P2 => 1,
        };
        self.heights[i] = 1;
        self.players[i] = bits;
        self.tops[i] = Some(piece.pt());
        proof {
            lemma_low_bit(bits, 0);
            assert(final(self).view_at(sq.index()).tiles =~= seq![piece.owner()]);
            assert(forall|k: int| 0 <= k < 36 && k != sq.index() ==> self.heights[k] == old(
                self,
            ).heights[k]);
        }
    }

    /// Takes the `n` top tiles off the stack on `sq`. Returns their colours as
    /// a word whose lowest bit is the lowest of them. What is left has a flat
    /// on top, if anything is left.
    pub fn pickup(&mut self, sq: Square, n: u8) -> (r: u64)
        requires
            old(self).wf(),
            sq.wf(),
            1 <= n <= old(self).heights[sq.index()],
        ensures
            final(self).wf(),
            final(self).view_at(sq.index()) == old(self).view_at(sq.index()).without_top(n as int),
            forall|i: int|
                0 <= i < 36 && i != sq.index() ==> final(self).view_at(i) == old(self).view_at(i),
            r >> (n as u64) == 0,
            owners(r, n as int) == old(self).view_at(sq.index()).top_tiles(n as int),
            r == old(self).players[sq.index()] >> ((old(self).heights[sq.index()] - n) as u64),
    {
        let i = sq.idx();
        let h = self.heights[i];
        let m = h - n;
        let all = self.players[i];
        proof {
            lemma_split(all, h as u64, m as u64, 0);
            lemma_low_mask(all, m as u64, 0);
            lemma_low_bit(all, m as u64);
        }
        let bits = all >> (m as u64);
        let rest = all & ((1u64 << (m as u64)) - 1);
        self.heights[i] = m;
        self.players[i] = rest;
        self.tops[i] = if m == 0 {
            None
        } else {
            Some(PieceType::Flat)
        };
        proof {
            let before = old(self).view_at(sq.index());
            assert forall|k: int| 0 <= k < n implies owner_of_bit(bits, k) == before.tiles[m + k] by {
                lemma_bit_shifts(all, m as u64, k as u64);
            }
            assert(owners(bits, n as int) =~= before.top_tiles(n as int));
            assert forall|k: int| 0 <= k < m implies owner_of_bit(rest, k) == before.tiles[k] by {
                lemma_low_mask(all, m as u64, k as u64);
            }
            assert(final(self).view_at(sq.index()).tiles =~= before.without_top(n as int).tiles);
            assert(forall|k: int| 0 <= k < 36 && k != sq.index() ==> self.heights[k] == old(
                self,
            ).heights[k]);
        }
        bits
    }

    /// Sets `n` tiles on the stack on `sq`: their colours are the `n` low
    /// bits of `owner_bits`, lowest tile first, and the new top tile is of
    /// kind `flavour`.
    pub fn drop(&mut self, sq: Square, n: u8, flavour: PieceType, owner_bits: u64)
        requires
            old(self).wf(),
            sq.wf(),
            1 <= n,
            old(self).heights[sq.index()] + n < 64,
            owner_bits >> (n as u64) == 0,
        ensures
            final(self).wf(),
            final(self).view_at(sq.index()) == old(self).view_at(sq.index()).with_on_top(
                owners(owner_bits, n as int),
                flavour,
            ),
            forall|i: int|
                0 <= i < 36 && i != sq.index() ==> final(self).view_at(i) == old(self).view_at(i),
    {
        let i = sq.idx();
        let h = self.heights[i];
        let all = self.players[i];
        let joined = all | (owner_bits << (h as u64));
        proof {
            lemma_join(all, owner_bits, h as u64, n as u64, 0);
        }
        self.heights[i] = h + n;
        self.players[i] = joined;
        self.tops[i] = Some(flavour);
        proof {
            let before = old(self).view_at(sq.index());
            let after = before.with_on_top(owners(owner_bits, n as int), flavour);
            assert forall|k: int| 0 <= k < h + n implies owner_of_bit(joined, k) == after.tiles[k] by {
                lemma_join(all, owner_bits, h as u64, n as u64, k as u64);
            }
            assert(final(self).view_at(sq.index()).tiles =~= after.tiles);
            assert(forall|k: int| 0 <= k < 36 && k != sq.index() ==> self.heights[k] == old(
                self,
            ).heights[k]);
        }
    }

    /// Makes the top tile of the stack on `sq`, which is not empty, one of kind `kind`.
    pub fn set_top(&mut self, sq: Square, kind: PieceType)
        requires
            old(self).wf(),
            sq.wf(),
            old(self).heights[sq.index()] > 0,
        ensures
            final(self).wf(),
            final(self).view_at(sq.index()) == (StackView {
                tiles: old(self).view_at(sq.index()).tiles,
                top: Some(kind),
            }),
            forall|i: int|
                0 <= i < 36 && i != sq.index() ==> final(self).view_at(i) == old(self).view_at(i),
    {
        self.tops[sq.idx()] = Some(kind);
        proof {
            assert(forall|k: int| 0 <= k < 36 ==> self.heights[k] == old(self).heights[k]);
        }
    }

    /// Turns the wall on top of the stack on `sq` into a flat.
    pub fn smash(&mut self, sq: Square)
        requires
            old(self).wf(),
            sq.wf(),
            old(self).tops[sq.index()] == Some(PieceType::Wall),
        ensures
            final(self).wf(),
            final(self).view_at(sq.index()) == (StackView {
                tiles: old(self).view_at(sq.index()).tiles,
                top: Some(PieceType::Flat),
            }),
            forall|i: int|
                0 <= i < 36 && i != sq.index() ==> final(self).view_at(i) == old(self).view_at(i),
    {
        self.tops[sq.idx()] = Some(PieceType::Flat);
        proof {
            assert(forall|k: int| 0 <= k < 36 ==> self.heights[k] == old(self).heights[k]);
        }
    }
}

} // verus!
