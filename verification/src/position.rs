use vstd::prelude::*;
use crate::bitboard::Bitboard;
use crate::bits::{bit, lemma_bit_shifts, lemma_low_bit, lemma_low_mask, lemma_split};
use crate::board::{owner_of_bit, owners, StackView, Stacks};
use crate::hits::{find_hit_for_dir, lemma_ray_walk, ray_walk};
use crate::fold::{
    lemma_sum_upto_bounds,
    lemma_sum_upto_change,
    lemma_sum_upto_zero,
    lemma_xor_laws,
    lemma_xor_upto_change,
    lemma_xor_upto_zero,
    sum_upto,
    xor_upto,
};
use crate::keys::{
    p2_key,
    p2_key_word,
    player_key,
    player_key_word,
    top_key,
    top_key_word,
    Keys,
};
use crate::takmove::{
    lemma_pattern_groups,
    lemma_pattern_sum,
    lemma_pattern_ones,
    lemma_prefix_sum,
    pattern_bit,
    pattern_carry,
    pattern_drops,
    pattern_ones,
    seq_sum,
    Move,
};
use crate::types::{can_step, Direction, Piece, PieceType, Player, Square};

verus! {

/// The flats that the second player is given when the flats are counted.
pub const KOMI: u32 = 4;

/// The number of flats that each player starts with.
pub const START_FLATS: u8 = 30;

/// The number of capstones that each player starts with.
pub const START_CAPS: u8 = 1;

/// The number of tiles in `tiles` that belong to `p`.
pub open spec fn tiles_of(tiles: Seq<Player>, p: Player) -> int
    decreases tiles.len(),
{
    if tiles.len() == 0 {
        0
    } else {
        tiles_of(tiles.drop_last(), p) + if tiles.last() == p {
            1int
        } else {
            0int
        }
    }
}

pub open spec fn tiles_of_fn(b: Seq<StackView>, p: Player) -> spec_fn(int) -> int {
    |i: int| tiles_of(b[i].tiles, p)
}

/// The number of tiles on the board that belong to `p`, buried ones included.
pub open spec fn board_tiles(b: Seq<StackView>, p: Player) -> int {
    sum_upto(tiles_of_fn(b, p), 36)
}

/// The keys of the tiles numbered `from` to `to - 1` of a stack on square `sq`, combined.
pub open spec fn range_key(tiles: Seq<Player>, from: int, to: int, sq: int) -> u64
    decreases to - from,
{
    if to <= from {
        0
    } else {
        range_key(tiles, from, to - 1, sq) ^ player_key_word(to - 1, tiles[to - 1], sq)
    }
}

/// The keys of all tiles of a stack on square `sq`, combined.
pub open spec fn tiles_key(tiles: Seq<Player>, sq: int) -> u64 {
    range_key(tiles, 0, tiles.len() as int, sq)
}

/// The key of the kind of the top tile; 0 for an empty square.
pub open spec fn top_part(top: Option<PieceType>, sq: int) -> u64 {
    match top {
        Some(t) => top_key_word(t, sq),
        None => 0,
    }
}

/// The key of the top tile if it is a wall or a capstone; 0 otherwise.
pub open spec fn blocker_part(top: Option<PieceType>, sq: int) -> u64 {
    match top {
        Some(t) => if t.blocks() {
            top_key_word(t, sq)
        } else {
            0
        },
        None => 0,
    }
}

/// The key of one stack on square `sq`: its tiles' keys and its top's key.
pub open spec fn stack_key(sv: StackView, sq: int) -> u64 {
    tiles_key(sv.tiles, sq) ^ top_part(sv.top, sq)
}

pub open spec fn stack_key_fn(b: Seq<StackView>) -> spec_fn(int) -> u64 {
    |i: int| stack_key(b[i], i)
}

pub open spec fn blocker_part_fn(b: Seq<StackView>) -> spec_fn(int) -> u64 {
    |i: int| blocker_part(b[i].top, i)
}

/// The key of the side to move.
pub open spec fn side_part(stm: Player) -> u64 {
    match stm {
        Player::P1 => 0,
        Player::P2 => p2_key_word(),
    }
}

/// The key of a board with `stm` to move, computed from nothing but the stacks.
pub open spec fn full_key(b: Seq<StackView>, stm: Player) -> u64 {
    xor_upto(stack_key_fn(b), 36) ^ side_part(stm)
}

/// The key of the walls and capstones on top of the stacks.
pub open spec fn full_blocker_key(b: Seq<StackView>) -> u64 {
    xor_upto(blocker_part_fn(b), 36)
}

pub proof fn lemma_range_key_same(a: Seq<Player>, b: Seq<Player>, from: int, to: int, sq: int)
    requires
        0 <= from,
        to <= a.len(),
        to <= b.len(),
        forall|k: int| from <= k < to ==> a[k] == b[k],
    ensures
        range_key(a, from, to, sq) == range_key(b, from, to, sq),
    decreases to - from,
{
    if to > from {
        lemma_range_key_same(a, b, from, to - 1, sq);
    }
}

/// The key of a stack is the key of its lower part combined with the keys of the tiles above.
pub proof fn lemma_range_key_split(tiles: Seq<Player>, m: int, to: int, sq: int)
    requires
        0 <= m <= to <= tiles.len(),
    ensures
        range_key(tiles, 0, to, sq) == range_key(tiles, 0, m, sq) ^ range_key(tiles, m, to, sq),
    decreases to - m,
{
    if to == m {
        lemma_xor_laws(range_key(tiles, 0, m, sq), 0, 0, 0);
    } else {
        lemma_range_key_split(tiles, m, to - 1, sq);
        lemma_xor_laws(
            range_key(tiles, 0, m, sq),
            range_key(tiles, m, to - 1, sq),
            player_key_word(to - 1, tiles[to - 1], sq),
            0,
        );
    }
}

pub proof fn lemma_tiles_of_split(tiles: Seq<Player>, m: int, p: Player)
    requires
        0 <= m <= tiles.len(),
    ensures
        tiles_of(tiles, p) == tiles_of(tiles.subrange(0, m), p) + tiles_of(
            tiles.subrange(m, tiles.len() as int),
            p,
        ),
        0 <= tiles_of(tiles, p) <= tiles.len(),
    decreases tiles.len(),
{
    if tiles.len() == 0 {
        assert(tiles.subrange(0, m) =~= tiles);
    } else if m == tiles.len() {
        assert(tiles.subrange(0, m) =~= tiles);
        assert(tiles.subrange(m, tiles.len() as int).len() == 0);
        lemma_tiles_of_split(tiles.drop_last(), 0, p);
    } else {
        let front = tiles.drop_last();
        lemma_tiles_of_split(front, m, p);
        assert(front.subrange(0, m) =~= tiles.subrange(0, m));
        assert(tiles.subrange(m, tiles.len() as int).drop_last() =~= front.subrange(
            m,
            front.len() as int,
        ));
    }
}

pub proof fn lemma_tiles_of_both(tiles: Seq<Player>)
    ensures
        tiles_of(tiles, Player::P1) + tiles_of(tiles, Player::P2) == tiles.len(),
    decreases tiles.len(),
{
    if tiles.len() > 0 {
        lemma_tiles_of_both(tiles.drop_last());
    }
}

/// The number of steps from square `i` to the edge of the board in direction `dir`.
pub open spec fn ray_len(i: int, dir: Direction) -> int {
    match dir {
        Direction::Up => 5 - i / 6,
        Direction::Down => i / 6,
        Direction::Left => i % 6,
        Direction::Right => 5 - i % 6,
    }
}

/// The square `j` steps from square `i` in direction `dir`.
pub open spec fn step_to(i: int, dir: Direction, j: int) -> int {
    match dir {
        Direction::Up => i + 6 * j,
        Direction::Down => i - 6 * j,
        Direction::Left => i - j,
        Direction::Right => i + j,
    }
}

pub proof fn lemma_ray_step(i: int, dir: Direction, j: int)
    requires
        0 <= i < 36,
        0 <= j < ray_len(i, dir),
    ensures
        can_step(step_to(i, dir, j), dir),
        0 <= step_to(i, dir, j + 1) < 36,
        step_to(i, dir, j + 1) == step_to(i, dir, j) + dir.delta(),
        ray_len(step_to(i, dir, j), dir) == ray_len(i, dir) - j,
        step_to(i, dir, 0) == i,
{
}

/// Whether the top tile of the stack is a wall or a capstone.
pub open spec fn blocking(sv: StackView) -> bool {
    sv.top.is_some() && sv.top.unwrap().blocks()
}

/// The stacks after the tiles `carried`, lowest first, have been dropped
/// in groups of the sizes `drops` on the squares that follow `at` in steps
/// of `delta`. The last group gets a top tile of kind `kind`, the others
/// are topped by flats.
pub open spec fn drop_all(
    b: Seq<StackView>,
    at: int,
    delta: int,
    carried: Seq<Player>,
    kind: PieceType,
    drops: Seq<int>,
) -> Seq<StackView>
    decreases drops.len(),
{
    if drops.len() == 0 {
        b
    } else {
        let k = drops[0];
        let dst = at + delta;
        let top = if drops.len() == 1 {
            kind
        } else {
            PieceType::Flat
        };
        drop_all(
            b.update(dst, b[dst].with_on_top(carried.subrange(0, k), top)),
            dst,
            delta,
            carried.subrange(k, carried.len() as int),
            kind,
            drops.subrange(1, drops.len() as int),
        )
    }
}

/// The stacks after the spread from square `o` in direction `dir` with drop pattern `p`.
pub open spec fn spread_board(b: Seq<StackView>, o: int, dir: Direction, p: int) -> Seq<StackView> {
    let n = pattern_carry(p);
    drop_all(
        b.update(o, b[o].without_top(n)),
        o,
        dir.delta(),
        b[o].top_tiles(n),
        b[o].top.unwrap(),
        pattern_drops(p),
    )
}

/// A position as plain values: who is to move, how many moves were made,
/// the 36 stacks, and each player's flats and capstones in hand.
pub struct PositionView {
    pub stm: Player,
    pub ply: nat,
    pub stacks: Seq<StackView>,
    pub flats: Seq<int>,
    pub caps: Seq<int>,
}

impl PositionView {
    /// The owner of a tile placed now: in the first two moves each player
    /// places a flat of the other's.
    pub open spec fn placed_owner(self) -> Player {
        if self.ply < 2 {
            self.stm.flipped()
        } else {
            self.stm
        }
    }

    /// Whether the placement `mv` is allowed: on an empty square; in the
    /// first two moves a flat, later a tile of a kind that is in hand.
    pub open spec fn legal_placement(self, mv: Move) -> bool {
        &&& self.stacks[mv.sq().index()].tiles.len() == 0
        &&& if self.ply < 2 {
            mv.pt() == PieceType::Flat
        } else if mv.pt() == PieceType::Capstone {
            self.caps[self.stm.index()] > 0
        } else {
            self.flats[self.stm.index()] > 0
        }
    }

    /// Whether the spread `mv` is allowed: not in the first two moves; from
    /// a stack of the side to move that is at least as high as the number of
    /// tiles carried; over squares of the board of which none has a wall or a
    /// capstone on top, but that the last may have a wall if a capstone
    /// arrives there alone.
    pub open spec fn legal_spread(self, mv: Move) -> bool {
        let o = mv.sq().index();
        let dir = mv.dir();
        let p = mv.pattern_bits();
        let d = pattern_drops(p).len() as int;
        &&& self.ply >= 2
        &&& self.stacks[o].tiles.len() > 0
        &&& self.stacks[o].owner() == self.stm
        &&& pattern_carry(p) <= self.stacks[o].tiles.len()
        &&& d <= ray_len(o, dir)
        &&& forall|j: int| 1 <= j < d ==> !blocking(#[trigger] self.stacks[step_to(o, dir, j)])
        &&& blocking(self.stacks[step_to(o, dir, d)]) ==> {
            &&& self.stacks[step_to(o, dir, d)].top == Some(PieceType::Wall)
            &&& self.stacks[o].top == Some(PieceType::Capstone)
            &&& pattern_bit(p, 5)
        }
    }

    /// Whether `mv` is a move of the game in this position.
    pub open spec fn legal(self, mv: Move) -> bool {
        &&& mv.wf()
        &&& if mv.is_spread() {
            self.legal_spread(mv)
        } else {
            self.legal_placement(mv)
        }
    }

    /// The position after the move `mv`.
    pub open spec fn apply(self, mv: Move) -> PositionView {
        if mv.is_spread() {
            PositionView {
                stm: self.stm.flipped(),
                ply: self.ply + 1,
                stacks: spread_board(self.stacks, mv.sq().index(), mv.dir(), mv.pattern_bits()),
                flats: self.flats,
                caps: self.caps,
            }
        } else {
            let owner = self.placed_owner();
            let o = owner.index();
            let cap = mv.pt() == PieceType::Capstone;
            PositionView {
                stm: self.stm.flipped(),
                ply: self.ply + 1,
                stacks: self.stacks.update(
                    mv.sq().index(),
                    StackView { tiles: seq![owner], top: Some(mv.pt()) },
                ),
                flats: if cap {
                    self.flats
                } else {
                    self.flats.update(o, self.flats[o] - 1)
                },
                caps: if cap {
                    self.caps.update(o, self.caps[o] - 1)
                } else {
                    self.caps
                },
            }
        }
    }
}

/// The position after the moves `moves`, made one after the other from `v`.
pub open spec fn replay(v: PositionView, moves: Seq<Move>) -> PositionView
    decreases moves.len(),
{
    if moves.len() == 0 {
        v
    } else {
        replay(v, moves.drop_last()).apply(moves.last())
    }
}

/// Whether each of the moves `moves`, made one after the other from `v`,
/// is legal where it is made.
pub open spec fn playable(v: PositionView, moves: Seq<Move>) -> bool
    decreases moves.len(),
{
    if moves.len() == 0 {
        true
    } else {
        playable(v, moves.drop_last()) && replay(v, moves.drop_last()).legal(moves.last())
    }
}

/// A position of the game, with sets of squares and keys kept up to date with the stacks.
#[derive(Clone, Copy, Debug)]
pub struct Position {
    pub stacks: Stacks,
    pub player_bb: [Bitboard; 2],
    pub type_bb: [Bitboard; 3],
    pub flats_in_hand: [u8; 2],
    pub caps_in_hand: [u8; 2],
    pub stm: Player,
    pub ply: u32,
    pub key: u64,
    pub blocker_key: u64,
}

impl Position {
    pub open spec fn view(&self) -> PositionView {
        PositionView {
            stm: self.stm,
            ply: self.ply as nat,
            stacks: self.stacks@,
            flats: Seq::new(2, |p: int| self.flats_in_hand[p] as int),
            caps: Seq::new(2, |p: int| self.caps_in_hand[p] as int),
        }
    }

    /// The sets of squares say of square `i` what the stack `sv` on it says.
    pub open spec fn square_ok(&self, sv: StackView, i: int) -> bool {
        &&& self.player_bb[0].contains(i) <==> (sv.tiles.len() > 0 && sv.owner() == Player::P1)
        &&& self.player_bb[1].contains(i) <==> (sv.tiles.len() > 0 && sv.owner() == Player::P2)
        &&& self.type_bb[0].contains(i) <==> sv.top == Some(PieceType::Flat)
        &&& self.type_bb[1].contains(i) <==> sv.top == Some(PieceType::Wall)
        &&& self.type_bb[2].contains(i) <==> sv.top == Some(PieceType::Capstone)
    }

    /// The sets of squares and the keys are those of the stacks `b` with this side to move.
    pub open spec fn derived_from(&self, b: Seq<StackView>) -> bool {
        &&& self.player_bb[0].wf()
        &&& self.player_bb[1].wf()
        &&& self.type_bb[0].wf()
        &&& self.type_bb[1].wf()
        &&& self.type_bb[2].wf()
        &&& forall|i: int| 0 <= i < 36 ==> #[trigger] self.square_ok(b[i], i)
        &&& self.key == full_key(b, self.stm)
        &&& self.blocker_key == full_blocker_key(b)
    }

    /// Each player's tiles in hand and on the board are 31 together, of
    /// which one capstone, in hand or on the board; the first player moves when the
    /// number of moves made is even; and a player who is yet to get the
    /// first flat placed has one in hand.
    pub open spec fn reserves_ok(&self) -> bool {
        &&& self.flats_in_hand[0] <= START_FLATS
        &&& self.flats_in_hand[1] <= START_FLATS
        &&& self.caps_in_hand[0] <= START_CAPS
        &&& self.caps_in_hand[1] <= START_CAPS
        &&& self.flats_in_hand[0] + self.caps_in_hand[0] + board_tiles(self.stacks@, Player::P1)
            == 31
        &&& self.flats_in_hand[1] + self.caps_in_hand[1] + board_tiles(self.stacks@, Player::P2)
            == 31
        &&& self.caps_in_hand[0] + board_caps(self.stacks@, Player::P1) == 1
        &&& self.caps_in_hand[1] + board_caps(self.stacks@, Player::P2) == 1
        &&& self.stm.index() == self.ply % 2
        &&& self.ply < 2 ==> self.flats_in_hand[0] > 0
        &&& self.ply == 0 ==> self.flats_in_hand[1] > 0
    }

    /// What holds of every position: the stacks are well formed, the sets of
    /// squares and the keys are those that the stacks give, and the tiles in
    /// hand and on the board add up.
    pub open spec fn wf(&self) -> bool {
        &&& self.stacks.wf()
        &&& self.derived_from(self.stacks@)
        &&& self.reserves_ok()
    }

    /// The position before the first move: an empty board, each player
    /// with 30 flats and a capstone in hand, the first player to move.
    pub open spec fn start_view() -> PositionView {
        PositionView {
            stm: Player::P1,
            ply: 0,
            stacks: Seq::new(36, |i: int| StackView::empty()),
            flats: seq![30int, 30int],
            caps: seq![1int, 1int],
        }
    }

    pub fn startpos() -> (r: Position)
        ensures
            r.wf(),
            r@ == Position::start_view(),
    {
        let r = Position {
            stacks: Stacks::new(),
            player_bb: [Bitboard::empty(), Bitboard::empty()],
            type_bb: [Bitboard::empty(), Bitboard::empty(), Bitboard::empty()],
            flats_in_hand: [START_FLATS, START_FLATS],
            caps_in_hand: [START_CAPS, START_CAPS],
            stm: Player::P1,
            ply: 0,
            key: 0,
            blocker_key: 0,
        };
        proof {
            let b = r.stacks@;
            assert(b =~= Position::start_view().stacks);
            assert forall|i: int| 0 <= i < 36 implies #[trigger] r.square_ok(b[i], i) by {}
            lemma_xor_laws(0, 0, 0, 0);
            assert forall|j: int| 0 <= j < 36 implies #[trigger] stack_key_fn(b)(j) == 0 by {}
            lemma_xor_upto_zero(stack_key_fn(b), 36);
            assert forall|j: int| 0 <= j < 36 implies #[trigger] blocker_part_fn(b)(j) == 0 by {}
            lemma_xor_upto_zero(blocker_part_fn(b), 36);
            assert forall|j: int| 0 <= j < 36 implies #[trigger] tiles_of_fn(b, Player::P1)(j)
                == 0 by {}
            lemma_sum_upto_zero(tiles_of_fn(b, Player::P1), 36);
            assert forall|j: int| 0 <= j < 36 implies #[trigger] tiles_of_fn(b, Player::P2)(j)
                == 0 by {}
            lemma_sum_upto_zero(tiles_of_fn(b, Player::P2), 36);
            assert forall|j: int| 0 <= j < 36 implies #[trigger] cap_of_fn(b, Player::P1)(j)
                == 0 by {}
            lemma_sum_upto_zero(cap_of_fn(b, Player::P1), 36);
            assert forall|j: int| 0 <= j < 36 implies #[trigger] cap_of_fn(b, Player::P2)(j)
                == 0 by {}
            lemma_sum_upto_zero(cap_of_fn(b, Player::P2), 36);
            assert(r@.flats =~= seq![30int, 30int]);
            assert(r@.caps =~= seq![1int, 1int]);
        }
        r
    }

    pub fn stm(&self) -> (r: Player)
        ensures
            r == self.stm,
    {
        self.stm
    }

    pub fn ply(&self) -> (r: u32)
        ensures
            r == self.ply,
    {
        self.ply
    }

    pub fn stacks(&self) -> (r: &Stacks)
        ensures
            *r == self.stacks,
    {
        &self.stacks
    }

    pub fn key(&self) -> (r: u64)
        ensures
            r == self.key,
    {
        self.key
    }

    pub fn blocker_key(&self) -> (r: u64)
        ensures
            r == self.blocker_key,
    {
        self.blocker_key
    }

    pub fn flats_in_hand(&self, player: Player) -> (r: u8)
        ensures
            r == self.flats_in_hand[player.index()],
    {
        self.flats_in_hand[player.idx()]
    }

    pub fn caps_in_hand(&self, player: Player) -> (r: u8)
        ensures
            r == self.caps_in_hand[player.index()],
    {
        self.caps_in_hand[player.idx()]
    }

    /// The squares whose top tile belongs to `player`.
    pub fn player_bb(&self, player: Player) -> (r: Bitboard)
        ensures
            r == self.player_bb[player.index()],
    {
        self.player_bb[player.idx()]
    }

    /// The squares whose top tile is of kind `pt`.
    pub fn type_bb(&self, pt: PieceType) -> (r: Bitboard)
        ensures
            r == self.type_bb[pt.index()],
    {
        self.type_bb[pt.idx()]
    }

    /// The squares whose top tile is `piece`.
    pub fn player_piece_bb(&self, piece: Piece) -> (r: Bitboard)
        ensures
            r.raw == self.player_bb[piece.owner().index()].raw & self.type_bb[piece.kind().index()].raw,
            self.wf() ==> r.wf(),
            forall|i: int|
                r.contains(i) <==> (self.player_bb[piece.owner().index()].contains(i)
                    && self.type_bb[piece.kind().index()].contains(i)),
    {
        self.player_bb[piece.player().idx()].and(self.type_bb[piece.pt().idx()])
    }

    /// The squares that are not empty.
    pub fn occ(&self) -> (r: Bitboard)
        ensures
            r.raw == self.player_bb[0].raw | self.player_bb[1].raw,
            self.wf() ==> r.wf(),
            forall|i: int|
                r.contains(i) <==> (self.player_bb[0].contains(i) || self.player_bb[1].contains(i)),
            self.wf() ==> forall|i: int|
                0 <= i < 36 ==> (r.contains(i) <==> self.stacks.heights[i] > 0),
    {
        let r = self.player_bb[0].or(self.player_bb[1]);
        proof {
            if self.wf() {
                assert forall|i: int| 0 <= i < 36 implies (r.contains(i) <==> self.stacks.heights[i]
                    > 0) by {
                    assert(self.square_ok(self.stacks@[i], i));
                }
            }
        }
        r
    }

    pub open spec fn empty_squares_spec(&self) -> Bitboard {
        Bitboard {
            raw: !(self.player_bb[0].raw | self.player_bb[1].raw) & crate::bitboard::BOARD_MASK,
        }
    }

    /// The squares that are empty.
    pub fn empty_squares(&self) -> (r: Bitboard)
        requires
            self.wf(),
        ensures
            r == self.empty_squares_spec(),
            r.wf(),
            forall|i: int| r.contains(i) <==> (0 <= i < 36 && self.stacks.heights[i] == 0),
    {
        self.occ().cmpl()
    }

    /// The set of the squares whose top tile is a wall or a capstone.
    pub open spec fn blockers_bb(&self) -> Bitboard {
        Bitboard { raw: self.type_bb[1].raw | self.type_bb[2].raw }
    }

    /// The squares whose top tile is a wall or a capstone.
    pub fn all_blockers(&self) -> (r: Bitboard)
        ensures
            r == self.blockers_bb(),
            self.wf() ==> r.wf(),
            forall|i: int|
                r.contains(i) <==> (self.type_bb[1].contains(i) || self.type_bb[2].contains(i)),
            self.wf() ==> forall|i: int|
                0 <= i < 36 ==> (r.contains(i) <==> (self.stacks.tops[i].is_some()
                    && self.stacks.tops[i].unwrap().blocks())),
    {
        let r = self.type_bb[1].or(self.type_bb[2]);
        proof {
            if self.wf() {
                assert forall|i: int| 0 <= i < 36 implies (r.contains(i) <==> (
                self.stacks.tops[i].is_some() && self.stacks.tops[i].unwrap().blocks())) by {
                    assert(self.square_ok(self.stacks@[i], i));
                }
            }
        }
        r
    }

    /// Whether the top tile on square `i` belongs to `player` and is a flat or a capstone.
    pub open spec fn on_road(&self, player: Player, i: int) -> bool {
        &&& 0 <= i < 36
        &&& self.stacks.heights[i] > 0
        &&& self.stacks.view_at(i).owner() == player
        &&& self.stacks.tops[i].unwrap().in_road()
    }

    /// The squares that can be part of a road of `player`.
    pub fn roads(&self, player: Player) -> (r: Bitboard)
        requires
            self.wf(),
        ensures
            r.wf(),
            forall|i: int| r.contains(i) <==> self.on_road(player, i),
    {
        let own = self.player_bb[player.idx()];
        let r = own.and(self.type_bb[0].or(self.type_bb[2]));
        proof {
            assert forall|i: int| r.contains(i) <==> self.on_road(player, i) by {
                if 0 <= i < 36 {
                    assert(self.square_ok(self.stacks@[i], i));
                }
            }
        }
        r
    }
}


pub proof fn lemma_rekey(x: u64, s: u64, a: u64, b: u64, t_old: u64, t_new: u64)
    by (bit_vector)
    ensures
        (x ^ s) ^ (((a ^ b) ^ t_old) ^ t_new) == (((x ^ (a ^ t_old)) ^ (b ^ t_new)) ^ s),
        x ^ (t_old ^ t_new) == (x ^ t_old) ^ t_new,
        (a ^ b) ^ a == b,
        a ^ (a ^ b) == b,
{
}

/// The keys of the tiles numbered `from` to `to - 1` of a stack on `sq`
/// whose colours are `players`, combined.
fn tiles_range_key(keys: &Keys, players: u64, from: u8, to: u8, sq: Square) -> (r: u64)
    requires
        keys.wf(),
        sq.wf(),
        from <= to < 64,
    ensures
        r == range_key(owners(players, to as int), from as int, to as int, sq.index()),
{
    let mut acc: u64 = 0;
    let mut j: u8 = from;
    while j < to
        invariant
            keys.wf(),
            sq.wf(),
            from <= j <= to < 64,
            acc == range_key(owners(players, to as int), from as int, j as int, sq.index()),
        decreases to - j,
    {
        let b = (players >> (j as u64)) & 1;
        proof {
            lemma_low_bit(players, j as u64);
        }
        let owner = if b == 1 {
            Player::P2
        } else {
            Player::P1
        };
        assert(owner == owners(players, to as int)[j as int]);
        acc = acc ^ player_key(keys, j, owner, sq);
        j += 1;
    }
    acc
}

impl Position {
    /// Brings the sets of squares and the keys up to date after the stack
    /// on `sq` has changed: `before` are the stacks that they still
    /// describe, `old_top` the top that `sq` had, and `delta` the keys of
    /// the tiles of `sq` before and after, combined.
    fn sync_square(
        &mut self,
        keys: &Keys,
        sq: Square,
        before: Ghost<Seq<StackView>>,
        old_top: Option<PieceType>,
        delta: u64,
    )
        requires
            keys.wf(),
            sq.wf(),
            old(self).stacks.wf(),
            before@.len() == 36,
            old(self).derived_from(before@),
            forall|i: int| 0 <= i < 36 && i != sq.index() ==> old(self).stacks@[i] == before@[i],
            old_top == before@[sq.index()].top,
            delta == tiles_key(before@[sq.index()].tiles, sq.index()) ^ tiles_key(
                old(self).stacks@[sq.index()].tiles,
                sq.index(),
            ),
        ensures
            final(self).derived_from(final(self).stacks@),
            final(self).stacks == old(self).stacks,
            final(self).stm == old(self).stm,
            final(self).ply == old(self).ply,
            final(self).flats_in_hand == old(self).flats_in_hand,
            final(self).caps_in_hand == old(self).caps_in_hand,
    {
        let ghost now = self.stacks@;
        let ghost s = sq.index();
        self.player_bb[0] = self.player_bb[0].without_sq(sq);
        self.player_bb[1] = self.player_bb[1].without_sq(sq);
        self.type_bb[0] = self.type_bb[0].without_sq(sq);
        self.type_bb[1] = self.type_bb[1].without_sq(sq);
        self.type_bb[2] = self.type_bb[2].without_sq(sq);
        match self.stacks.top_owner(sq) {
            Some(owner) => {
                let p = owner.idx();
                self.player_bb[p] = self.player_bb[p].with_sq(sq);
            },
            None => {},
        }
        let new_top = self.stacks.top(sq);
        let mut top_delta: u64 = 0;
        let mut blocker_delta: u64 = 0;
        match old_top {
            Some(t) => {
                let k = top_key(keys, t, sq);
                top_delta = top_delta ^ k;
                if t != PieceType::Flat {
                    blocker_delta = blocker_delta ^ k;
                }
            },
            None => {},
        }
        match new_top {
            Some(t) => {
                let k = top_key(keys, t, sq);
                top_delta = top_delta ^ k;
                if t != PieceType::Flat {
                    blocker_delta = blocker_delta ^ k;
                }
                let ti = t.idx();
                self.type_bb[ti] = self.type_bb[ti].with_sq(sq);
            },
            None => {},
        }
        proof {
            let t_old = top_part(old_top, s);
            let t_new = top_part(new_top, s);
            let b_old = blocker_part(old_top, s);
            let b_new = blocker_part(new_top, s);
            lemma_xor_laws(t_old, t_new, 0, 0);
            lemma_xor_laws(t_new, 0, 0, 0);
            lemma_xor_laws(b_old, b_new, 0, 0);
            lemma_xor_laws(b_new, 0, 0, 0);
            assert(top_delta == t_old ^ t_new);
            assert(blocker_delta == b_old ^ b_new);
        }
        self.key = self.key ^ ((delta ^ top_delta));
        self.blocker_key = self.blocker_key ^ blocker_delta;
        proof {
            let t_old = top_part(old_top, s);
            let t_new = top_part(new_top, s);
            let a = tiles_key(before@[s].tiles, s);
            let b = tiles_key(now[s].tiles, s);
            assert forall|i: int| 0 <= i < 36 implies #[trigger] self.square_ok(now[i], i) by {
                assert(old(self).square_ok(before@[i], i));
            }
            let f = stack_key_fn(before@);
            let g = stack_key_fn(now);
            assert forall|j: int| 0 <= j < 36 && j != s implies #[trigger] f(j) == g(j) by {}
            lemma_xor_upto_change(f, g, 36, s);
            let x = xor_upto(f, 36);
            lemma_rekey(x, side_part(self.stm), a, b, t_old, t_new);
            lemma_xor_laws(delta, t_old, t_new, 0);
            assert(f(s) == a ^ t_old);
            assert(g(s) == b ^ t_new);
            assert(self.key == full_key(now, self.stm));
            let fb = blocker_part_fn(before@);
            let gb = blocker_part_fn(now);
            assert forall|j: int| 0 <= j < 36 && j != s implies #[trigger] fb(j) == gb(j) by {}
            lemma_xor_upto_change(fb, gb, 36, s);
            lemma_rekey(xor_upto(fb, 36), 0, 0, 0, fb(s), gb(s));
            assert(self.blocker_key == full_blocker_key(now));
        }
    }

    /// Takes the `n` top tiles off the stack on `sq` and returns their colours.
    pub(crate) fn lift(&mut self, keys: &Keys, sq: Square, n: u8) -> (r: u64)
        requires
            keys.wf(),
            sq.wf(),
            old(self).stacks.wf(),
            old(self).derived_from(old(self).stacks@),
            1 <= n <= old(self).stacks.heights[sq.index()],
        ensures
            final(self).stacks.wf(),
            final(self).derived_from(final(self).stacks@),
            final(self).stacks@ == old(self).stacks@.update(
                sq.index(),
                old(self).stacks@[sq.index()].without_top(n as int),
            ),
            r >> (n as u64) == 0,
            owners(r, n as int) == old(self).stacks@[sq.index()].top_tiles(n as int),
            final(self).stm == old(self).stm,
            final(self).ply == old(self).ply,
            final(self).flats_in_hand == old(self).flats_in_hand,
            final(self).caps_in_hand == old(self).caps_in_hand,
    {
        let ghost before = self.stacks@;
        let ghost s = sq.index();
        let old_top = self.stacks.top(sq);
        let h = self.stacks.height(sq);
        let all = self.stacks.players(sq);
        let bits = self.stacks.pickup(sq, n);
        let delta = tiles_range_key(keys, all, h - n, h, sq);
        proof {
            let t = before[s].tiles;
            let m = h - n;
            assert(self.stacks@ =~= before.update(s, before[s].without_top(n as int)));
            assert(before[s] == old(self).stacks.view_at(s));
            assert(owners(all, h as int) =~= t);
            lemma_range_key_split(t, m, h as int, s);
            lemma_range_key_same(t, t.subrange(0, m), 0, m, s);
            lemma_rekey(0, 0, range_key(t, 0, m, s), range_key(t, m, h as int, s), 0, 0);
            lemma_xor_laws(range_key(t, 0, m, s), range_key(t, m, h as int, s), 0, 0);
            assert forall|i: int| 0 <= i < 36 implies #[trigger] self.square_ok(before[i], i) by {
                assert(old(self).square_ok(before[i], i));
            }
        }
        self.sync_square(keys, sq, Ghost(before), old_top, delta);
        bits
    }

    /// Sets `n` tiles with the colours `bits` on the stack on `sq`; the new
    /// top tile is of kind `flavour`.
    pub(crate) fn lower(&mut self, keys: &Keys, sq: Square, n: u8, flavour: PieceType, bits: u64)
        requires
            keys.wf(),
            sq.wf(),
            old(self).stacks.wf(),
            old(self).derived_from(old(self).stacks@),
            1 <= n,
            old(self).stacks.heights[sq.index()] + n < 64,
            bits >> (n as u64) == 0,
        ensures
            final(self).stacks.wf(),
            final(self).derived_from(final(self).stacks@),
            final(self).stacks@ == old(self).stacks@.update(
                sq.index(),
                old(self).stacks@[sq.index()].with_on_top(owners(bits, n as int), flavour),
            ),
            final(self).stm == old(self).stm,
            final(self).ply == old(self).ply,
            final(self).flats_in_hand == old(self).flats_in_hand,
            final(self).caps_in_hand == old(self).caps_in_hand,
    {
        let ghost before = self.stacks@;
        let ghost s = sq.index();
        let old_top = self.stacks.top(sq);
        let h = self.stacks.height(sq);
        self.stacks.drop(sq, n, flavour, bits);
        let all = self.stacks.players(sq);
        let delta = tiles_range_key(keys, all, h, h + n, sq);
        proof {
            let t = self.stacks@[s].tiles;
            assert(self.stacks@ =~= before.update(
                s,
                before[s].with_on_top(owners(bits, n as int), flavour),
            ));
            assert(self.stacks@[s] == self.stacks.view_at(s));
            assert(before[s] == old(self).stacks.view_at(s));
            assert(before[s].tiles.len() == h);
            assert(self.stacks.view_at(s).tiles.len() == h + n);
            assert(self.stacks.heights[s] == h + n);
            assert(owners(all, (h + n) as int) =~= t);
            lemma_range_key_split(t, h as int, (h + n) as int, s);
            lemma_range_key_same(t, before[s].tiles, 0, h as int, s);
            lemma_rekey(0, 0, range_key(t, 0, h as int, s), range_key(t, h as int, h + n, s), 0, 0);
            assert forall|i: int| 0 <= i < 36 implies #[trigger] self.square_ok(before[i], i) by {
                assert(old(self).square_ok(before[i], i));
            }
        }
        self.sync_square(keys, sq, Ghost(before), old_top, delta);
    }
}


/// Changing one stack changes a player's number of tiles on the board by
/// the difference between the new stack and the old.
pub proof fn lemma_board_tiles_update(b: Seq<StackView>, i: int, sv: StackView, p: Player)
    requires
        b.len() == 36,
        0 <= i < 36,
    ensures
        board_tiles(b.update(i, sv), p) == board_tiles(b, p) - tiles_of(b[i].tiles, p) + tiles_of(
            sv.tiles,
            p,
        ),
{
    let f = tiles_of_fn(b, p);
    let g = tiles_of_fn(b.update(i, sv), p);
    assert forall|j: int| 0 <= j < 36 && j != i implies #[trigger] f(j) == g(j) by {}
    lemma_sum_upto_change(f, g, 36, i);
}

/// 1 if the stack has a capstone of `p` on top, and 0 if not.
pub open spec fn cap_of(sv: StackView, p: Player) -> int {
    if sv.tiles.len() > 0 && sv.top == Some(PieceType::Capstone) && sv.owner() == p {
        1
    } else {
        0
    }
}

pub open spec fn cap_of_fn(b: Seq<StackView>, p: Player) -> spec_fn(int) -> int {
    |i: int| cap_of(b[i], p)
}

/// The number of capstones of `p` on the board.
pub open spec fn board_caps(b: Seq<StackView>, p: Player) -> int {
    sum_upto(cap_of_fn(b, p), 36)
}

/// Changing one stack changes a player's number of capstones on the
/// board by the difference between the new stack and the old.
pub proof fn lemma_board_caps_update(b: Seq<StackView>, i: int, sv: StackView, p: Player)
    requires
        b.len() == 36,
        0 <= i < 36,
    ensures
        board_caps(b.update(i, sv), p) == board_caps(b, p) - cap_of(b[i], p) + cap_of(sv, p),
{
    let f = cap_of_fn(b, p);
    let g = cap_of_fn(b.update(i, sv), p);
    assert forall|j: int| 0 <= j < 36 && j != i implies #[trigger] f(j) == g(j) by {}
    lemma_sum_upto_change(f, g, 36, i);
}

/// No stack holds more tiles of a player than the board.
pub proof fn lemma_stack_le_board(b: Seq<StackView>, i: int, p: Player)
    requires
        b.len() == 36,
        0 <= i < 36,
    ensures
        0 <= tiles_of(b[i].tiles, p) <= board_tiles(b, p),
{
    let f = tiles_of_fn(b, p);
    assert forall|j: int| 0 <= j < 36 implies #[trigger] f(j) >= 0 by {
        lemma_tiles_of_split(b[j].tiles, 0, p);
    }
    lemma_sum_upto_bounds(f, 36, i);
    assert(f(i) == tiles_of(b[i].tiles, p));
}

/// No stack is higher than the number of tiles on the board.
pub proof fn lemma_height_le_board(b: Seq<StackView>, i: int)
    requires
        b.len() == 36,
        0 <= i < 36,
    ensures
        b[i].tiles.len() <= board_tiles(b, Player::P1) + board_tiles(b, Player::P2),
        0 <= board_tiles(b, Player::P1),
        0 <= board_tiles(b, Player::P2),
{
    let f1 = tiles_of_fn(b, Player::P1);
    let f2 = tiles_of_fn(b, Player::P2);
    assert forall|j: int| 0 <= j < 36 implies #[trigger] f1(j) >= 0 by {
        lemma_tiles_of_split(b[j].tiles, 0, Player::P1);
    }
    assert forall|j: int| 0 <= j < 36 implies #[trigger] f2(j) >= 0 by {
        lemma_tiles_of_split(b[j].tiles, 0, Player::P2);
    }
    lemma_sum_upto_bounds(f1, 36, i);
    lemma_sum_upto_bounds(f2, 36, i);
    lemma_tiles_of_both(b[i].tiles);
}

impl Position {
    /// Places the tile of the placement `mv`.
    fn place_tile(&mut self, keys: &Keys, mv: Move)
        requires
            keys.wf(),
            old(self).wf(),
            mv.wf(),
            !mv.is_spread(),
            old(self)@.legal_placement(mv),
        ensures
            final(self).stacks.wf(),
            final(self).derived_from(final(self).stacks@),
            final(self).stacks@ == old(self)@.apply(mv).stacks,
            final(self)@.flats == old(self)@.apply(mv).flats,
            final(self)@.caps == old(self)@.apply(mv).caps,
            final(self).stm == old(self).stm,
            final(self).ply == old(self).ply,
            final(self).flats_in_hand[0] <= START_FLATS,
            final(self).flats_in_hand[1] <= START_FLATS,
            final(self).caps_in_hand[0] <= START_CAPS,
            final(self).caps_in_hand[1] <= START_CAPS,
            final(self).flats_in_hand[0] + final(self).caps_in_hand[0] + board_tiles(
                final(self).stacks@,
                Player::P1,
            ) == 31,
            final(self).flats_in_hand[1] + final(self).caps_in_hand[1] + board_tiles(
                final(self).stacks@,
                Player::P2,
            ) == 31,
            old(self).ply == 0 ==> final(self).flats_in_hand[0] == old(self).flats_in_hand[0],
            final(self).caps_in_hand[0] + board_caps(final(self).stacks@, Player::P1) == 1,
            final(self).caps_in_hand[1] + board_caps(final(self).stacks@, Player::P2) == 1,
    {
        let sq = mv.sq();
        let pt = mv.pt();
        let owner = if self.ply < 2 {
            self.stm.flip()
        } else {
            self.stm
        };
        let o = owner.idx();
        let ghost b0 = self.stacks@;
        proof {
            assert(self.square_ok(b0[sq.index()], sq.index()));
            assert(self@.flats[o as int] == self.flats_in_hand[o as int]);
            assert(self@.caps[o as int] == self.caps_in_hand[o as int]);
        }
        match pt {
            PieceType::Capstone => {
                self.caps_in_hand[o] = self.caps_in_hand[o] - 1;
            },
            _ => {
                self.flats_in_hand[o] = self.flats_in_hand[o] - 1;
            },
        }
        let bits: u64 = match owner {
            Player::P1 => 0,
            Player::P2 => 1,
        };
        proof {
            lemma_low_bit(bits, 0);
            assert forall|i: int| 0 <= i < 36 implies #[trigger] self.square_ok(b0[i], i) by {
                assert(old(self).square_ok(b0[i], i));
            }
        }
        self.lower(keys, sq, 1, pt, bits);
        proof {
            let sv = StackView { tiles: seq![owner], top: Some(pt) };
            assert(b0[sq.index()].tiles =~= Seq::empty());
            assert(b0[sq.index()].with_on_top(owners(bits, 1), pt).tiles =~= sv.tiles);
            assert(self.stacks@ == b0.update(sq.index(), sv));
            lemma_board_tiles_update(b0, sq.index(), sv, Player::P1);
            lemma_board_tiles_update(b0, sq.index(), sv, Player::P2);
            lemma_board_caps_update(b0, sq.index(), sv, Player::P1);
            lemma_board_caps_update(b0, sq.index(), sv, Player::P2);
            assert(sv.tiles.drop_last() =~= Seq::empty());
            assert(tiles_of(sv.tiles, owner) == 1);
            assert(tiles_of(sv.tiles, owner.flipped()) == 0);
            assert(tiles_of(b0[sq.index()].tiles, Player::P1) == 0);
            assert(tiles_of(b0[sq.index()].tiles, Player::P2) == 0);
            assert(self@.flats =~= old(self)@.apply(mv).flats);
            assert(self@.caps =~= old(self)@.apply(mv).caps);
        }
    }

    /// Makes the top tile of the stack on `sq`, which is not empty, one of kind `kind`.
    pub(crate) fn retop(&mut self, keys: &Keys, sq: Square, kind: PieceType)
        requires
            keys.wf(),
            sq.wf(),
            old(self).stacks.wf(),
            old(self).derived_from(old(self).stacks@),
            old(self).stacks.heights[sq.index()] > 0,
        ensures
            final(self).stacks.wf(),
            final(self).derived_from(final(self).stacks@),
            final(self).stacks@ == old(self).stacks@.update(
                sq.index(),
                StackView { tiles: old(self).stacks@[sq.index()].tiles, top: Some(kind) },
            ),
            final(self).stm == old(self).stm,
            final(self).ply == old(self).ply,
            final(self).flats_in_hand == old(self).flats_in_hand,
            final(self).caps_in_hand == old(self).caps_in_hand,
    {
        let ghost before = self.stacks@;
        let ghost s = sq.index();
        let old_top = self.stacks.top(sq);
        self.stacks.set_top(sq, kind);
        proof {
            assert(self.stacks@ =~= before.update(
                s,
                StackView { tiles: before[s].tiles, top: Some(kind) },
            ));
            lemma_xor_laws(tiles_key(before[s].tiles, s), 0, 0, 0);
            assert forall|i: int| 0 <= i < 36 implies #[trigger] self.square_ok(before[i], i) by {
                assert(old(self).square_ok(before[i], i));
            }
        }
        self.sync_square(keys, sq, Ghost(before), old_top, 0);
    }

    /// Turns the wall on `sq` into a flat.
    fn flatten_wall(&mut self, keys: &Keys, sq: Square)
        requires
            keys.wf(),
            sq.wf(),
            old(self).stacks.wf(),
            old(self).derived_from(old(self).stacks@),
            old(self).stacks.tops[sq.index()] == Some(PieceType::Wall),
        ensures
            final(self).stacks.wf(),
            final(self).derived_from(final(self).stacks@),
            final(self).stacks@ == old(self).stacks@.update(
                sq.index(),
                StackView { tiles: old(self).stacks@[sq.index()].tiles, top: Some(PieceType::Flat) },
            ),
            final(self).stm == old(self).stm,
            final(self).ply == old(self).ply,
            final(self).flats_in_hand == old(self).flats_in_hand,
            final(self).caps_in_hand == old(self).caps_in_hand,
    {
        let ghost before = self.stacks@;
        let ghost s = sq.index();
        self.stacks.smash(sq);
        proof {
            assert(self.stacks@ =~= before.update(
                s,
                StackView { tiles: before[s].tiles, top: Some(PieceType::Flat) },
            ));
            lemma_xor_laws(tiles_key(before[s].tiles, s), 0, 0, 0);
            assert forall|i: int| 0 <= i < 36 implies #[trigger] self.square_ok(before[i], i) by {
                assert(old(self).square_ok(before[i], i));
            }
        }
        self.sync_square(keys, sq, Ghost(before), Some(PieceType::Wall), 0);
    }

    /// Moves the tiles of the spread `mv`.
    #[verifier::rlimit(60)]
    fn spread_tiles(&mut self, keys: &Keys, mv: Move)
        requires
            keys.wf(),
            old(self).wf(),
            mv.wf(),
            mv.is_spread(),
            old(self)@.legal_spread(mv),
        ensures
            final(self).stacks.wf(),
            final(self).derived_from(final(self).stacks@),
            final(self).stacks@ == old(self)@.apply(mv).stacks,
            board_tiles(final(self).stacks@, Player::P1) == board_tiles(
                old(self).stacks@,
                Player::P1,
            ),
            board_tiles(final(self).stacks@, Player::P2) == board_tiles(
                old(self).stacks@,
                Player::P2,
            ),
            board_caps(final(self).stacks@, Player::P1) == board_caps(old(self).stacks@, Player::P1),
            board_caps(final(self).stacks@, Player::P2) == board_caps(old(self).stacks@, Player::P2),
            final(self).stm == old(self).stm,
            final(self).ply == old(self).ply,
            final(self).flats_in_hand == old(self).flats_in_hand,
            final(self).caps_in_hand == old(self).caps_in_hand,
    {
        let origin = mv.sq();
        let dir = mv.dir();
        let n = mv.carry();
        let ghost p = mv.pattern_bits();
        let ghost o = origin.index();
        let ghost b0 = self.stacks@;
        let ghost dl = dir.delta();
        let ghost dseq = pattern_drops(p);
        let ghost target = spread_board(b0, o, dir, p);
        let kind = match self.stacks.top(origin) {
            Some(k) => k,
            None => PieceType::Flat,
        };
        let drops = mv.drops();
        proof {
            lemma_pattern_groups(p, 6);
            lemma_pattern_sum(p, 6);
            assert(b0[o] == self.stacks.view_at(o));
            lemma_height_le_board(b0, o);
            lemma_board_tiles_update(b0, o, b0[o].without_top(n as int), Player::P1);
            lemma_board_tiles_update(b0, o, b0[o].without_top(n as int), Player::P2);
            lemma_tiles_of_split(b0[o].tiles, b0[o].tiles.len() - n, Player::P1);
            lemma_tiles_of_split(b0[o].tiles, b0[o].tiles.len() - n, Player::P2);
            assert(dseq.subrange(0, 0) =~= Seq::<int>::empty());
            assert(dseq.subrange(0, dseq.len() as int) =~= dseq);
            lemma_board_caps_update(b0, o, b0[o].without_top(n as int), Player::P1);
            lemma_board_caps_update(b0, o, b0[o].without_top(n as int), Player::P2);
        }
        let ghost mover = self.stm;
        let ghost carry1 = cap_of(b0[o], Player::P1);
        let ghost carry2 = cap_of(b0[o], Player::P2);
        let mut carried = self.lift(keys, origin, n);
        let mut left: u8 = n;
        let mut sq = origin;
        let mut j: usize = 0;
        proof {
            assert forall|m: int| 0 < m <= ray_len(o, dir) implies self.stacks@[#[trigger] step_to(
                o,
                dir,
                m,
            )] == b0[step_to(o, dir, m)] by {}
            assert(owners(carried, left as int).last() == b0[o].tiles.last());
        }
        while j < drops.len()
            invariant
                keys.wf(),
                0 <= o < 36,
                forall|m: int|
                    j < m <= ray_len(o, dir) ==> self.stacks@[#[trigger] step_to(o, dir, m)]
                        == b0[step_to(o, dir, m)],
                forall|m: int|
                    1 <= m < dseq.len() ==> !blocking(#[trigger] b0[step_to(o, dir, m)]),
                blocking(b0[step_to(o, dir, dseq.len() as int)]) ==> b0[step_to(
                    o,
                    dir,
                    dseq.len() as int,
                )].top == Some(PieceType::Wall),
                left > 0 ==> owners(carried, left as int).last() == mover,
                carry1 == if kind == PieceType::Capstone && mover == Player::P1 {
                    1int
                } else {
                    0int
                },
                carry2 == if kind == PieceType::Capstone && mover == Player::P2 {
                    1int
                } else {
                    0int
                },
                board_caps(self.stacks@, Player::P1) + (if j < dseq.len() {
                    carry1
                } else {
                    0int
                }) == board_caps(b0, Player::P1),
                board_caps(self.stacks@, Player::P2) + (if j < dseq.len() {
                    carry2
                } else {
                    0int
                }) == board_caps(b0, Player::P2),
                dl == dir.delta(),
                b0.len() == 36,
                drops@.len() == dseq.len(),
                forall|i: int| 0 <= i < dseq.len() ==> drops@[i] as int == dseq[i],
                forall|i: int| 0 <= i < dseq.len() ==> 1 <= #[trigger] dseq[i],
                0 <= j <= dseq.len(),
                dseq.len() <= ray_len(o, dir),
                sq.wf(),
                sq.index() == step_to(o, dir, j as int),
                self.stacks.wf(),
                self.derived_from(self.stacks@),
                n == seq_sum(dseq),
                n <= 6,
                left == n - seq_sum(dseq.subrange(0, j as int)),
                carried >> (left as u64) == 0,
                drop_all(
                    self.stacks@,
                    sq.index(),
                    dl,
                    owners(carried, left as int),
                    kind,
                    dseq.subrange(j as int, dseq.len() as int),
                ) == target,
                board_tiles(self.stacks@, Player::P1) + tiles_of(
                    owners(carried, left as int),
                    Player::P1,
                ) == board_tiles(b0, Player::P1),
                board_tiles(self.stacks@, Player::P2) + tiles_of(
                    owners(carried, left as int),
                    Player::P2,
                ) == board_tiles(b0, Player::P2),
                board_tiles(b0, Player::P1) + board_tiles(b0, Player::P2) <= 62,
                self.stm == old(self).stm,
                self.ply == old(self).ply,
                self.flats_in_hand == old(self).flats_in_hand,
                self.caps_in_hand == old(self).caps_in_hand,
            decreases drops.len() - j,
        {
            let k = drops[j];
            let ghost c = owners(carried, left as int);
            let ghost b = self.stacks@;
            let ghost rest_drops = dseq.subrange(j as int, dseq.len() as int);
            proof {
                lemma_prefix_sum(dseq, j as int);
                lemma_prefix_sum(dseq, j as int + 1);
                lemma_ray_step(o, dir, j as int);
                assert(k as int == dseq[j as int]);
            }
            let next = sq.shift_checked(dir).unwrap();
            let last = j + 1 == drops.len();
            let flavour = if last {
                kind
            } else {
                PieceType::Flat
            };
            proof {
                lemma_split(carried, left as u64, k as u64, 0);
                lemma_low_bit(carried, k as u64);
            }
            let chunk = carried & ((1u64 << (k as u64)) - 1);
            let rest = carried >> (k as u64);
            proof {
                assert forall|i: int| 0 <= i < k implies owner_of_bit(chunk, i) == c[i] by {
                    lemma_low_mask(carried, k as u64, i as u64);
                }
                assert(owners(chunk, k as int) =~= c.subrange(0, k as int));
                assert forall|i: int| 0 <= i < left - k implies owner_of_bit(rest, i) == c[k + i] by {
                    lemma_bit_shifts(carried, k as u64, i as u64);
                }
                assert(owners(rest, (left - k) as int) =~= c.subrange(k as int, left as int));
                lemma_height_le_board(b, next.index());
                lemma_tiles_of_both(c);
                assert(b[next.index()] == self.stacks.view_at(next.index()));
            }
            if last && kind == PieceType::Capstone {
                let top = self.stacks.top(next);
                if top == Some(PieceType::Wall) {
                    self.flatten_wall(keys, next);
                }
            }
            let ghost b1 = self.stacks@;
            proof {
                assert(b1[next.index()] == self.stacks.view_at(next.index()));
                assert(b1[next.index()].tiles == b[next.index()].tiles);
            }
            self.lower(keys, next, k, flavour, chunk);
            proof {
                let dst = next.index();
                let sv = b[dst].with_on_top(c.subrange(0, k as int), flavour);
                assert(b1[dst].with_on_top(c.subrange(0, k as int), flavour) == sv);
                assert(self.stacks@ =~= b.update(dst, sv));
                assert(rest_drops[0] == k);
                assert(rest_drops.subrange(1, rest_drops.len() as int) =~= dseq.subrange(
                    j as int + 1,
                    dseq.len() as int,
                ));
                assert(rest_drops.len() == 1 <==> last);
                lemma_board_tiles_update(b, dst, sv, Player::P1);
                lemma_board_tiles_update(b, dst, sv, Player::P2);
                lemma_tiles_of_split(sv.tiles, b[dst].tiles.len() as int, Player::P1);
                lemma_tiles_of_split(sv.tiles, b[dst].tiles.len() as int, Player::P2);
                assert(sv.tiles.subrange(0, b[dst].tiles.len() as int) =~= b[dst].tiles);
                assert(sv.tiles.subrange(b[dst].tiles.len() as int, sv.tiles.len() as int)
                    =~= c.subrange(0, k as int));
                lemma_tiles_of_split(c, k as int, Player::P1);
                lemma_tiles_of_split(c, k as int, Player::P2);
                assert(dst == step_to(o, dir, j as int + 1));
                assert(b[dst] == b0[dst]);
                if last {
                    assert(k == left);
                    assert(sv.tiles.last() == c[k as int - 1]);
                } else {
                    assert(!blocking(b0[step_to(o, dir, j as int + 1)]));
                }
                lemma_board_caps_update(b, dst, sv, Player::P1);
                lemma_board_caps_update(b, dst, sv, Player::P2);
                assert forall|m: int| j + 1 < m <= ray_len(o, dir) implies self.stacks@[#[trigger] step_to(
                    o,
                    dir,
                    m,
                )] == b0[step_to(o, dir, m)] by {
                    assert(b[step_to(o, dir, m)] == b0[step_to(o, dir, m)]);
                }
                if left - k > 0 {
                    assert(owners(rest, (left - k) as int).last() == c.last());
                }
            }
            carried = rest;
            left = left - k;
            sq = next;
            j += 1;
        }
    }

    /// Makes the move `mv`, which is legal in this position.
    pub fn apply_move_in_place(&mut self, mv: Move, keys: &Keys)
        requires
            keys.wf(),
            old(self).wf(),
            old(self)@.legal(mv),
            old(self).ply < u32::MAX,
        ensures
            final(self).wf(),
            final(self)@ == old(self)@.apply(mv),
    {
        if mv.is_spread() {
            self.spread_tiles(keys, mv);
        } else {
            self.place_tile(keys, mv);
        }
        let ghost mid = *self;
        self.stm = self.stm.flip();
        self.ply = self.ply + 1;
        self.key = self.key ^ p2_key(keys);
        proof {
            let b = self.stacks@;
            assert forall|i: int| 0 <= i < 36 implies #[trigger] self.square_ok(b[i], i) by {
                assert(mid.square_ok(b[i], i));
            }
            lemma_xor_laws(xor_upto(stack_key_fn(b), 36), p2_key_word(), 0, 0);
            assert(self@.flats =~= old(self)@.apply(mv).flats);
            assert(self@.caps =~= old(self)@.apply(mv).caps);
        }
    }

    /// The position after the move `mv`, which is legal in this position.
    pub fn apply_move(&self, mv: Move, keys: &Keys) -> (r: Position)
        requires
            keys.wf(),
            self.wf(),
            self@.legal(mv),
            self.ply < u32::MAX,
        ensures
            r.wf(),
            r@ == self@.apply(mv),
    {
        let mut next = *self;
        next.apply_move_in_place(mv, keys);
        next
    }
}


impl Position {
    /// Whether the spread `mv` is allowed, told by where the ray from its
    /// square in its direction ends: it passes fewer squares than the ray
    /// has steps, or as many and ends on a square without a wall or
    /// capstone, or on a wall that a capstone arriving alone flattens.
    pub open spec fn spread_ok_by_hit(&self, mv: Move) -> bool {
        let o = mv.sq().index();
        let p = mv.pattern_bits();
        let d = pattern_ones(p);
        let hit = ray_walk(self.blockers_bb(), o, mv.dir());
        &&& self.ply >= 2
        &&& self.stacks.heights[o] > 0
        &&& self.stacks.view_at(o).owner() == self.stm
        &&& pattern_carry(p) <= self.stacks.heights[o]
        &&& (d < hit.0 || (d == hit.0 && (!blocking(self.stacks@[hit.1]) || (self.stacks.tops[hit.1]
            == Some(PieceType::Wall) && self.stacks.tops[o] == Some(PieceType::Capstone)
            && pattern_bit(p, 5)))))
    }

    pub proof fn lemma_blockers(&self)
        requires
            self.wf(),
        ensures
            forall|i: int|
                0 <= i < 36 ==> (self.blockers_bb().contains(i) <==> blocking(
                    #[trigger] self.stacks@[i],
                )),
    {
        let r = self.blockers_bb();
        assert forall|i: int| 0 <= i < 36 implies (r.contains(i) <==> blocking(
            #[trigger] self.stacks@[i],
        )) by {
            assert(self.square_ok(self.stacks@[i], i));
            crate::bits::lemma_bit_and_or_xor(self.type_bb[1].raw, self.type_bb[2].raw, i as u64);
        }
    }

    /// A spread is allowed exactly when the end of its ray lets it pass.
    pub proof fn lemma_legal_spread_by_hit(&self, mv: Move)
        requires
            self.wf(),
            mv.wf(),
            mv.is_spread(),
        ensures
            self@.legal_spread(mv) <==> self.spread_ok_by_hit(mv),
    {
        let o = mv.sq().index();
        let dir = mv.dir();
        let p = mv.pattern_bits();
        let d = pattern_ones(p);
        let b = self.blockers_bb();
        let hit = ray_walk(b, o, dir);
        let v = self@;
        lemma_ray_walk(b, o, dir);
        self.lemma_blockers();
        lemma_pattern_ones(p);
        assert(v.stacks[o] == self.stacks.view_at(o));
        if d <= ray_len(o, dir) {
            lemma_ray_step(o, dir, d - 1);
        }
        if self.spread_ok_by_hit(mv) {
            assert forall|j: int| 1 <= j < d implies !blocking(
                #[trigger] v.stacks[step_to(o, dir, j)],
            ) by {
                lemma_ray_step(o, dir, j - 1);
                assert(!b.contains(step_to(o, dir, j)));
            }
            if d < hit.0 {
                assert(!b.contains(step_to(o, dir, d)));
            }
        }
        if v.legal_spread(mv) {
            if d > hit.0 {
                assert(hit.0 < ray_len(o, dir));
                assert(b.contains(hit.1));
                assert(hit.0 >= 1);
                assert(!blocking(v.stacks[step_to(o, dir, hit.0)]));
            }
        }
    }

    /// Whether the move `mv` is allowed in this position.
    pub fn is_legal(&self, mv: Move) -> (r: bool)
        requires
            self.wf(),
        ensures
            r == self@.legal(mv),
    {
        let checked = Move::from_raw(mv.raw());
        if checked.is_none() {
            return false;
        }
        let sq = mv.sq();
        proof {
            assert(self@.stacks[sq.index()] == self.stacks.view_at(sq.index()));
            assert(self@.flats[self.stm.index()] == self.flats_in_hand[self.stm.index()]);
            assert(self@.caps[self.stm.index()] == self.caps_in_hand[self.stm.index()]);
        }
        if !mv.is_spread() {
            if self.stacks.height(sq) != 0 {
                return false;
            }
            let pt = mv.pt();
            if self.ply < 2 {
                pt == PieceType::Flat
            } else if pt == PieceType::Capstone {
                self.caps_in_hand[self.stm.idx()] > 0
            } else {
                self.flats_in_hand[self.stm.idx()] > 0
            }
        } else {
            proof {
                self.lemma_legal_spread_by_hit(mv);
                lemma_pattern_ones(mv.pattern_bits());
            }
            if self.ply < 2 {
                return false;
            }
            let h = self.stacks.height(sq);
            if h == 0 {
                return false;
            }
            if self.stacks.top_owner(sq) != Some(self.stm) {
                return false;
            }
            if mv.carry() > h {
                return false;
            }
            let dir = mv.dir();
            let d = (mv.pattern() as u64).count_ones();
            let hit = find_hit_for_dir(self.all_blockers(), sq, dir);
            let dist = hit.0 as u32;
            if d < dist {
                true
            } else if d > dist {
                false
            } else {
                let stop = self.stacks.top(hit.1);
                proof {
                    assert(self.stacks@[hit.1.index()] == self.stacks.view_at(hit.1.index()));
                }
                match stop {
                    Some(PieceType::Wall) => self.stacks.top(sq) == Some(PieceType::Capstone)
                        && mv.pattern() >= 32,
                    Some(PieceType::Capstone) => false,
                    _ => true,
                }
            }
        }
    }
}


/// No ray is longer than five steps.
pub proof fn lemma_ray_walk_bound(b: Bitboard, start: int, dir: Direction)
    requires
        0 <= start < 36,
    ensures
        0 <= ray_walk(b, start, dir).0 <= 5,
{
    lemma_ray_walk(b, start, dir);
}


impl Position {
    /// What a well-formed position keeps: a stack is empty exactly when it
    /// has no top; no square belongs to both players, and the occupied
    /// squares are those of the one or the other; the owner of the top tile
    /// is the owner that the colour word gives its highest tile; the
    /// blockers are the walls and the capstones; each player's tiles in hand
    /// and on the board are 31 together, one of them a capstone; and the two
    /// keys are those computed from the stacks alone.
    pub proof fn lemma_invariants(&self)
        requires
            self.wf(),
        ensures
            forall|i: int|
                0 <= i < 36 ==> (self.stacks.heights[i] == 0 <==> (#[trigger] self.stacks.tops[i]).is_none()),
            forall|i: int| !(self.player_bb[0].contains(i) && self.player_bb[1].contains(i)),
            forall|i: int|
                0 <= i < 36 ==> (self.stacks.heights[i] > 0 <==> (self.player_bb[0].contains(i)
                    || self.player_bb[1].contains(i))),
            forall|i: int|
                0 <= i < 36 && self.stacks.heights[i] > 0 ==> (self.player_bb[1].contains(i) <==> bit(
                    self.stacks.players[i],
                    self.stacks.heights[i] - 1,
                )),
            forall|i: int|
                0 <= i < 36 ==> (self.blockers_bb().contains(i) <==> (self.type_bb[1].contains(i)
                    || self.type_bb[2].contains(i))),
            self.flats_in_hand[0] + self.caps_in_hand[0] + board_tiles(self.stacks@, Player::P1)
                == 31,
            self.flats_in_hand[1] + self.caps_in_hand[1] + board_tiles(self.stacks@, Player::P2)
                == 31,
            self.caps_in_hand[0] + board_caps(self.stacks@, Player::P1) == 1,
            self.caps_in_hand[1] + board_caps(self.stacks@, Player::P2) == 1,
            self.key == full_key(self.stacks@, self.stm),
            self.blocker_key == full_blocker_key(self.stacks@),
    {
        assert forall|i: int| !(self.player_bb[0].contains(i) && self.player_bb[1].contains(i)) by {
            if 0 <= i < 36 {
                assert(self.square_ok(self.stacks@[i], i));
            }
        }
        assert forall|i: int| 0 <= i < 36 implies (self.stacks.heights[i] > 0 <==> (
        self.player_bb[0].contains(i) || self.player_bb[1].contains(i))) by {
            assert(self.square_ok(self.stacks@[i], i));
        }
        assert forall|i: int| 0 <= i < 36 && self.stacks.heights[i] > 0 implies (
        self.player_bb[1].contains(i) <==> bit(
            self.stacks.players[i],
            self.stacks.heights[i] - 1,
        )) by {
            assert(self.square_ok(self.stacks@[i], i));
        }
        assert forall|i: int| 0 <= i < 36 implies (self.blockers_bb().contains(i) <==> (
        self.type_bb[1].contains(i) || self.type_bb[2].contains(i))) by {
            crate::bits::lemma_bit_and_or_xor(self.type_bb[1].raw, self.type_bb[2].raw, i as u64);
        }
    }

    /// A move keeps the tiles counted. Where `mv` is legal in this
    /// position and `after` is the position that it leads to: each
    /// player's tiles in hand and on the board are still 31 together; a
    /// spread leaves every hand as it is; a placement takes one tile out of
    /// one hand and leaves the others as they are: out of the hand of the
    /// placed tile's owner, who is the other side in the first two moves and
    /// the side to move later, a capstone if one is placed and a flat if not.
    pub proof fn lemma_move_keeps_count(&self, mv: Move, after: &Position)
        requires
            self.wf(),
            self@.legal(mv),
            after.wf(),
            after@ == self@.apply(mv),
        ensures
            after.flats_in_hand[0] + after.caps_in_hand[0] + board_tiles(after.stacks@, Player::P1)
                == 31,
            after.flats_in_hand[1] + after.caps_in_hand[1] + board_tiles(after.stacks@, Player::P2)
                == 31,
            after.stm == self.stm.flipped(),
            after.ply == self.ply + 1,
            mv.is_spread() ==> after.flats_in_hand == self.flats_in_hand && after.caps_in_hand
                == self.caps_in_hand,
            !mv.is_spread() ==> {
                let owner = if self.ply < 2 {
                    self.stm.flipped()
                } else {
                    self.stm
                };
                let o = owner.index();
                let cap: int = if mv.pt() == PieceType::Capstone {
                    1
                } else {
                    0
                };
                &&& after.caps_in_hand[o] == self.caps_in_hand[o] - cap
                &&& after.flats_in_hand[o] == self.flats_in_hand[o] - (1 - cap)
                &&& after.caps_in_hand[1 - o] == self.caps_in_hand[1 - o]
                &&& after.flats_in_hand[1 - o] == self.flats_in_hand[1 - o]
            },
    {
        let a = after@;
        let b = self@.apply(mv);
        assert(a.flats[0] == after.flats_in_hand[0] && a.flats[1] == after.flats_in_hand[1]);
        assert(a.caps[0] == after.caps_in_hand[0] && a.caps[1] == after.caps_in_hand[1]);
        assert(self@.flats[0] == self.flats_in_hand[0] && self@.flats[1] == self.flats_in_hand[1]);
        assert(self@.caps[0] == self.caps_in_hand[0] && self@.caps[1] == self.caps_in_hand[1]);
        assert(a.ply == after.ply);
        if mv.is_spread() {
            assert(after.flats_in_hand@ =~= self.flats_in_hand@);
            assert(after.caps_in_hand@ =~= self.caps_in_hand@);
        }
    }

    /// The two keys of the position, computed from the stacks alone.
    pub fn recomputed_keys(&self, keys: &Keys) -> (r: (u64, u64))
        requires
            self.stacks.wf(),
            keys.wf(),
        ensures
            r.0 == full_key(self.stacks@, self.stm),
            r.1 == full_blocker_key(self.stacks@),
            self.wf() ==> r.0 == self.key && r.1 == self.blocker_key,
    {
        let mut key: u64 = 0;
        let mut blocker_key: u64 = 0;
        let mut i: u8 = 0;
        let ghost b = self.stacks@;
        while i < 36
            invariant
                i <= 36,
                keys.wf(),
                self.stacks.wf(),
                b == self.stacks@,
                key == xor_upto(stack_key_fn(b), i as int),
                blocker_key == xor_upto(blocker_part_fn(b), i as int),
            decreases 36 - i,
        {
            let sq = Square { raw: i };
            let h = self.stacks.height(sq);
            let tiles = tiles_range_key(keys, self.stacks.players(sq), 0, h, sq);
            proof {
                assert(b[i as int] == self.stacks.view_at(i as int));
            }
            let mut part = tiles;
            match self.stacks.top(sq) {
                Some(t) => {
                    let k = top_key(keys, t, sq);
                    part = part ^ k;
                    if t != PieceType::Flat {
                        blocker_key = blocker_key ^ k;
                    } else {
                        proof {
                            lemma_xor_laws(blocker_key, 0, 0, 0);
                        }
                    }
                },
                None => {
                    proof {
                        lemma_xor_laws(part, 0, 0, 0);
                        lemma_xor_laws(blocker_key, 0, 0, 0);
                    }
                },
            }
            key = key ^ part;
            i += 1;
        }
        let side = match self.stm {
            Player::P1 => 0,
            Player::P2 => p2_key(keys),
        };
        (key ^ side, blocker_key)
    }
}

} // verus!
