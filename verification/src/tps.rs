use vstd::prelude::*;
use vstd::string::StringSliceAdditionalSpecFns;
use crate::bitboard::Bitboard;
use crate::bits::lemma_low_bit;
use crate::board::{owners, StackView, Stacks};
use crate::fold::{lemma_sum_upto_zero, lemma_xor_laws, lemma_xor_upto_zero, xor_upto};
use crate::keys::{p2_key, p2_key_word, Keys};
use crate::position::{
    blocker_part_fn,
    board_caps,
    board_tiles,
    lemma_board_caps_update,
    lemma_board_tiles_update,
    lemma_height_le_board,
    stack_key_fn,
    tiles_of,
    tiles_of_fn,
    Position,
    PositionView,
};
use crate::types::{PieceType, Player, Square};

verus! {

pub const CH_SPACE: u8 = 32;

pub const CH_COMMA: u8 = 44;

pub const CH_SLASH: u8 = 47;

pub const CH_ZERO: u8 = 48;

pub const CH_ONE: u8 = 49;

pub const CH_TWO: u8 = 50;

pub const CH_SIX: u8 = 54;

pub const CH_NINE: u8 = 57;

pub const CH_CAP: u8 = 67;

pub const CH_WALL: u8 = 83;

pub const CH_GAP: u8 = 120;

/// The greatest move number that a position's text may hold.
pub const MAX_MOVE_NUMBER: u32 = 0x8000_0000;

/// Where in a position's text the reader stands.
#[derive(Clone, Copy, Debug, PartialEq, Eq, Structural)]
pub enum TpsPhase {
    /// Before the first character of a cell.
    CellStart,
    /// After an `x`, which a count may follow.
    Gap,
    /// After an `x` and its count.
    GapCounted,
    /// After a tile of a stack.
    Tiles,
    /// After the `S` or `C` that ends a stack.
    Topped,
    /// Before the number of the side to move.
    Side,
    /// After the number of the side to move.
    SideDone,
    /// Before the first digit of the move number.
    NumberStart,
    /// After a digit of the move number.
    Number,
}

/// What has been read of a position's text: the place in the text's
/// grammar, the number of squares read so far, the stacks on them, the
/// capstones seen of each player, and the side to move and the move number
/// as far as read.
pub struct TpsState {
    pub phase: TpsPhase,
    pub filled: int,
    pub stacks: Seq<StackView>,
    pub caps: Seq<int>,
    pub stm: Player,
    pub number: int,
}

/// The square that is read as the `t`-th: the text goes through the ranks
/// from the highest to the lowest, and through each from the left.
pub open spec fn cell_square(t: int) -> int {
    (5 - t / 6) * 6 + t % 6
}

/// The player that the character `c`, a `1` or a `2`, stands for.
pub open spec fn tile_owner(c: u8) -> Player {
    if c == CH_ONE {
        Player::P1
    } else {
        Player::P2
    }
}

impl TpsState {
    pub open spec fn start() -> TpsState {
        TpsState {
            phase: TpsPhase::CellStart,
            filled: 0,
            stacks: Seq::new(36, |i: int| StackView::empty()),
            caps: seq![0int, 0int],
            stm: Player::P1,
            number: 0,
        }
    }

    /// The state after the character `c`, which ends a cell.
    pub open spec fn end_cell(self, c: u8) -> Option<TpsState> {
        if c == CH_COMMA && self.filled % 6 != 0 {
            Some(TpsState { phase: TpsPhase::CellStart, ..self })
        } else if c == CH_SLASH && self.filled % 6 == 0 && self.filled < 36 {
            Some(TpsState { phase: TpsPhase::CellStart, ..self })
        } else if c == CH_SPACE && self.filled == 36 {
            Some(TpsState { phase: TpsPhase::Side, ..self })
        } else {
            None
        }
    }

    /// The state after the tile `c` has been set on the square read last.
    /// No player has more than 31 tiles.
    pub open spec fn add_tile(self, c: u8) -> Option<TpsState> {
        let sq = cell_square(self.filled - 1);
        let owner = tile_owner(c);
        if board_tiles(self.stacks, owner) < 31 {
            Some(
                TpsState {
                    phase: TpsPhase::Tiles,
                    stacks: self.stacks.update(
                        sq,
                        self.stacks[sq].with_on_top(seq![owner], PieceType::Flat),
                    ),
                    ..self
                },
            )
        } else {
            None
        }
    }

    /// The state after the top tile of the square read last has been made
    /// one of kind `kind`. No player has more than one capstone.
    pub open spec fn top_off(self, kind: PieceType) -> Option<TpsState> {
        let sq = cell_square(self.filled - 1);
        let sv = self.stacks[sq];
        let o = sv.owner().index();
        let stacks = self.stacks.update(sq, StackView { tiles: sv.tiles, top: Some(kind) });
        if kind == PieceType::Capstone {
            if self.caps[o] == 0 {
                Some(
                    TpsState {
                        phase: TpsPhase::Topped,
                        stacks,
                        caps: self.caps.update(o, 1),
                        ..self
                    },
                )
            } else {
                None
            }
        } else {
            Some(TpsState { phase: TpsPhase::Topped, stacks, ..self })
        }
    }

    /// The state after the character `c`, if the text may go on with it.
    pub open spec fn step(self, c: u8) -> Option<TpsState> {
        match self.phase {
            TpsPhase::CellStart => {
                if self.filled >= 36 {
                    None
                } else if c == CH_GAP {
                    Some(TpsState { phase: TpsPhase::Gap, filled: self.filled + 1, ..self })
                } else if c == CH_ONE || c == CH_TWO {
                    (TpsState { filled: self.filled + 1, ..self }).add_tile(c)
                } else {
                    None
                }
            },
            TpsPhase::Gap => {
                if CH_ONE <= c <= CH_SIX {
                    let n = c - CH_ZERO;
                    if (self.filled - 1) % 6 + n <= 6 {
                        Some(
                            TpsState {
                                phase: TpsPhase::GapCounted,
                                filled: self.filled - 1 + n,
                                ..self
                            },
                        )
                    } else {
                        None
                    }
                } else {
                    self.end_cell(c)
                }
            },
            TpsPhase::GapCounted => self.end_cell(c),
            TpsPhase::Topped => self.end_cell(c),
            TpsPhase::Tiles => {
                if c == CH_ONE || c == CH_TWO {
                    self.add_tile(c)
                } else if c == CH_WALL {
                    self.top_off(PieceType::Wall)
                } else if c == CH_CAP {
                    self.top_off(PieceType::Capstone)
                } else {
                    self.end_cell(c)
                }
            },
            TpsPhase::Side => {
                if c == CH_ONE || c == CH_TWO {
                    Some(TpsState { phase: TpsPhase::SideDone, stm: tile_owner(c), ..self })
                } else {
                    None
                }
            },
            TpsPhase::SideDone => {
                if c == CH_SPACE {
                    Some(TpsState { phase: TpsPhase::NumberStart, ..self })
                } else {
                    None
                }
            },
            TpsPhase::NumberStart | TpsPhase::Number => {
                if CH_ZERO <= c <= CH_NINE && self.number * 10 + (c - CH_ZERO) <= MAX_MOVE_NUMBER {
                    Some(
                        TpsState {
                            phase: TpsPhase::Number,
                            number: self.number * 10 + (c - CH_ZERO),
                            ..self
                        },
                    )
                } else {
                    None
                }
            },
        }
    }

    /// The number of flats of the player numbered `p` on the board.
    pub open spec fn flats_on_board(self, p: int) -> int {
        board_tiles(self.stacks, Player::of_index(p)) - self.caps[p]
    }

    /// The number of moves made before the position read.
    pub open spec fn ply(self) -> int {
        2 * (self.number - 1) + self.stm.index()
    }

    /// The position read, if the text may end here: after a move number of
    /// at least 1, with at most 30 flats of each player on the board, and in
    /// the first two moves with a flat in hand for whoever is yet to get
    /// one placed.
    pub open spec fn finish(self) -> Option<PositionView> {
        if self.phase == TpsPhase::Number && self.number >= 1 && self.flats_on_board(0) <= 30
            && self.flats_on_board(1) <= 30 && (self.ply() < 2 ==> self.flats_on_board(0) < 30) && (
        self.ply() == 0 ==> self.flats_on_board(1) < 30) {
            Some(
                PositionView {
                    stm: self.stm,
                    ply: self.ply() as nat,
                    stacks: self.stacks,
                    flats: seq![30 - self.flats_on_board(0), 30 - self.flats_on_board(1)],
                    caps: seq![1 - self.caps[0], 1 - self.caps[1]],
                },
            )
        } else {
            None
        }
    }
}

/// The state after the first `n` characters of the text `s`, if the text
/// may begin with them.
pub open spec fn tps_run(s: Seq<u8>, n: int) -> Option<TpsState>
    decreases n,
{
    if n <= 0 {
        Some(TpsState::start())
    } else {
        match tps_run(s, n - 1) {
            Some(st) => st.step(s[n - 1]),
            None => None,
        }
    }
}

/// The position that the text `s` describes, if it describes one.
pub open spec fn parse_tps(s: Seq<u8>) -> Option<PositionView> {
    match tps_run(s, s.len() as int) {
        Some(st) => st.finish(),
        None => None,
    }
}

/// The number of characters of the text `s` up to which it may be the
/// beginning of a position's text.
pub open spec fn tps_good_prefix(s: Seq<u8>, n: int) -> int
    decreases n,
{
    if n <= 0 {
        0
    } else if tps_run(s, n).is_some() {
        n
    } else {
        tps_good_prefix(s, n - 1)
    }
}

/// Why a text is not a position's: it cannot go on after the first `at`
/// characters, or it cannot end there.
#[derive(Clone, Copy, Debug, PartialEq, Eq, Structural)]
pub struct ParseError {
    pub at: usize,
}

/// A position that is being read from its text.
struct TpsReader {
    pos: Position,
    phase: TpsPhase,
    filled: u8,
    tiles: [u8; 2],
    caps: [u8; 2],
    stm: Player,
    number: u32,
}

impl TpsReader {
    spec fn view(&self) -> TpsState {
        TpsState {
            phase: self.phase,
            filled: self.filled as int,
            stacks: self.pos.stacks@,
            caps: Seq::new(2, |p: int| self.caps[p] as int),
            stm: self.stm,
            number: self.number as int,
        }
    }

    spec fn wf(&self) -> bool {
        &&& self.pos.stacks.wf()
        &&& self.pos.derived_from(self.pos.stacks@)
        &&& self.pos.stm == Player::P1
        &&& self.filled <= 36
        &&& self.tiles[0] == board_tiles(self.pos.stacks@, Player::P1)
        &&& self.tiles[1] == board_tiles(self.pos.stacks@, Player::P2)
        &&& self.tiles[0] <= 31
        &&& self.tiles[1] <= 31
        &&& self.caps[0] <= 1
        &&& self.caps[1] <= 1
        &&& self.caps[0] <= self.tiles[0]
        &&& self.caps[1] <= self.tiles[1]
        &&& self.caps[0] == board_caps(self.pos.stacks@, Player::P1)
        &&& self.caps[1] == board_caps(self.pos.stacks@, Player::P2)
        &&& forall|t: int|
            self.filled <= t < 36 ==> self.pos.stacks.heights[#[trigger] cell_square(t)] == 0
        &&& (self.phase == TpsPhase::Tiles ==> self.pos.stacks.tops[cell_square(self.filled - 1)]
            == Some(PieceType::Flat))
        &&& self.number <= MAX_MOVE_NUMBER
        &&& (self.phase == TpsPhase::Tiles ==> self.filled >= 1 && self.pos.stacks.heights[cell_square(
            self.filled - 1,
        )] > 0)
        &&& (self.phase == TpsPhase::Gap ==> self.filled >= 1)
    }

    fn new() -> (r: TpsReader)
        ensures
            r.wf(),
            r@ == TpsState::start(),
    {
        let mut pos = Position::startpos();
        let r = TpsReader {
            pos,
            phase: TpsPhase::CellStart,
            filled: 0,
            tiles: [0, 0],
            caps: [0, 0],
            stm: Player::P1,
            number: 0,
        };
        proof {
            assert(r@.caps =~= seq![0int, 0int]);
            assert(r@.stacks =~= TpsState::start().stacks);
            assert(pos@.caps[0] == pos.caps_in_hand[0] && pos@.caps[1] == pos.caps_in_hand[1]);
            assert(pos@.flats[0] == pos.flats_in_hand[0] && pos@.flats[1] == pos.flats_in_hand[1]);
            assert forall|t: int| 0 <= t < 36 implies pos.stacks.heights[#[trigger] cell_square(t)]
                == 0 by {
                assert(pos.stacks@[cell_square(t)] == pos.stacks.view_at(cell_square(t)));
            }
        }
        r
    }

    /// The square that was read last.
    fn current_square(&self) -> (r: Square)
        requires
            1 <= self.filled <= 36,
        ensures
            r.wf(),
            r.index() == cell_square(self.filled - 1),
    {
        let t = self.filled - 1;
        Square::from_file_rank(t % 6, 5 - t / 6)
    }

    fn end_cell(&mut self, c: u8) -> (ok: bool)
        requires
            old(self).wf(),
        ensures
            ok == old(self)@.end_cell(c).is_some(),
            ok ==> final(self).wf() && final(self)@ == old(self)@.end_cell(c).unwrap(),
    {
        if c == CH_COMMA && self.filled % 6 != 0 {
            self.phase = TpsPhase::CellStart;
        } else if c == CH_SLASH && self.filled % 6 == 0 && self.filled < 36 {
            self.phase = TpsPhase::CellStart;
        } else if c == CH_SPACE && self.filled == 36 {
            self.phase = TpsPhase::Side;
        } else {
            return false;
        }
        proof {
            assert(self@.caps =~= old(self)@.caps);
        }
        true
    }

    fn add_tile(&mut self, c: u8, keys: &Keys) -> (ok: bool)
        requires
            old(self).wf(),
            keys.wf(),
            1 <= old(self).filled,
            c == CH_ONE || c == CH_TWO,
            old(self).pos.stacks.tops[cell_square(old(self).filled - 1)] != Some(PieceType::Wall),
            old(self).pos.stacks.tops[cell_square(old(self).filled - 1)] != Some(
                PieceType::Capstone,
            ),
        ensures
            ok == old(self)@.add_tile(c).is_some(),
            ok ==> final(self).wf() && final(self)@ == old(self)@.add_tile(c).unwrap(),
    {
        let sq = self.current_square();
        let owner = if c == CH_ONE {
            Player::P1
        } else {
            Player::P2
        };
        let o = owner.idx();
        if self.tiles[o] >= 31 {
            return false;
        }
        let bits: u64 = match owner {
            Player::P1 => 0,
            Player::P2 => 1,
        };
        let ghost b0 = self.pos.stacks@;
        proof {
            lemma_low_bit(bits, 0);
            lemma_height_le_board(b0, sq.index());
            assert(b0[sq.index()] == self.pos.stacks.view_at(sq.index()));
        }
        self.pos.lower(keys, sq, 1, PieceType::Flat, bits);
        self.tiles[o] = self.tiles[o] + 1;
        self.phase = TpsPhase::Tiles;
        proof {
            let sv = b0[sq.index()].with_on_top(seq![owner], PieceType::Flat);
            assert(owners(bits, 1) =~= seq![owner]);
            assert(self.pos.stacks@ == b0.update(sq.index(), sv));
            lemma_board_tiles_update(b0, sq.index(), sv, Player::P1);
            lemma_board_tiles_update(b0, sq.index(), sv, Player::P2);
            lemma_board_caps_update(b0, sq.index(), sv, Player::P1);
            lemma_board_caps_update(b0, sq.index(), sv, Player::P2);
            assert(sv.tiles.drop_last() =~= b0[sq.index()].tiles);
            assert(self@.caps =~= old(self)@.caps);
            assert(self.pos.stacks@[sq.index()] == self.pos.stacks.view_at(sq.index()));
            assert forall|t: int| self.filled <= t < 36 implies self.pos.stacks.heights[#[trigger] cell_square(
                t,
            )] == 0 by {
                assert(self.pos.stacks@[cell_square(t)] == b0[cell_square(t)]);
                assert(self.pos.stacks@[cell_square(t)] == self.pos.stacks.view_at(cell_square(t)));
                assert(b0[cell_square(t)] == old(self).pos.stacks.view_at(cell_square(t)));
            }
        }
        true
    }

    fn top_off(&mut self, kind: PieceType, keys: &Keys) -> (ok: bool)
        requires
            old(self).wf(),
            keys.wf(),
            old(self).phase == TpsPhase::Tiles,
            kind != PieceType::Flat,
        ensures
            ok == old(self)@.top_off(kind).is_some(),
            ok ==> final(self).wf() && final(self)@ == old(self)@.top_off(kind).unwrap(),
    {
        let sq = self.current_square();
        let ghost b0 = self.pos.stacks@;
        proof {
            assert(b0[sq.index()] == self.pos.stacks.view_at(sq.index()));
        }
        let owner = self.pos.stacks.top_owner(sq).unwrap();
        let o = owner.idx();
        proof {
            crate::position::lemma_stack_le_board(b0, sq.index(), owner);
            assert(tiles_of(b0[sq.index()].tiles, owner) >= 1) by {
                crate::position::lemma_tiles_of_split(b0[sq.index()].tiles.drop_last(), 0, owner);
            }
        }
        if kind == PieceType::Capstone {
            if self.caps[o] != 0 {
                return false;
            }
            self.caps[o] = 1;
        }
        self.pos.retop(keys, sq, kind);
        self.phase = TpsPhase::Topped;
        proof {
            let sv = StackView { tiles: b0[sq.index()].tiles, top: Some(kind) };
            lemma_board_tiles_update(b0, sq.index(), sv, Player::P1);
            lemma_board_tiles_update(b0, sq.index(), sv, Player::P2);
            lemma_board_caps_update(b0, sq.index(), sv, Player::P1);
            lemma_board_caps_update(b0, sq.index(), sv, Player::P2);
            assert forall|t: int| self.filled <= t < 36 implies self.pos.stacks.heights[#[trigger] cell_square(
                t,
            )] == 0 by {
                assert(self.pos.stacks@[cell_square(t)] == b0[cell_square(t)]);
                assert(self.pos.stacks@[cell_square(t)] == self.pos.stacks.view_at(cell_square(t)));
                assert(b0[cell_square(t)] == old(self).pos.stacks.view_at(cell_square(t)));
            }
            if kind == PieceType::Capstone {
                assert(self@.caps =~= old(self)@.caps.update(o as int, 1));
            } else {
                assert(self@.caps =~= old(self)@.caps);
            }
        }
        true
    }

    /// Reads the character `c`.
    fn step(&mut self, c: u8, keys: &Keys) -> (ok: bool)
        requires
            old(self).wf(),
            keys.wf(),
        ensures
            ok == old(self)@.step(c).is_some(),
            ok ==> final(self).wf() && final(self)@ == old(self)@.step(c).unwrap(),
    {
        match self.phase {
            TpsPhase::CellStart => {
                if self.filled >= 36 {
                    false
                } else if c == CH_GAP {
                    self.phase = TpsPhase::Gap;
                    self.filled = self.filled + 1;
                    proof {
                        assert(self@.caps =~= old(self)@.caps);
                    }
                    true
                } else if c == CH_ONE || c == CH_TWO {
                    proof {
                        assert(self.pos.stacks.heights[cell_square(self.filled as int)] == 0);
                    }
                    self.filled = self.filled + 1;
                    proof {
                        assert(self@.caps =~= old(self)@.caps);
                    }
                    self.add_tile(c, keys)
                } else {
                    false
                }
            },
            TpsPhase::Gap => {
                if CH_ONE <= c && c <= CH_SIX {
                    let n = c - CH_ZERO;
                    if (self.filled - 1) % 6 + n <= 6 {
                        self.phase = TpsPhase::GapCounted;
                        self.filled = self.filled - 1 + n;
                        proof {
                            assert(self@.caps =~= old(self)@.caps);
                        }
                        true
                    } else {
                        false
                    }
                } else {
                    self.end_cell(c)
                }
            },
            TpsPhase::GapCounted => self.end_cell(c),
            TpsPhase::Topped => self.end_cell(c),
            TpsPhase::Tiles => {
                if c == CH_ONE || c == CH_TWO {
                    self.add_tile(c, keys)
                } else if c == CH_WALL {
                    self.top_off(PieceType::Wall, keys)
                } else if c == CH_CAP {
                    self.top_off(PieceType::Capstone, keys)
                } else {
                    self.end_cell(c)
                }
            },
            TpsPhase::Side => {
                if c == CH_ONE || c == CH_TWO {
                    self.phase = TpsPhase::SideDone;
                    self.stm = if c == CH_ONE {
                        Player::P1
                    } else {
                        Player::P2
                    };
                    proof {
                        assert(self@.caps =~= old(self)@.caps);
                    }
                    true
                } else {
                    false
                }
            },
            TpsPhase::SideDone => {
                if c == CH_SPACE {
                    self.phase = TpsPhase::NumberStart;
                    proof {
                        assert(self@.caps =~= old(self)@.caps);
                    }
                    true
                } else {
                    false
                }
            },
            TpsPhase::NumberStart | TpsPhase::Number => {
                if CH_ZERO <= c && c <= CH_NINE {
                    let d = (c - CH_ZERO) as u64;
                    let v = (self.number as u64) * 10 + d;
                    if v <= MAX_MOVE_NUMBER as u64 {
                        self.number = v as u32;
                        self.phase = TpsPhase::Number;
                        proof {
                            assert(self@.caps =~= old(self)@.caps);
                        }
                        true
                    } else {
                        false
                    }
                } else {
                    false
                }
            },
        }
    }

    /// The position read, if the text may end here.
    fn finish(self, keys: &Keys) -> (r: Option<Position>)
        requires
            self.wf(),
            keys.wf(),
        ensures
            r.is_some() == self@.finish().is_some(),
            r.is_some() ==> r.unwrap().wf() && r.unwrap()@ == self@.finish().unwrap(),
    {
        if self.phase != TpsPhase::Number || self.number < 1 {
            return None;
        }
        let f0 = self.tiles[0] - self.caps[0];
        let f1 = self.tiles[1] - self.caps[1];
        let side: u32 = match self.stm {
            Player::P1 => 0,
            Player::P2 => 1,
        };
        let ply: u32 = 2 * (self.number - 1) + side;
        if f0 > 30 || f1 > 30 || (ply < 2 && f0 >= 30) || (ply == 0 && f1 >= 30) {
            return None;
        }
        let mut pos = self.pos;
        pos.stm = self.stm;
        pos.ply = ply;
        pos.flats_in_hand = [30 - f0, 30 - f1];
        pos.caps_in_hand = [1 - self.caps[0], 1 - self.caps[1]];
        if side == 1 {
            pos.key = pos.key ^ p2_key(keys);
        }
        proof {
            let b = pos.stacks@;
            assert forall|i: int| 0 <= i < 36 implies #[trigger] pos.square_ok(b[i], i) by {
                assert(self.pos.square_ok(b[i], i));
            }
            lemma_xor_laws(xor_upto(stack_key_fn(b), 36), p2_key_word(), 0, 0);
            let want = self@.finish().unwrap();
            assert(pos@.flats =~= want.flats);
            assert(pos@.caps =~= want.caps);
        }
        Some(pos)
    }
}


/// A text that cannot go on after some character cannot go on after any later one.
pub proof fn lemma_tps_run_stays_bad(s: Seq<u8>, i: int, n: int)
    requires
        0 <= i <= n,
        tps_run(s, i).is_none(),
    ensures
        tps_run(s, n).is_none(),
    decreases n - i,
{
    if i < n {
        lemma_tps_run_stays_bad(s, i, n - 1);
    }
}

proof fn lemma_tps_good_prefix(s: Seq<u8>, i: int, n: int)
    requires
        0 <= i <= n,
        tps_run(s, i).is_some(),
        i < n ==> tps_run(s, i + 1).is_none(),
    ensures
        tps_good_prefix(s, n) == i,
    decreases n - i,
{
    if i < n {
        lemma_tps_run_stays_bad(s, i + 1, n);
        lemma_tps_good_prefix(s, i, n - 1);
    }
}

/// The digits of the number `n`, which is not negative.
pub open spec fn decimal(n: int) -> Seq<u8>
    decreases n,
{
    if n < 10 {
        seq![(CH_ZERO + n) as u8]
    } else {
        decimal(n / 10).push((CH_ZERO + n % 10) as u8)
    }
}

/// The character that stands for a tile of `p`.
pub open spec fn tile_char(p: Player) -> u8 {
    match p {
        Player::P1 => CH_ONE,
        Player::P2 => CH_TWO,
    }
}

/// The characters of the tiles of a stack, from the ground up.
pub open spec fn tiles_text(tiles: Seq<Player>) -> Seq<u8> {
    Seq::new(tiles.len(), |k: int| tile_char(tiles[k]))
}

/// The character that marks a wall or a capstone on top of a stack.
pub open spec fn top_text(top: Option<PieceType>) -> Seq<u8> {
    match top {
        Some(PieceType::Wall) => seq![CH_WALL],
        Some(PieceType::Capstone) => seq![CH_CAP],
        _ => Seq::empty(),
    }
}

/// The number of empty squares that follow the square read as the `t`-th in its rank without a stack between.
pub open spec fn more_gap(stacks: Seq<StackView>, t: int) -> nat
    decreases 36 - t,
{
    if t >= 35 || t % 6 == 5 || stacks[cell_square(t + 1)].tiles.len() > 0 {
        0
    } else {
        1 + more_gap(stacks, t + 1)
    }
}

/// The number of empty squares in a row that begins with the square read
/// as the `t`-th, which is empty, and ends with its rank at the latest.
pub open spec fn gap_len(stacks: Seq<StackView>, t: int) -> int {
    1 + more_gap(stacks, t) as int
}

/// The text of the cell that begins with the square read as the `t`-th.
pub open spec fn cell_text(stacks: Seq<StackView>, t: int) -> Seq<u8> {
    let sv = stacks[cell_square(t)];
    if sv.tiles.len() == 0 {
        if gap_len(stacks, t) == 1 {
            seq![CH_GAP]
        } else {
            seq![CH_GAP, (CH_ZERO + gap_len(stacks, t)) as u8]
        }
    } else {
        tiles_text(sv.tiles) + top_text(sv.top)
    }
}

/// The number of squares in the cell that begins with the square read as the `t`-th.
pub open spec fn cell_len(stacks: Seq<StackView>, t: int) -> int {
    if stacks[cell_square(t)].tiles.len() == 0 {
        gap_len(stacks, t)
    } else {
        1
    }
}

/// The text of the board from the square read as the `t`-th on.
pub open spec fn cells_text(stacks: Seq<StackView>, t: int) -> Seq<u8>
    decreases 36 - t,
{
    if t >= 36 || t < 0 {
        Seq::empty()
    } else {
        let next = t + cell_len(stacks, t);
        if next >= 36 {
            cell_text(stacks, t)
        } else if next % 6 == 0 {
            cell_text(stacks, t) + seq![CH_SLASH] + cells_text(stacks, next)
        } else {
            cell_text(stacks, t) + seq![CH_COMMA] + cells_text(stacks, next)
        }
    }
}

/// The text of a position: the board, the side to move and the move number.
pub open spec fn tps_text(v: PositionView) -> Seq<u8> {
    cells_text(v.stacks, 0) + seq![CH_SPACE, tile_char(v.stm), CH_SPACE] + decimal(v.ply as int / 2 + 1)
}

pub proof fn lemma_gap_len(stacks: Seq<StackView>, t: int)
    requires
        0 <= t < 36,
    ensures
        1 <= gap_len(stacks, t) <= 6 - t % 6,
    decreases 36 - t,
{
    if !(t >= 35 || t % 6 == 5 || stacks[cell_square(t + 1)].tiles.len() > 0) {
        lemma_gap_len(stacks, t + 1);
    }
}

/// Writes the digits of `n` at the end of `out`.
fn push_decimal(out: &mut Vec<u8>, n: u32)
    ensures
        final(out)@ == old(out)@ + decimal(n as int),
    decreases n,
{
    if n >= 10 {
        push_decimal(out, n / 10);
    }
    out.push(CH_ZERO + (n % 10) as u8);
    proof {
        if n < 10 {
            assert(out@ =~= old(out)@ + decimal(n as int));
        } else {
            assert(out@ =~= old(out)@ + decimal(n as int));
        }
    }
}

impl Position {
    /// The position that the text `text` describes, or the place where
    /// the text stops being a position's.
    pub fn from_tps_bytes(text: &[u8], keys: &Keys) -> (r: Result<Position, ParseError>)
        requires
            keys.wf(),
        ensures
            match r {
                Ok(pos) => pos.wf() && parse_tps(text@) == Some(pos@),
                Err(e) => parse_tps(text@).is_none() && e.at == tps_good_prefix(
                    text@,
                    text@.len() as int,
                ),
            },
    {
        let mut reader = TpsReader::new();
        let mut i: usize = 0;
        while i < text.len()
            invariant
                keys.wf(),
                i <= text@.len(),
                reader.wf(),
                tps_run(text@, i as int) == Some(reader@),
            decreases text.len() - i,
        {
            let c = text[i];
            if !reader.step(c, keys) {
                proof {
                    lemma_tps_good_prefix(text@, i as int, text@.len() as int);
                    lemma_tps_run_stays_bad(text@, i as int + 1, text@.len() as int);
                }
                return Err(ParseError { at: i });
            }
            i += 1;
        }
        proof {
            lemma_tps_good_prefix(text@, i as int, text@.len() as int);
        }
        match reader.finish(keys) {
            Some(pos) => Ok(pos),
            None => Err(ParseError { at: i }),
        }
    }

    /// The position that the text `text` describes, or the place where
    /// the text stops being a position's.
    pub fn from_tps(text: &str, keys: &Keys) -> (r: Result<Position, ParseError>)
        requires
            keys.wf(),
        ensures
            match r {
                Ok(pos) => pos.wf() && parse_tps(text.spec_bytes()) == Some(pos@),
                Err(e) => parse_tps(text.spec_bytes()).is_none() && e.at == tps_good_prefix(
                    text.spec_bytes(),
                    text.spec_bytes().len() as int,
                ),
            },
    {
        Position::from_tps_bytes(text.as_bytes(), keys)
    }

    /// Writes the text of the stack on `sq`, which is not empty, at the end of `out`.
    fn push_stack_text(&self, out: &mut Vec<u8>, sq: Square)
        requires
            self.stacks.wf(),
            sq.wf(),
            self.stacks.heights[sq.index()] > 0,
        ensures
            final(out)@ == old(out)@ + tiles_text(self.stacks@[sq.index()].tiles) + top_text(
                self.stacks@[sq.index()].top,
            ),
    {
        let h = self.stacks.height(sq);
        let all = self.stacks.players(sq);
        let ghost sv = self.stacks@[sq.index()];
        proof {
            assert(sv == self.stacks.view_at(sq.index()));
        }
        let mut k: u8 = 0;
        while k < h
            invariant
                k <= h,
                h < 64,
                h == sv.tiles.len(),
                sv.tiles == owners(all, h as int),
                out@ == old(out)@ + tiles_text(sv.tiles).subrange(0, k as int),
            decreases h - k,
        {
            let b = (all >> (k as u64)) & 1;
            proof {
                lemma_low_bit(all, k as u64);
            }
            let ghost before = out@;
            if b == 1 {
                out.push(CH_TWO);
            } else {
                out.push(CH_ONE);
            }
            proof {
                assert(out@ =~= old(out)@ + tiles_text(sv.tiles).subrange(0, k as int + 1));
            }
            k += 1;
        }
        proof {
            assert(tiles_text(sv.tiles).subrange(0, h as int) =~= tiles_text(sv.tiles));
        }
        let ghost mid = out@;
        match self.stacks.top(sq) {
            Some(PieceType::Wall) => {
                out.push(CH_WALL);
            },
            Some(PieceType::Capstone) => {
                out.push(CH_CAP);
            },
            _ => {},
        }
        proof {
            assert(out@ =~= mid + top_text(sv.top));
        }
    }

    /// The text of the position.
    pub fn to_tps(&self) -> (r: Vec<u8>)
        requires
            self.wf(),
        ensures
            r@ == tps_text(self@),
    {
        let mut out: Vec<u8> = Vec::new();
        let mut t: u8 = 0;
        let ghost b = self.stacks@;
        proof {
            assert(out@ + cells_text(b, 0) =~= cells_text(b, 0));
        }
        while t < 36
            invariant
                t <= 36,
                self.wf(),
                b == self.stacks@,
                out@ + cells_text(b, t as int) == cells_text(b, 0),
            decreases 36 - t,
        {
            let sq = Square::from_file_rank(t % 6, 5 - t / 6);
            let ghost before = out@;
            let ghost t0 = t as int;
            proof {
                assert(b[sq.index()] == self.stacks.view_at(sq.index()));
            }
            let mut next_t = t + 1;
            if self.stacks.height(sq) == 0 {
                let mut n: u8 = 1;
                proof {
                    lemma_gap_len(b, t as int);
                }
                while t + n < 36 && (t + n) % 6 != 0 && self.stacks.height(
                    Square::from_file_rank((t + n) % 6, 5 - (t + n) / 6),
                ) == 0
                    invariant
                        t < 36,
                        1 <= n,
                        t + n <= 36,
                        n <= 6 - t % 6,
                        b == self.stacks@,
                        self.stacks.wf(),
                        gap_len(b, t as int) == n - 1 + gap_len(b, t + n - 1),
                    decreases 36 - n,
                {
                    proof {
                        let u = t + n;
                        assert(b[cell_square(u as int)] == self.stacks.view_at(
                            cell_square(u as int),
                        ));
                        lemma_gap_len(b, u as int);
                    }
                    n += 1;
                }
                proof {
                    let u = t + n;
                    if u < 36 {
                        assert(b[cell_square(u as int)] == self.stacks.view_at(
                            cell_square(u as int),
                        ));
                    }
                    assert(gap_len(b, t + n - 1) == 1);
                }
                out.push(CH_GAP);
                if n > 1 {
                    out.push(CH_ZERO + n);
                }
                next_t = t + n;
                proof {
                    assert(out@ =~= before + cell_text(b, t0));
                }
            } else {
                self.push_stack_text(&mut out, sq);
                proof {
                    assert(out@ =~= before + cell_text(b, t0));
                }
            }
            let ghost mid = out@;
            if next_t < 36 {
                if next_t % 6 == 0 {
                    out.push(CH_SLASH);
                } else {
                    out.push(CH_COMMA);
                }
            }
            proof {
                let rest = cells_text(b, next_t as int);
                if next_t >= 36 {
                    assert(out@ + rest =~= before + cells_text(b, t0));
                } else if next_t % 6 == 0 {
                    assert(out@ + rest =~= before + (cell_text(b, t0) + seq![CH_SLASH] + rest));
                } else {
                    assert(out@ + rest =~= before + (cell_text(b, t0) + seq![CH_COMMA] + rest));
                }
            }
            t = next_t;
        }
        let ghost board = out@;
        out.push(CH_SPACE);
        out.push(
            match self.stm {
                Player::P1 => CH_ONE,
                Player::P2 => CH_TWO,
            },
        );
        out.push(CH_SPACE);
        proof {
            assert(board =~= cells_text(b, 0));
            assert(out@ =~= cells_text(b, 0) + seq![CH_SPACE, tile_char(self.stm), CH_SPACE]);
        }
        push_decimal(&mut out, self.ply / 2 + 1);
        out
    }
}

} // verus!
