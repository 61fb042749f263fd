use vstd::prelude::*;
use crate::bitboard::Bitboard;
use crate::bits::{
    bit,
    lemma_bit_and_or_xor,
    lemma_bit_shifts,
    lemma_low_bit,
    lemma_low_mask,
    lemma_split,
    ones_in,
};
use crate::board::{owner_of_bit, owners};
use crate::fold::{lemma_sum_le, lemma_sum_upto_same, sum_upto};
use crate::position::{Position, KOMI};
use crate::road::{bit_fn, lemma_ones_sum_below, lemma_popcount_is_size, member_fn, touching};
use crate::types::{can_step, Direction, Piece, PieceType, Player, Square};

verus! {

/// The bonus for having the move.
pub const TEMPO: i32 = 30;

/// The greatest komi with which the value of no position to a player
/// leaves the range of `i32`: with 36 flats on top, 75 for each of them and
/// of the komi, and the greatest values of roads, stacks and capstones.
pub const MAX_KOMI: u32 = 28_632_883;

/// How far a file or rank, numbered from 0 to 5, is from the two middle ones.
pub open spec fn off_centre(x: int) -> int {
    if x < 2 {
        2 - x
    } else if x > 3 {
        x - 3
    } else {
        0
    }
}

/// The ring of square `i` around the four central squares: the number of
/// steps to the nearest of them.
pub open spec fn ring_of(i: int) -> int {
    off_centre(i % 6) + off_centre(i / 6)
}

/// The value of a flat in ring `k`.
pub open spec fn ring_weight(k: int) -> int {
    if k == 0 {
        2
    } else if k == 1 {
        8
    } else if k == 2 {
        -5
    } else if k == 3 {
        -15
    } else {
        -40
    }
}

/// The value of a capstone on square `i`: the nearer to the centre the higher.
pub open spec fn cap_square_value(i: int) -> int {
    let a = off_centre(i % 6);
    let b = off_centre(i / 6);
    if a == 2 && b == 2 {
        -20
    } else if a == 2 || b == 2 {
        -5
    } else if a == 1 && b == 1 {
        10
    } else if a == 1 || b == 1 {
        18
    } else {
        35
    }
}

/// 1 where `p` holds and 0 where it does not.
pub open spec fn indicator(p: spec_fn(int) -> bool) -> spec_fn(int) -> int {
    |i: int|
        if p(i) {
            1int
        } else {
            0int
        }
}

/// The number of squares of which `p` holds.
pub open spec fn count_squares(p: spec_fn(int) -> bool) -> int {
    sum_upto(indicator(p), 36)
}

/// The number of squares of a set is the number of squares of which a
/// predicate holds, if the set holds those squares.
pub proof fn lemma_popcount_counts(set: Bitboard, p: spec_fn(int) -> bool)
    requires
        set.wf(),
        forall|i: int| 0 <= i < 36 ==> (set.contains(i) <==> #[trigger] p(i)),
    ensures
        ones_in(set.raw) == count_squares(p),
        0 <= count_squares(p) <= 36,
{
    lemma_popcount_is_size(set);
    assert forall|i: int| 0 <= i < 36 implies #[trigger] member_fn(set)(i) == indicator(p)(i) by {
        assert(set.contains(i) <==> p(i));
    }
    lemma_sum_upto_same(member_fn(set), indicator(p), 36);
    vstd::arithmetic::power2::lemma2_to64();
    vstd::arithmetic::power2::lemma2_to64_rest();
    crate::bits::lemma_count_ones_bound(set.raw, 36);
    crate::bits::lemma_count_ones_bound(set.raw, 64);
}

/// The tiles of a stack that lie right below its top tile, at most six, lowest first.
pub open spec fn shallow(tiles: Seq<Player>) -> Seq<Player> {
    let h = tiles.len() as int;
    if h > 7 {
        tiles.subrange(h - 7, h - 1)
    } else if h >= 1 {
        tiles.subrange(0, h - 1)
    } else {
        Seq::empty()
    }
}

/// The number of tiles in `tiles` that belong to `p`, as a sum.
pub open spec fn same_owner_fn(tiles: Seq<Player>, p: Player) -> spec_fn(int) -> int {
    |j: int|
        if tiles[j] == p {
            1int
        } else {
            0int
        }
}

pub proof fn lemma_tiles_of_sum(tiles: Seq<Player>, p: Player)
    ensures
        crate::position::tiles_of(tiles, p) == sum_upto(
            same_owner_fn(tiles, p),
            tiles.len() as int,
        ),
    decreases tiles.len(),
{
    if tiles.len() > 0 {
        let front = tiles.drop_last();
        lemma_tiles_of_sum(front, p);
        lemma_sum_upto_same(same_owner_fn(front, p), same_owner_fn(tiles, p), front.len() as int);
    }
}

/// The numbers of tiles right below the top of a stack that belong to
/// `player` and to the other side.
pub open spec fn shallow_counts(tiles: Seq<Player>, player: Player) -> (int, int) {
    (
        crate::position::tiles_of(shallow(tiles), player),
        crate::position::tiles_of(shallow(tiles), player.flipped()),
    )
}

proof fn lemma_flip_bits(w: u64, j: u64)
    by (bit_vector)
    requires
        j < 64,
    ensures
        ((w ^ 0xffff_ffff_ffff_ffffu64) >> j) & 1 == 1 <==> (w >> j) & 1 == 0,
        ((w ^ 0u64) >> j) & 1 == (w >> j) & 1,
        ((!w) >> j) & 1 == 1 <==> (w >> j) & 1 == 0,
{
}

/// Counts the tiles right below the top of a stack of height `height`,
/// at least 2, with the colours `players`: those of `player` and those of
/// the other side.
fn count_shallow(players: u64, height: u8, player: Player) -> (r: (u32, u32))
    requires
        2 <= height < 64,
    ensures
        (r.0 as int, r.1 as int) == shallow_counts(owners(players, height as int), player),
        r.0 + r.1 <= 6,
{
    let flip: u64 = match player {
        Player::P1 => 0,
        Player::P2 => 0xffff_ffff_ffff_ffff,
    };
    let base: u8 = if height > 7 {
        height - 7
    } else {
        0
    };
    let m: u8 = height - base - 1;
    let word = (players ^ flip) >> (base as u64);
    proof {
        lemma_low_bit(word, m as u64);
    }
    let mask = (1u64 << (m as u64)) - 1;
    let friends = !word & mask;
    let foes = word & mask;
    proof {
        let tiles = owners(players, height as int);
        let sh = shallow(tiles);
        assert(sh.len() == m);
        lemma_low_mask(!word, m as u64, 0);
        lemma_low_mask(word, m as u64, 0);
        let mu = m as u64;
        assert(friends >> mu == 0 && foes >> mu == 0) by (bit_vector)
            requires
                mu < 64,
                friends < (1u64 << mu),
                foes < (1u64 << mu),
        ;
        lemma_ones_sum_below(friends, m as int);
        lemma_ones_sum_below(foes, m as int);
        lemma_tiles_of_sum(sh, player);
        lemma_tiles_of_sum(sh, player.flipped());
        assert forall|j: int| 0 <= j < m implies #[trigger] bit_fn(friends)(j) == same_owner_fn(
            sh,
            player,
        )(j) by {
            lemma_low_mask(!word, m as u64, j as u64);
            lemma_flip_bits(word, j as u64);
            lemma_bit_shifts(players ^ flip, base as u64, j as u64);
            lemma_flip_bits(players, (j + base) as u64);
            lemma_low_bit(players, (j + base) as u64);
            lemma_low_bit(word, j as u64);
            assert(sh[j] == owner_of_bit(players, j + base));
        }
        assert forall|j: int| 0 <= j < m implies #[trigger] bit_fn(foes)(j) == same_owner_fn(
            sh,
            player.flipped(),
        )(j) by {
            lemma_low_mask(word, m as u64, j as u64);
            lemma_bit_shifts(players ^ flip, base as u64, j as u64);
            lemma_flip_bits(players, (j + base) as u64);
            lemma_low_bit(players, (j + base) as u64);
            lemma_low_bit(word, j as u64);
            assert(sh[j] == owner_of_bit(players, j + base));
        }
        lemma_sum_upto_same(bit_fn(friends), same_owner_fn(sh, player), m as int);
        lemma_sum_upto_same(bit_fn(foes), same_owner_fn(sh, player.flipped()), m as int);
        crate::position::lemma_tiles_of_both(sh);
        if player == Player::P2 {
            assert(player.flipped() == Player::P1);
        }
    }
    (friends.count_ones(), foes.count_ones())
}


proof fn lemma_ring_bits(j: u64)
    by (bit_vector)
    requires
        j < 36,
    ensures
        (0x30c000u64 >> j) & 1 == 1 <==> (j == 14 || j == 15 || j == 20 || j == 21),
        (0xc492300u64 >> j) & 1 == 1 <==> (j == 8 || j == 9 || j == 13 || j == 16 || j == 19 || j
            == 22 || j == 26 || j == 27),
        (0x31286148cu64 >> j) & 1 == 1 <==> (j == 2 || j == 3 || j == 7 || j == 10 || j == 12 || j
            == 17 || j == 18 || j == 23 || j == 25 || j == 28 || j == 32 || j == 33),
        (0x4a1000852u64 >> j) & 1 == 1 <==> (j == 1 || j == 4 || j == 6 || j == 11 || j == 24 || j
            == 29 || j == 31 || j == 34),
        (0x840000021u64 >> j) & 1 == 1 <==> (j == 0 || j == 5 || j == 30 || j == 35),
{
}

/// The squares of ring `k`, from 0 to 4.
pub fn ring(k: u8) -> (r: Bitboard)
    requires
        k < 5,
    ensures
        r.wf(),
        forall|i: int| r.contains(i) <==> (0 <= i < 36 && ring_of(i) == k),
{
    let raw: u64 = if k == 0 {
        0x30c000
    } else if k == 1 {
        0xc492300
    } else if k == 2 {
        0x31286148c
    } else if k == 3 {
        0x4a1000852
    } else {
        0x840000021
    };
    let r = Bitboard { raw };
    proof {
        assert forall|i: int| r.contains(i) <==> (0 <= i < 36 && ring_of(i) == k) by {
            if 0 <= i < 36 {
                lemma_ring_bits(i as u64);
            }
        }
    }
    r
}

/// The squares that share a side with `sq`.
pub fn neighbours(sq: Square) -> (r: Bitboard)
    requires
        sq.wf(),
    ensures
        r.wf(),
        forall|j: int| r.contains(j) <==> touching(sq.index(), j),
{
    let bb = Bitboard::from_square(sq);
    let up = bb.shift(Direction::Up);
    let down = bb.shift(Direction::Down);
    let left = bb.shift(Direction::Left);
    let right = bb.shift(Direction::Right);
    let r = up.or(down).or(left.or(right));
    proof {
        assert forall|j: int| r.contains(j) <==> touching(sq.index(), j) by {
            let i = sq.index();
            if touching(i, j) {
                let dir = choose|dir: Direction| #[trigger] can_step(i, dir) && j == i + dir.delta();
                assert(bb.shifted_contains(dir, j));
            }
            if r.contains(j) {
                let dir = if up.contains(j) {
                    Direction::Up
                } else if down.contains(j) {
                    Direction::Down
                } else if left.contains(j) {
                    Direction::Left
                } else {
                    Direction::Right
                };
                assert(bb.shifted_contains(dir, j));
                assert(can_step(i, dir) && j == i + dir.delta());
            }
        }
    }
    r
}

/// The value of a capstone on `sq`.
pub fn cap_psqt(sq: Square) -> (r: i32)
    requires
        sq.wf(),
    ensures
        r == cap_square_value(sq.index()),
{
    let f = sq.file();
    let k = sq.rank();
    let a: u8 = if f < 2 {
        2 - f
    } else if f > 3 {
        f - 3
    } else {
        0
    };
    let b: u8 = if k < 2 {
        2 - k
    } else if k > 3 {
        k - 3
    } else {
        0
    };
    if a == 2 && b == 2 {
        -20
    } else if a == 2 || b == 2 {
        -5
    } else if a == 1 && b == 1 {
        10
    } else if a == 1 || b == 1 {
        18
    } else {
        35
    }
}

impl Position {
    /// Whether the top tile on square `i` belongs to `player`.
    pub open spec fn owned_by(&self, player: Player, i: int) -> bool {
        0 <= i < 36 && self.stacks.heights[i] > 0 && self.stacks.view_at(i).owner() == player
    }

    /// Whether square `i` and the square one step against `dir` from it
    /// are both part of the roads of `player`.
    pub open spec fn road_pair(&self, player: Player, dir: Direction, i: int) -> bool {
        self.on_road(player, i) && can_step(i - dir.delta(), dir) && self.on_road(
            player,
            i - dir.delta(),
        )
    }

    /// Whether square `i` and the two squares that follow it against
    /// `dir` are all part of the roads of `player`.
    pub open spec fn road_line(&self, player: Player, dir: Direction, i: int) -> bool {
        self.road_pair(player, dir, i) && can_step(i - dir.delta(), dir) && self.road_pair(
            player,
            dir,
            i - dir.delta(),
        )
    }

    pub open spec fn road_pair_fn(&self, player: Player, dir: Direction) -> spec_fn(int) -> bool {
        |i: int| self.road_pair(player, dir, i)
    }

    pub open spec fn road_line_fn(&self, player: Player, dir: Direction) -> spec_fn(int) -> bool {
        |i: int| self.road_line(player, dir, i)
    }

    /// What the tiles buried in the stack on square `i` are worth to
    /// `player`, if the stack is `player`'s: each of the tiles right below
    /// the top adds if it is `player`'s own and takes away if it is not, by
    /// the kind of the top tile. Of the two ways to treat a high stack this
    /// is the one that cuts it off: only the six tiles right below the top
    /// count, and what lies deeper is worth nothing to either side.
    pub open spec fn stack_value(&self, player: Player, i: int) -> int {
        if self.owned_by(player, i) && self.stacks.heights[i] > 1 {
            let c = shallow_counts(self.stacks.view_at(i).tiles, player);
            match self.stacks.tops[i] {
                Some(PieceType::Wall) => c.0 * 35 - c.1 * 15,
                Some(PieceType::Capstone) => c.0 * 40 - c.1 * 20,
                _ => c.0 * 30 - c.1 * 40,
            }
        } else {
            0
        }
    }

    pub open spec fn stack_value_fn(&self, player: Player) -> spec_fn(int) -> int {
        |i: int| self.stack_value(player, i)
    }

    /// Whether the stack on square `i` belongs to the other side, has a
    /// flat on top and a tile of `player` right below it.
    pub open spec fn vulnerable(&self, player: Player, i: int) -> bool {
        &&& self.owned_by(player.flipped(), i)
        &&& self.stacks.heights[i] > 1
        &&& self.stacks.tops[i] == Some(PieceType::Flat)
        &&& shallow_counts(self.stacks.view_at(i).tiles, player).0 > 0
    }

    /// Whether square `i` holds anything but a flat of `player` on top.
    pub open spec fn company(&self, player: Player, i: int) -> bool {
        0 <= i < 36 && self.stacks.heights[i] > 0 && !self.flat_of(player, i)
    }

    pub open spec fn threat_fn(&self, player: Player, i: int) -> spec_fn(int) -> bool {
        |j: int| touching(i, j) && self.vulnerable(player, j)
    }

    /// What a capstone of `player` on square `i` is worth, if there is
    /// one: the value of its square, less 50 if no square beside it holds
    /// anything but a flat of `player`, and 25 for each stack beside it that
    /// it threatens.
    pub open spec fn cap_value(&self, player: Player, i: int) -> int {
        if self.owned_by(player, i) && self.stacks.tops[i] == Some(PieceType::Capstone) {
            cap_square_value(i) + (if exists|j: int| touching(i, j) && self.company(player, j) {
                0int
            } else {
                -50int
            }) + 25 * count_squares(self.threat_fn(player, i))
        } else {
            0
        }
    }

    pub open spec fn cap_value_fn(&self, player: Player) -> spec_fn(int) -> int {
        |i: int| self.cap_value(player, i)
    }

    /// The number of pairs of squares side by side that are part of the roads of `player`.
    pub open spec fn road_pairs(&self, player: Player) -> int {
        count_squares(self.road_pair_fn(player, Direction::Left)) + count_squares(
            self.road_pair_fn(player, Direction::Down),
        )
    }

    /// The number of rows of three squares that are part of the roads of `player`.
    pub open spec fn road_lines(&self, player: Player) -> int {
        count_squares(self.road_line_fn(player, Direction::Left)) + count_squares(
            self.road_line_fn(player, Direction::Down),
        )
    }

    /// What the position is worth to `player`, who gets `komi` flats on
    /// top of those on the board. Flats in hand have a term; capstones in
    /// hand have none. A high stack is cut off six tiles below its top.
    pub open spec fn player_value(&self, player: Player, komi: int) -> int {
        (self.flats_on_top(player) + komi) * 75 - self.flats_in_hand[player.index()] * 13
            + self.road_pairs(player) * 9 + self.road_lines(player) * 7 + sum_upto(
            self.stack_value_fn(player),
            36,
        ) + sum_upto(self.cap_value_fn(player), 36)
    }

    pub open spec fn ring_flat_fn(&self, player: Player, k: int) -> spec_fn(int) -> bool {
        |i: int| self.flat_of(player, i) && ring_of(i) == k
    }

    /// The flats of `player` in ring `k`, less those of the other side.
    pub open spec fn ring_lead(&self, k: int) -> int {
        count_squares(self.ring_flat_fn(Player::P1, k)) - count_squares(
            self.ring_flat_fn(Player::P2, k),
        )
    }

    /// What the places of the first player's flats are worth more than
    /// those of the second's.
    pub open spec fn ring_value(&self) -> int {
        self.ring_lead(0) * ring_weight(0) + self.ring_lead(1) * ring_weight(1) + self.ring_lead(2)
            * ring_weight(2) + self.ring_lead(3) * ring_weight(3) + self.ring_lead(4) * ring_weight(
            4,
        )
    }

    /// What the position is worth to the side to move: what it is worth
    /// more to that side than to the other, and the bonus for the move.
    pub open spec fn value(&self) -> int {
        let first = self.player_value(Player::P1, 0) - self.player_value(Player::P2, KOMI as int)
            + self.ring_value();
        match self.stm {
            Player::P1 => first + TEMPO,
            Player::P2 => -first + TEMPO,
        }
    }
}

/// The number of pairs and of rows of three among the squares `road`, side by side in direction `dir`.
fn count_pairs(pos: &Position, player: Player, road: Bitboard, dir: Direction) -> (r: (u32, u32))
    requires
        pos.wf(),
        road.wf(),
        forall|i: int| road.contains(i) <==> pos.on_road(player, i),
    ensures
        r.0 == count_squares(pos.road_pair_fn(player, dir)),
        r.1 == count_squares(pos.road_line_fn(player, dir)),
        r.0 <= 36,
        r.1 <= 36,
{
    let adj = road.and(road.shift(dir));
    let line = adj.and(adj.shift(dir));
    proof {
        assert forall|i: int| 0 <= i < 36 implies (adj.contains(i) <==> #[trigger] pos.road_pair_fn(
            player,
            dir,
        )(i)) by {
            assert(road.shift_spec(dir).contains(i) <==> road.shifted_contains(dir, i));
        }
        lemma_popcount_counts(adj, pos.road_pair_fn(player, dir));
        assert forall|i: int| 0 <= i < 36 implies (line.contains(i) <==> #[trigger] pos.road_line_fn(
            player,
            dir,
        )(i)) by {
            assert(adj.contains(i - dir.delta()) <==> pos.road_pair(player, dir, i - dir.delta()));
        }
        lemma_popcount_counts(line, pos.road_line_fn(player, dir));
    }
    (adj.popcount(), line.popcount())
}


/// What the tiles buried in the stacks of `player` are worth to `player`.
fn stack_values(pos: &Position, player: Player) -> (r: i32)
    requires
        pos.wf(),
    ensures
        r == sum_upto(pos.stack_value_fn(player), 36),
        -8640 <= r <= 8640,
{
    let mut acc: i32 = 0;
    let mut i: u8 = 0;
    while i < 36
        invariant
            i <= 36,
            pos.wf(),
            acc == sum_upto(pos.stack_value_fn(player), i as int),
            -240 * i <= acc <= 240 * i,
        decreases 36 - i,
    {
        let sq = Square { raw: i };
        let height = pos.stacks().height(sq);
        let mut term: i32 = 0;
        if height > 1 && pos.stacks().top_owner(sq) == Some(player) {
            let counts = count_shallow(pos.stacks().players(sq), height, player);
            let friends = counts.0 as i32;
            let foes = counts.1 as i32;
            term = match pos.stacks().top(sq) {
                Some(PieceType::Wall) => friends * 35 - foes * 15,
                Some(PieceType::Capstone) => friends * 40 - foes * 20,
                _ => friends * 30 - foes * 40,
            };
        }
        assert(term == pos.stack_value(player, i as int));
        acc = acc + term;
        i += 1;
    }
    acc
}

/// The stacks of the other side that a capstone of `player` beside them would threaten.
fn vulnerable_squares(pos: &Position, player: Player) -> (r: Bitboard)
    requires
        pos.wf(),
    ensures
        r.wf(),
        forall|i: int| r.contains(i) <==> pos.vulnerable(player, i),
{
    let mut r = Bitboard::empty();
    let mut i: u8 = 0;
    while i < 36
        invariant
            i <= 36,
            pos.wf(),
            r.wf(),
            forall|j: int| r.contains(j) <==> (j < i && pos.vulnerable(player, j)),
        decreases 36 - i,
    {
        let sq = Square { raw: i };
        let height = pos.stacks().height(sq);
        if height > 1 && pos.stacks().top_owner(sq) == Some(player.flip()) && pos.stacks().top(sq)
            == Some(PieceType::Flat) {
            let counts = count_shallow(pos.stacks().players(sq), height, player);
            if counts.0 != 0 {
                r.set_sq(sq);
            }
        }
        i += 1;
    }
    r
}

/// The squares that hold anything but a flat of `player` on top.
fn company_squares(pos: &Position, player: Player) -> (r: Bitboard)
    requires
        pos.wf(),
    ensures
        r.wf(),
        forall|i: int| r.contains(i) <==> pos.company(player, i),
{
    let flats = pos.player_piece_bb(PieceType::Flat.with_player(player));
    let r = pos.occ().and(flats.cmpl());
    proof {
        assert forall|i: int| r.contains(i) <==> pos.company(player, i) by {
            if 0 <= i < 36 {
                assert(pos.square_ok(pos.stacks@[i], i));
            }
        }
    }
    r
}

/// What the capstones of `player` are worth.
fn cap_values(pos: &Position, player: Player) -> (r: i32)
    requires
        pos.wf(),
    ensures
        r == sum_upto(pos.cap_value_fn(player), 36),
        -2520 <= r <= 4860,
{
    let weak = vulnerable_squares(pos, player);
    let company = company_squares(pos, player);
    let mut acc: i32 = 0;
    let mut i: u8 = 0;
    while i < 36
        invariant
            i <= 36,
            pos.wf(),
            weak.wf(),
            company.wf(),
            forall|j: int| weak.contains(j) <==> pos.vulnerable(player, j),
            forall|j: int| company.contains(j) <==> pos.company(player, j),
            acc == sum_upto(pos.cap_value_fn(player), i as int),
            -70 * i <= acc <= 135 * i,
        decreases 36 - i,
    {
        let sq = Square { raw: i };
        let mut term: i32 = 0;
        if pos.stacks().top(sq) == Some(PieceType::Capstone) && pos.stacks().top_owner(sq) == Some(
            player,
        ) {
            let around = neighbours(sq);
            let beside = around.and(company);
            let threatened = around.and(weak);
            let lonely = beside.is_empty();
            proof {
                lemma_popcount_counts(threatened, pos.threat_fn(player, i as int));
                assert(ones_in(threatened.raw) <= 4) by {
                    lemma_at_most_four(sq, threatened);
                }
                if lonely {
                    assert(!(exists|j: int| touching(i as int, j) && pos.company(player, j))) by {
                        if exists|j: int| touching(i as int, j) && pos.company(player, j) {
                            let j = choose|j: int| touching(i as int, j) && pos.company(player, j);
                            assert(beside.contains(j));
                        }
                    }
                } else {
                    let j = choose|j: int| beside.contains(j);
                    assert(touching(i as int, j) && pos.company(player, j));
                }
            }
            term = cap_psqt(sq) + (if lonely {
                -50
            } else {
                0
            }) + 25 * (threatened.popcount() as i32);
        }
        assert(term == pos.cap_value(player, i as int));
        acc = acc + term;
        i += 1;
    }
    acc
}

/// A set of squares that all share a side with one square has at most four squares.
proof fn lemma_at_most_four(sq: Square, set: Bitboard)
    requires
        sq.wf(),
        set.wf(),
        forall|j: int| set.contains(j) ==> touching(sq.index(), j),
    ensures
        ones_in(set.raw) <= 4,
{
    let i = sq.index();
    let p = |j: int| set.contains(j);
    lemma_popcount_counts(set, p);
    let f = indicator(p);
    let g = |j: int|
        if j == i - 6 || j == i - 1 || j == i + 1 || j == i + 6 {
            1int
        } else {
            0int
        };
    assert forall|j: int| 0 <= j < 36 implies #[trigger] f(j) <= g(j) by {
        if set.contains(j) {
            assert(touching(i, j));
            let dir = choose|dir: Direction| #[trigger] can_step(i, dir) && j == i + dir.delta();
        }
    }
    lemma_sum_le(f, g, 36);
    lemma_sum_of_four(g, i, 36);
}

proof fn lemma_sum_of_four(g: spec_fn(int) -> int, i: int, n: int)
    requires
        forall|j: int|
            0 <= j < n ==> #[trigger] g(j) == (if j == i - 6 || j == i - 1 || j == i + 1 || j == i
                + 6 {
                1int
            } else {
                0int
            }),
    ensures
        sum_upto(g, n) <= (if i - 6 < n {
            1int
        } else {
            0int
        }) + (if i - 1 < n {
            1int
        } else {
            0int
        }) + (if i + 1 < n {
            1int
        } else {
            0int
        }) + (if i + 6 < n {
            1int
        } else {
            0int
        }),
        0 <= sum_upto(g, n),
    decreases n,
{
    if n > 0 {
        lemma_sum_of_four(g, i, n - 1);
        assert(g(n - 1) == (if n - 1 == i - 6 || n - 1 == i - 1 || n - 1 == i + 1 || n - 1 == i + 6 {
            1int
        } else {
            0int
        }));
    }
}

/// What the position is worth to `player`, who gets `komi` flats on top
/// of those on the board: 75 for each flat on top of a stack; 13 less for
/// each flat in hand; 9 for each pair and 7 for each row of three squares
/// side by side that are part of roads; and the values of the stacks and of
/// the capstones on the board. A capstone in hand adds and takes nothing,
/// and of the tiles buried in a stack only the six right below the top
/// count. The komi is small enough for the value to fit.
pub fn static_eval_player(pos: &Position, player: Player, komi: u32) -> (r: i32)
    requires
        pos.wf(),
        komi <= MAX_KOMI,
    ensures
        r == pos.player_value(player, komi as int),
        -20000 <= r <= (36 + komi) * 75 + 20000,
{
    let flat_bb = pos.player_piece_bb(PieceType::Flat.with_player(player));
    proof {
        lemma_popcount_is_size(flat_bb);
        assert forall|i: int| 0 <= i < 36 implies #[trigger] member_fn(flat_bb)(i) == pos.flat_fn(
            player,
        )(i) by {
            assert(pos.square_ok(pos.stacks@[i], i));
        }
        lemma_sum_upto_same(member_fn(flat_bb), pos.flat_fn(player), 36);
    }
    let flats = (flat_bb.popcount() + komi) as i32;
    let flats = flats * 75;
    let flats_in_hand = pos.flats_in_hand(player) as i32;
    let flats_in_hand = flats_in_hand * -13;
    let road_bb = pos.roads(player);
    let horz = count_pairs(pos, player, road_bb, Direction::Left);
    let vert = count_pairs(pos, player, road_bb, Direction::Down);
    let adj_value = (horz.0 + vert.0) as i32;
    let line_value = (horz.1 + vert.1) as i32;
    let adj_value = adj_value * 9;
    let line_value = line_value * 7;
    let stack_score = stack_values(pos, player);
    let cap_score = cap_values(pos, player);
    flats + flats_in_hand + adj_value + line_value + stack_score + cap_score
}

/// What the places of the first player's flats in ring `k` are worth
/// more than those of the second's.
fn ring_term(pos: &Position, first: Bitboard, second: Bitboard, k: u8) -> (r: i32)
    requires
        pos.wf(),
        k < 5,
        first.wf(),
        second.wf(),
        forall|i: int| first.contains(i) <==> pos.flat_of(Player::P1, i),
        forall|i: int| second.contains(i) <==> pos.flat_of(Player::P2, i),
    ensures
        r == pos.ring_lead(k as int) * ring_weight(k as int),
        -1440 <= r <= 1440,
{
    let squares = ring(k);
    let a = first.and(squares);
    let b = second.and(squares);
    proof {
        lemma_popcount_counts(a, pos.ring_flat_fn(Player::P1, k as int));
        lemma_popcount_counts(b, pos.ring_flat_fn(Player::P2, k as int));
    }
    let value: i32 = if k == 0 {
        2
    } else if k == 1 {
        8
    } else if k == 2 {
        -5
    } else if k == 3 {
        -15
    } else {
        -40
    };
    let lead = a.popcount() as i32 - b.popcount() as i32;
    assert(-36 <= lead <= 36);
    assert(-1440 <= lead * value <= 1440) by (nonlinear_arith)
        requires
            -36 <= lead <= 36,
            -40 <= value <= 8,
    ;
    lead * value
}

/// What the position is worth to the side to move.
pub fn static_eval(pos: &Position) -> (r: i32)
    requires
        pos.wf(),
    ensures
        r == pos.value(),
{
    let p1_score = static_eval_player(pos, Player::P1, 0);
    let p2_score = static_eval_player(pos, Player::P2, KOMI);
    let p1_flat_bb = pos.player_piece_bb(Piece::P1Flat);
    let p2_flat_bb = pos.player_piece_bb(Piece::P2Flat);
    proof {
        assert forall|i: int| p1_flat_bb.contains(i) <==> pos.flat_of(Player::P1, i) by {
            if 0 <= i < 36 {
                assert(pos.square_ok(pos.stacks@[i], i));
            }
        }
        assert forall|i: int| p2_flat_bb.contains(i) <==> pos.flat_of(Player::P2, i) by {
            if 0 <= i < 36 {
                assert(pos.square_ok(pos.stacks@[i], i));
            }
        }
    }
    let quality = ring_term(pos, p1_flat_bb, p2_flat_bb, 0) + ring_term(
        pos,
        p1_flat_bb,
        p2_flat_bb,
        1,
    ) + ring_term(pos, p1_flat_bb, p2_flat_bb, 2) + ring_term(pos, p1_flat_bb, p2_flat_bb, 3)
        + ring_term(pos, p1_flat_bb, p2_flat_bb, 4);
    let eval = p1_score - p2_score + quality;
    eval * pos.stm().sign() + TEMPO
}

} // verus!
