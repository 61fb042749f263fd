use vstd::prelude::*;
use crate::bitboard::Bitboard;
use crate::bits::{bit, lemma_bit_shifts, lemma_low_bit, ones_in};
use crate::fold::{lemma_sum_upto_front, sum_upto};
use crate::position::{Position, KOMI};
use crate::types::{can_step, Direction, Piece, Player};

verus! {

/// Whether the squares `a` and `b` share a side.
pub open spec fn touching(a: int, b: int) -> bool {
    exists|dir: Direction| #[trigger] can_step(a, dir) && b == a + dir.delta()
}

/// Whether `path` is a chain of squares of `set` in which each shares a
/// side with the next.
pub open spec fn is_chain(set: Bitboard, path: Seq<int>) -> bool {
    &&& path.len() > 0
    &&& forall|k: int| 0 <= k < path.len() ==> set.contains(#[trigger] path[k])
    &&& forall|k: int| 0 <= k < path.len() - 1 ==> touching(#[trigger] path[k], path[k + 1])
}

/// Whether a chain of squares of `set` leads to square `i` from a square of `seeds`.
pub open spec fn reached(set: Bitboard, seeds: Bitboard, i: int) -> bool {
    exists|path: Seq<int>| #[trigger]
        is_chain(set, path) && seeds.contains(path[0]) && path.last() == i
}

/// Whether a chain of squares of `set` joins the lowest rank to the
/// highest, or the leftmost file to the rightmost.
pub open spec fn spans(set: Bitboard) -> bool {
    ||| exists|i: int| 30 <= i < 36 && #[trigger] reached(set, Bitboard::lower_edge(), i)
    ||| exists|i: int| 0 <= i < 36 && i % 6 == 5 && #[trigger] reached(set, Bitboard::left_edge(), i)
}

proof fn lemma_grow(a: u64, x: u64)
    by (bit_vector)
    requires
        a <= 0xf_ffff_ffff,
        x <= 0xf_ffff_ffff,
    ensures
        (a | x) >= a,
        (a | x) <= 0xf_ffff_ffff,
{
}

/// A set that holds the seeds and, with each of its squares, the
/// squares of `set` that touch it, holds every square reached.
proof fn lemma_closed_holds_chain(set: Bitboard, seeds: Bitboard, cur: Bitboard, path: Seq<int>, k: int)
    requires
        is_chain(set, path),
        seeds.contains(path[0]),
        0 <= k < path.len(),
        forall|i: int| seeds.contains(i) && set.contains(i) ==> cur.contains(i),
        forall|i: int, dir: Direction|
            cur.contains(i) && #[trigger] can_step(i, dir) && set.contains(i + dir.delta())
                ==> cur.contains(i + dir.delta()),
    ensures
        cur.contains(path[k]),
    decreases k,
{
    if k > 0 {
        lemma_closed_holds_chain(set, seeds, cur, path, k - 1);
        assert(touching(path[k - 1], path[k]));
        let dir = choose|dir: Direction|
            #[trigger] can_step(path[k - 1], dir) && path[k] == path[k - 1] + dir.delta();
        assert(set.contains(path[k - 1] + dir.delta()));
    }
}

/// The squares of `set` that a chain of squares of `set` joins to a
/// square of `seeds`.
pub fn flood(set: Bitboard, seeds: Bitboard) -> (r: Bitboard)
    requires
        set.wf(),
        seeds.wf(),
    ensures
        r.wf(),
        forall|i: int| r.contains(i) <==> reached(set, seeds, i),
{
    let mut cur = seeds.and(set);
    proof {
        assert forall|i: int| cur.contains(i) implies reached(set, seeds, i) by {
            let path = seq![i];
            assert(is_chain(set, path));
            assert(path[0] == i && path.last() == i);
        }
    }
    loop
        invariant_except_break
            set.wf(),
            seeds.wf(),
            cur.wf(),
            forall|i: int| seeds.contains(i) && set.contains(i) ==> cur.contains(i),
            forall|i: int| cur.contains(i) ==> reached(set, seeds, i),
        ensures
            cur.wf(),
            forall|i: int| cur.contains(i) <==> reached(set, seeds, i),
        decreases 0xf_ffff_ffff - cur.raw,
    {
        let up = cur.shift(Direction::Up);
        let down = cur.shift(Direction::Down);
        let left = cur.shift(Direction::Left);
        let right = cur.shift(Direction::Right);
        let around = up.or(down).or(left.or(right)).and(set);
        let next = cur.or(around);
        proof {
            lemma_grow(cur.raw, around.raw);
            assert forall|j: int| next.contains(j) implies reached(set, seeds, j) by {
                if !cur.contains(j) {
                    let dir = if up.contains(j) {
                        Direction::Up
                    } else if down.contains(j) {
                        Direction::Down
                    } else if left.contains(j) {
                        Direction::Left
                    } else {
                        Direction::Right
                    };
                    let i = j - dir.delta();
                    assert(cur.shifted_contains(dir, j));
                    assert(reached(set, seeds, i));
                    let path = choose|path: Seq<int>| #[trigger]
                        is_chain(set, path) && seeds.contains(path[0]) && path.last() == i;
                    let longer = path.push(j);
                    assert(touching(i, j));
                    assert forall|k: int| 0 <= k < longer.len() - 1 implies touching(
                        #[trigger] longer[k],
                        longer[k + 1],
                    ) by {
                        if k < path.len() - 1 {
                            assert(touching(path[k], path[k + 1]));
                        }
                    }
                    assert(is_chain(set, longer));
                    assert(longer[0] == path[0] && longer.last() == j);
                }
            }
        }
        if next.raw() == cur.raw() {
            proof {
                assert forall|i: int, dir: Direction|
                    cur.contains(i) && #[trigger] can_step(i, dir) && set.contains(
                        i + dir.delta(),
                    ) implies cur.contains(i + dir.delta()) by {
                    let j = i + dir.delta();
                    assert(cur.shifted_contains(dir, j));
                    assert(around.contains(j));
                    assert(next.contains(j));
                }
                assert forall|i: int| reached(set, seeds, i) implies cur.contains(i) by {
                    let path = choose|path: Seq<int>| #[trigger]
                        is_chain(set, path) && seeds.contains(path[0]) && path.last() == i;
                    lemma_closed_holds_chain(set, seeds, cur, path, path.len() - 1);
                }
            }
            break ;
        }
        cur = next;
    }
    cur
}

impl Bitboard {
    /// The squares of the lowest rank.
    pub open spec fn lower_edge() -> Bitboard {
        Bitboard { raw: crate::bitboard::LOWER_EDGE_BITS }
    }

    /// The squares of the leftmost file.
    pub open spec fn left_edge() -> Bitboard {
        Bitboard { raw: crate::bitboard::LEFT_EDGE_BITS }
    }
}

/// How a game that has ended without a road is decided.
#[derive(Clone, Copy, Debug, PartialEq, Eq, Structural)]
pub enum FlatCountOutcome {
    /// The game has not ended.
    NotOver,
    Draw,
    Win(Player),
}

/// 1 if the set holds square `i`, and 0 if not.
pub open spec fn member_value(set: Bitboard, i: int) -> int {
    if set.contains(i) {
        1
    } else {
        0
    }
}

pub open spec fn member_fn(set: Bitboard) -> spec_fn(int) -> int {
    |i: int| member_value(set, i)
}

/// The number of squares in the set.
pub open spec fn set_size(set: Bitboard) -> int {
    sum_upto(member_fn(set), 36)
}

pub open spec fn bit_fn(x: u64) -> spec_fn(int) -> int {
    |i: int|
        if bit(x, i) {
            1int
        } else {
            0int
        }
}

pub proof fn lemma_halve(x: u64, j: u64)
    by (bit_vector)
    requires
        j < 63,
    ensures
        x / 2 == x >> 1,
        ((x >> 1) >> j) & 1 == (x >> ((j + 1) as u64)) & 1,
        (x >> 0) & 1 == x % 2,
        (x >> 63) >> 1 == 0,
{
}

/// A word with no bit at or above bit `k + 1` has, halved, none at or above bit `k`.
pub proof fn lemma_halved_top(x: u64, k: u64)
    by (bit_vector)
    requires
        k < 64,
        k < 63 ==> x >> ((k + 1) as u64) == 0,
    ensures
        (x >> 1) >> k == 0,
        (x / 2) >> k == 0,
        x >> 0 == x,
{
}

proof fn lemma_ones_sum(x: u64, k: int)
    requires
        0 <= k <= 64,
        k < 64 ==> x >> (k as u64) == 0,
    ensures
        ones_in(x) == sum_upto(bit_fn(x), k),
    decreases k,
{
    if k == 0 {
        lemma_halved_top(x, 63);
    } else {
        let y = x / 2;
        lemma_halve(x, 0);
        lemma_halved_top(x, (k - 1) as u64);
        lemma_ones_sum(y, k - 1);
        assert forall|j: int| 0 <= j < k - 1 implies #[trigger] bit_fn(y)(j) == bit_fn(x)(j + 1) by {
            lemma_halve(x, j as u64);
        }
        lemma_sum_upto_front(bit_fn(x), bit_fn(y), k);
        if x == 0 {
            assert(y == 0);
        }
    }
}

/// Counting the bits of a word that has none at or above bit `k` counts
/// the bits below `k`.
pub proof fn lemma_ones_sum_below(x: u64, k: int)
    requires
        0 <= k < 64,
        x >> (k as u64) == 0,
    ensures
        ones_in(x) == sum_upto(bit_fn(x), k),
{
    lemma_ones_sum(x, k);
}

/// Counting the bits of a set's word counts its squares.
pub proof fn lemma_popcount_is_size(set: Bitboard)
    requires
        set.wf(),
    ensures
        ones_in(set.raw) == set_size(set),
{
    let x = set.raw;
    assert(x >> 36 == 0) by (bit_vector)
        requires
            x <= 0xf_ffff_ffff,
    ;
    lemma_ones_sum(x, 36);
    crate::fold::lemma_sum_upto_same(bit_fn(x), member_fn(set), 36);
}

impl Position {
    /// Whether `player` has a road: a chain of squares with flats or
    /// capstones of `player` on top that joins two opposite edges.
    pub open spec fn road_exists(&self, player: Player) -> bool {
        exists|set: Bitboard|
            set.wf() && (forall|i: int| set.contains(i) <==> self.on_road(player, i)) && #[trigger] spans(
                set,
            )
    }

    /// Whether `player` has a road.
    pub fn has_road(&self, player: Player) -> (r: bool)
        requires
            self.wf(),
        ensures
            r == self.road_exists(player),
    {
        let set = self.roads(player);
        let lower = Bitboard::edge(Direction::Down);
        let leftmost = Bitboard::edge(Direction::Left);
        let from_below = flood(set, lower);
        let from_left = flood(set, leftmost);
        let top = from_below.and(Bitboard::edge(Direction::Up));
        let right = from_left.and(Bitboard::edge(Direction::Right));
        let top_empty = top.is_empty();
        let right_empty = right.is_empty();
        let r = !top_empty || !right_empty;
        proof {
            assert(lower == Bitboard::lower_edge());
            assert(leftmost == Bitboard::left_edge());
            if r {
                if !top_empty {
                    let i = choose|i: int| top.contains(i);
                    assert(reached(set, Bitboard::lower_edge(), i));
                } else {
                    let i = choose|i: int| right.contains(i);
                    assert(reached(set, Bitboard::left_edge(), i));
                }
                assert(spans(set));
            }
            if self.road_exists(player) {
                let other = choose|other: Bitboard|
                    other.wf() && (forall|i: int| other.contains(i) <==> self.on_road(player, i))
                        && #[trigger] spans(other);
                lemma_same_set(set, other);
                if exists|i: int|
                    30 <= i < 36 && #[trigger] reached(set, Bitboard::lower_edge(), i) {
                    let i = choose|i: int|
                        30 <= i < 36 && #[trigger] reached(set, Bitboard::lower_edge(), i);
                    assert(top.contains(i));
                } else {
                    let i = choose|i: int|
                        0 <= i < 36 && i % 6 == 5 && #[trigger] reached(
                            set,
                            Bitboard::left_edge(),
                            i,
                        );
                    assert(right.contains(i));
                }
            }
        }
        r
    }

    /// Whether the game ends by a count of flats: the board is full, or a
    /// player has neither a flat nor a capstone in hand.
    pub open spec fn count_is_due(&self) -> bool {
        ||| forall|i: int| 0 <= i < 36 ==> self.stacks.heights[i] > 0
        ||| self.flats_in_hand[0] == 0 && self.caps_in_hand[0] == 0
        ||| self.flats_in_hand[1] == 0 && self.caps_in_hand[1] == 0
    }

    /// Whether the top tile on square `i` is a flat of `player`.
    pub open spec fn flat_of(&self, player: Player, i: int) -> bool {
        &&& 0 <= i < 36
        &&& self.stacks.heights[i] > 0
        &&& self.stacks.view_at(i).owner() == player
        &&& self.stacks.tops[i] == Some(crate::types::PieceType::Flat)
    }

    pub open spec fn flat_fn(&self, player: Player) -> spec_fn(int) -> int {
        |i: int|
            if self.flat_of(player, i) {
                1int
            } else {
                0int
            }
    }

    /// The number of squares with a flat of `player` on top.
    pub open spec fn flats_on_top(&self, player: Player) -> int {
        sum_upto(self.flat_fn(player), 36)
    }

    /// The outcome of a count of flats, in which the second player gets the
    /// komi on top of the flats counted.
    pub open spec fn count_outcome(&self) -> FlatCountOutcome {
        let first = self.flats_on_top(Player::P1);
        let second = self.flats_on_top(Player::P2) + KOMI;
        if !self.count_is_due() {
            FlatCountOutcome::NotOver
        } else if first > second {
            FlatCountOutcome::Win(Player::P1)
        } else if second > first {
            FlatCountOutcome::Win(Player::P2)
        } else {
            FlatCountOutcome::Draw
        }
    }

    /// Counts the flats on top of the stacks, if the game has ended by a
    /// full board or an empty hand.
    pub fn count_flats(&self) -> (r: FlatCountOutcome)
        requires
            self.wf(),
        ensures
            r == self.count_outcome(),
    {
        let full = self.empty_squares().is_empty();
        let out0 = self.flats_in_hand[0] == 0 && self.caps_in_hand[0] == 0;
        let out1 = self.flats_in_hand[1] == 0 && self.caps_in_hand[1] == 0;
        proof {
            let e = self.empty_squares_spec();
            if !full {
                let i = choose|i: int| e.contains(i);
                assert(self.stacks.heights[i] == 0);
            } else {
                assert forall|i: int| 0 <= i < 36 implies self.stacks.heights[i] > 0 by {
                    assert(!e.contains(i));
                }
            }
        }
        if !full && !out0 && !out1 {
            return FlatCountOutcome::NotOver;
        }
        let b1 = self.player_piece_bb(Piece::P1Flat);
        let b2 = self.player_piece_bb(Piece::P2Flat);
        let first = b1.popcount();
        let second = b2.popcount() + KOMI;
        proof {
            lemma_popcount_is_size(b1);
            lemma_popcount_is_size(b2);
            assert forall|i: int| 0 <= i < 36 implies #[trigger] member_fn(b1)(i) == self.flat_fn(
                Player::P1,
            )(i) by {
                assert(self.square_ok(self.stacks@[i], i));
            }
            crate::fold::lemma_sum_upto_same(member_fn(b1), self.flat_fn(Player::P1), 36);
            assert forall|i: int| 0 <= i < 36 implies #[trigger] member_fn(b2)(i) == self.flat_fn(
                Player::P2,
            )(i) by {
                assert(self.square_ok(self.stacks@[i], i));
            }
            crate::fold::lemma_sum_upto_same(member_fn(b2), self.flat_fn(Player::P2), 36);
        }
        if first > second {
            FlatCountOutcome::Win(Player::P1)
        } else if second > first {
            FlatCountOutcome::Win(Player::P2)
        } else {
            FlatCountOutcome::Draw
        }
    }
}

/// Two sets with the same squares are reached alike.
proof fn lemma_same_set(a: Bitboard, b: Bitboard)
    requires
        forall|i: int| a.contains(i) <==> b.contains(i),
    ensures
        forall|seeds: Bitboard, i: int| #[trigger] reached(a, seeds, i) <==> reached(b, seeds, i),
        spans(a) <==> spans(b),
{
    assert forall|seeds: Bitboard, i: int| #[trigger] reached(a, seeds, i) <==> reached(
        b,
        seeds,
        i,
    ) by {
        if reached(a, seeds, i) {
            let path = choose|path: Seq<int>| #[trigger]
                is_chain(a, path) && seeds.contains(path[0]) && path.last() == i;
            assert(is_chain(b, path));
        }
        if reached(b, seeds, i) {
            let path = choose|path: Seq<int>| #[trigger]
                is_chain(b, path) && seeds.contains(path[0]) && path.last() == i;
            assert(is_chain(a, path));
        }
    }
    lemma_spans_follows(a, b);
    lemma_spans_follows(b, a);
}

proof fn lemma_spans_follows(a: Bitboard, b: Bitboard)
    requires
        forall|seeds: Bitboard, i: int| #[trigger] reached(a, seeds, i) <==> reached(b, seeds, i),
    ensures
        spans(a) ==> spans(b),
{
    if spans(a) {
        if exists|i: int| 30 <= i < 36 && #[trigger] reached(a, Bitboard::lower_edge(), i) {
            let i = choose|i: int| 30 <= i < 36 && #[trigger] reached(a, Bitboard::lower_edge(), i);
            assert(reached(b, Bitboard::lower_edge(), i));
        } else {
            let i = choose|i: int|
                0 <= i < 36 && i % 6 == 5 && #[trigger] reached(a, Bitboard::left_edge(), i);
            assert(reached(b, Bitboard::left_edge(), i));
        }
    }
}

} // verus!
