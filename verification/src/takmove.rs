use vstd::prelude::*;
use crate::bits::ones_in;
use crate::types::{Direction, PieceType, Square};

verus! {

/// The greatest number of tiles that a spread may carry.
pub const CARRY_LIMIT: u8 = 6;

/// The number of tiles that a spread with drop pattern `p` picks up: the
/// lowest set bit of the pattern stands for the lowest tile carried, bit 5
/// for the top tile of the stack.
pub open spec fn pattern_carry(p: int) -> int {
    if p % 2 != 0 {
        6
    } else if p % 4 != 0 {
        5
    } else if p % 8 != 0 {
        4
    } else if p % 16 != 0 {
        3
    } else if p % 32 != 0 {
        2
    } else {
        1
    }
}

/// Whether bit `i` of the pattern `p` is set.
pub open spec fn pattern_bit(p: int, i: int) -> bool {
    if i == 0 {
        p % 2 >= 1
    } else if i == 1 {
        p % 4 >= 2
    } else if i == 2 {
        p % 8 >= 4
    } else if i == 3 {
        p % 16 >= 8
    } else if i == 4 {
        p % 32 >= 16
    } else if i == 5 {
        p % 64 >= 32
    } else {
        false
    }
}

/// The sizes of the groups that the bits below `w` of pattern `p` cut the
/// carried tiles into, nearest square first. Every set bit starts a group;
/// a group ends below the next set bit, the last one below bit `w`.
pub open spec fn pattern_groups(p: int, w: int) -> Seq<int>
    decreases w,
{
    if w <= 0 {
        Seq::empty()
    } else {
        let g = pattern_groups(p, w - 1);
        if pattern_bit(p, w - 1) {
            g.push(1)
        } else if g.len() == 0 {
            g
        } else {
            g.update(g.len() - 1, g.last() + 1)
        }
    }
}

/// The numbers of tiles that a spread with pattern `p` drops on the
/// squares that it passes, nearest square first.
pub open spec fn pattern_drops(p: int) -> Seq<int> {
    pattern_groups(p, 6)
}

/// The sum of the elements of `s`.
pub open spec fn seq_sum(s: Seq<int>) -> int
    decreases s.len(),
{
    if s.len() == 0 {
        0
    } else {
        seq_sum(s.drop_last()) + s.last()
    }
}

/// Below bit `w` the pattern `p` has `pattern_groups(p, w).len()` set
/// bits; its groups hold at least one tile each and, if there is any,
/// `w` minus the number of the lowest set bit together.
pub proof fn lemma_pattern_groups(p: int, w: int)
    requires
        0 <= w <= 6,
        0 <= p < 64,
    ensures
        pattern_groups(p, w).len() <= w,
        forall|j: int|
            0 <= j < pattern_groups(p, w).len() ==> 1 <= #[trigger] pattern_groups(p, w)[j] <= w,
        seq_sum(pattern_groups(p, w)) <= w,
        pattern_groups(p, w).len() == 0 <==> (forall|i: int| 0 <= i < w ==> !pattern_bit(p, i)),
    decreases w,
{
    if w > 0 {
        lemma_pattern_groups(p, w - 1);
        let g = pattern_groups(p, w - 1);
        let h = pattern_groups(p, w);
        if pattern_bit(p, w - 1) {
            assert(h.drop_last() =~= g);
        } else if g.len() > 0 {
            assert(h.drop_last() =~= g.drop_last());
            let i = choose|i: int| 0 <= i < w - 1 && pattern_bit(p, i);
            assert(0 <= i < w && pattern_bit(p, i));
        } else {
            assert forall|i: int| 0 <= i < w implies !pattern_bit(p, i) by {}
        }
    }
}

/// The tiles that a pattern's groups hold together are the tiles that it picks up.
pub proof fn lemma_pattern_sum(p: int, w: int)
    requires
        0 <= w <= 6,
        0 < p < 64,
    ensures
        6 - pattern_carry(p) < w ==> seq_sum(pattern_groups(p, w)) == w - (6 - pattern_carry(p)),
        6 - pattern_carry(p) >= w ==> pattern_groups(p, w).len() == 0,
        6 - pattern_carry(p) < w ==> pattern_groups(p, w).len() > 0,
    decreases w,
{
    if w > 0 {
        lemma_pattern_sum(p, w - 1);
        lemma_pattern_groups(p, w - 1);
        let g = pattern_groups(p, w - 1);
        let h = pattern_groups(p, w);
        if pattern_bit(p, w - 1) {
            assert(h.drop_last() =~= g);
            assert(seq_sum(h) == seq_sum(g) + 1);
            if g.len() == 0 {
                assert(seq_sum(g) == 0);
            }
        } else if g.len() > 0 {
            assert(h.drop_last() =~= g.drop_last());
        }
    }
}

/// The sum of the first `j` elements is at most the sum of all, where no element is negative.
pub proof fn lemma_prefix_sum(s: Seq<int>, j: int)
    requires
        0 <= j <= s.len(),
        forall|i: int| 0 <= i < s.len() ==> s[i] >= 0,
    ensures
        0 <= seq_sum(s.subrange(0, j)) <= seq_sum(s),
        j < s.len() ==> seq_sum(s.subrange(0, j + 1)) == seq_sum(s.subrange(0, j)) + s[j],
        j == s.len() ==> seq_sum(s.subrange(0, j)) == seq_sum(s),
    decreases s.len() - j,
{
    if j < s.len() {
        lemma_prefix_sum(s, j + 1);
        assert(s.subrange(0, j + 1).drop_last() =~= s.subrange(0, j));
        lemma_sum_nonneg(s.subrange(0, j));
    } else {
        assert(s.subrange(0, j) =~= s);
        lemma_sum_nonneg(s);
    }
}

pub proof fn lemma_sum_nonneg(s: Seq<int>)
    requires
        forall|i: int| 0 <= i < s.len() ==> s[i] >= 0,
    ensures
        0 <= seq_sum(s),
    decreases s.len(),
{
    if s.len() > 0 {
        lemma_sum_nonneg(s.drop_last());
    }
}

/// The number of squares that a spread with pattern `p` drops tiles on.
pub open spec fn pattern_ones(p: int) -> int {
    pattern_drops(p).len() as int
}

/// 1 if bit `i` of the pattern `p` is set, and 0 if not.
pub open spec fn pattern_bit_value(p: int, i: int) -> int {
    if pattern_bit(p, i) {
        1
    } else {
        0
    }
}

proof fn lemma_groups_len(p: int, w: int)
    requires
        0 <= w <= 6,
    ensures
        w == 0 ==> pattern_groups(p, w).len() == 0,
        w > 0 ==> pattern_groups(p, w).len() == pattern_groups(p, w - 1).len() + pattern_bit_value(
            p,
            w - 1,
        ),
{
}

/// A pattern passes as many squares as it has bits set, which is what
/// counting the bits of the word gives.
pub proof fn lemma_pattern_ones(p: int)
    requires
        0 <= p < 64,
    ensures
        pattern_ones(p) == pattern_bit_value(p, 0) + pattern_bit_value(p, 1) + pattern_bit_value(
            p,
            2,
        ) + pattern_bit_value(p, 3) + pattern_bit_value(p, 4) + pattern_bit_value(p, 5),
        pattern_ones(p) == ones_in(p as u64),
        0 <= pattern_ones(p) <= 6,
        p > 0 ==> pattern_ones(p) >= 1,
{
    lemma_groups_len(p, 0);
    lemma_groups_len(p, 1);
    lemma_groups_len(p, 2);
    lemma_groups_len(p, 3);
    lemma_groups_len(p, 4);
    lemma_groups_len(p, 5);
    lemma_groups_len(p, 6);
    let x = p as u64;
    reveal_with_fuel(ones_in, 8);
    assert(ones_in(x) == x % 2 + (x / 2) % 2 + (x / 4) % 2 + (x / 8) % 2 + (x / 16) % 2 + (x / 32)
        % 2) by {
        assert(x / 2 / 2 == x / 4);
        assert(x / 4 / 2 == x / 8);
        assert(x / 8 / 2 == x / 16);
        assert(x / 16 / 2 == x / 32);
        assert(x / 32 / 2 == 0);
    }
}

/// The sum of the six low bits of `p`.
pub open spec fn bv_ones(p: u16) -> int {
    ((p >> 0) & 1) + ((p >> 1) & 1) + ((p >> 2) & 1) + ((p >> 3) & 1) + ((p >> 4) & 1) + ((p >> 5)
        & 1)
}

proof fn lemma_bv_bits(p: u16)
    by (bit_vector)
    requires
        p < 64,
    ensures
        (p >> 0) & 1 == (if p % 2 >= 1 { 1u16 } else { 0u16 }),
        (p >> 1) & 1 == (if p % 4 >= 2 { 1u16 } else { 0u16 }),
        (p >> 2) & 1 == (if p % 8 >= 4 { 1u16 } else { 0u16 }),
        (p >> 3) & 1 == (if p % 16 >= 8 { 1u16 } else { 0u16 }),
        (p >> 4) & 1 == (if p % 32 >= 16 { 1u16 } else { 0u16 }),
        (p >> 5) & 1 == (if p % 64 >= 32 { 1u16 } else { 0u16 }),
{
}

pub proof fn lemma_bv_ones(p: u16)
    requires
        p < 64,
    ensures
        bv_ones(p) == pattern_ones(p as int),
{
    lemma_bv_bits(p);
    lemma_pattern_ones(p as int);
}

/// How the patterns follow each other when they are counted up in steps
/// of `l`, a power of two that divides `p`: adding `l` sets at most one bit
/// more; adding the lowest set bit sets no bit more, and every multiple of
/// `l` that is skipped by it has more bits set than `p`.
pub proof fn lemma_pattern_steps(p: u16, l: u16, q: u16)
    by (bit_vector)
    requires
        0 < p < 64,
        l == 1 || l == 2 || l == 4 || l == 8 || l == 16 || l == 32,
        p % l == 0,
    ensures
        !p < 0xffff,
        1 <= p & ((!p + 1) as u16) <= p,
        (p & ((!p + 1) as u16)) % l == 0,
        ((p >> 0) & 1) + ((p >> 1) & 1) + ((p >> 2) & 1) + ((p >> 3) & 1) + ((p >> 4) & 1) + ((p
            >> 5) & 1) >= 1,
        p + l < 64 ==> (((p + l) as u16 >> 0) & 1) + (((p + l) as u16 >> 1) & 1) + (((p + l) as u16
            >> 2) & 1) + (((p + l) as u16 >> 3) & 1) + (((p + l) as u16 >> 4) & 1) + (((p + l) as u16
            >> 5) & 1) <= ((p >> 0) & 1) + ((p >> 1) & 1) + ((p >> 2) & 1) + ((p >> 3) & 1) + ((p
            >> 4) & 1) + ((p >> 5) & 1) + 1,
        p + (p & ((!p + 1) as u16)) < 64 ==> (((p + (p & ((!p + 1) as u16))) as u16 >> 0) & 1) + (((
        p + (p & ((!p + 1) as u16))) as u16 >> 1) & 1) + (((p + (p & ((!p + 1) as u16))) as u16
            >> 2) & 1) + (((p + (p & ((!p + 1) as u16))) as u16 >> 3) & 1) + (((p + (p & ((!p
            + 1) as u16))) as u16 >> 4) & 1) + (((p + (p & ((!p + 1) as u16))) as u16 >> 5) & 1)
            <= ((p >> 0) & 1) + ((p >> 1) & 1) + ((p >> 2) & 1) + ((p >> 3) & 1) + ((p >> 4) & 1)
            + ((p >> 5) & 1),
        (p < q && q < p + (p & ((!p + 1) as u16)) && q < 64) ==> ((q >> 0) & 1) + ((q >> 1) & 1)
            + ((q >> 2) & 1) + ((q >> 3) & 1) + ((q >> 4) & 1) + ((q >> 5) & 1) > ((p >> 0) & 1)
            + ((p >> 1) & 1) + ((p >> 2) & 1) + ((p >> 3) & 1) + ((p >> 4) & 1) + ((p >> 5) & 1),
        (p < q && q < p + l) ==> q % l != 0,
        p + l <= 64,
        p + (p & ((!p + 1) as u16)) <= 64,
        ((p + l) as u16) % l == 0,
        ((p + (p & ((!p + 1) as u16))) as u16) % l == 0,
{
}

/// A move, packed into 15 bits: the drop pattern in bits 0 to 6, which is 0
/// for a placement; in bits 7 and 8 a spread's direction, or one more than a
/// placed tile's kind; the square in bits 9 to 14. No move is packed as 0.
#[derive(Clone, Copy, Debug, PartialEq, Eq, Structural)]
pub struct Move {
    pub raw: u16,
}

impl Move {
    pub const TOTAL_BITS: u32 = 15;

    pub open spec fn pattern_bits(self) -> int {
        self.raw as int % 128
    }

    pub open spec fn middle_bits(self) -> int {
        (self.raw as int / 128) % 4
    }

    pub open spec fn square_bits(self) -> int {
        self.raw as int / 512
    }

    /// The fields are in range: a square of the board; for a spread a
    /// pattern below 64; for a placement a tile kind.
    pub open spec fn wf(self) -> bool {
        &&& self.square_bits() < 36
        &&& self.pattern_bits() < 64
        &&& self.pattern_bits() == 0 ==> self.middle_bits() >= 1
    }

    pub open spec fn spec_is_spread(self) -> bool {
        self.pattern_bits() != 0
    }

    pub open spec fn spec_sq(self) -> Square {
        Square { raw: self.square_bits() as u8 }
    }

    pub open spec fn spec_pt(self) -> PieceType {
        PieceType::of_index(self.middle_bits() - 1)
    }

    pub open spec fn spec_dir(self) -> Direction {
        Direction::of_index(self.middle_bits())
    }

    pub open spec fn spec_pattern(self) -> u16 {
        self.pattern_bits() as u16
    }

    /// The packed form of the placement of a tile of kind `pt` on `sq`.
    pub open spec fn placement_raw(pt: PieceType, sq: Square) -> int {
        sq.index() * 512 + (pt.index() + 1) * 128
    }

    /// The packed form of the spread from `sq` in direction `dir` with drop pattern `pattern`.
    pub open spec fn spread_raw(sq: Square, dir: Direction, pattern: int) -> int {
        sq.index() * 512 + dir.index() * 128 + pattern
    }

    pub fn placement(pt: PieceType, sq: Square) -> (r: Move)
        requires
            sq.wf(),
        ensures
            r.raw == Move::placement_raw(pt, sq),
            r.wf(),
            !r.is_spread(),
            r.sq() == sq,
            r.pt() == pt,
    {
        let r = Move { raw: (sq.raw as u16) * 512 + (pt.idx() as u16 + 1) * 128 };
        r
    }

    pub fn spread(sq: Square, dir: Direction, pattern: u16) -> (r: Move)
        requires
            sq.wf(),
            0 < pattern < 64,
        ensures
            r.raw == Move::spread_raw(sq, dir, pattern as int),
            r.wf(),
            r.is_spread(),
            r.sq() == sq,
            r.dir() == dir,
            r.pattern() == pattern,
    {
        let r = Move { raw: (sq.raw as u16) * 512 + (dir.idx() as u16) * 128 + pattern };
        r
    }

    /// The move with the packed form `raw`, if there is one.
    pub fn from_raw(raw: u16) -> (r: Option<Move>)
        ensures
            (Move { raw }).wf() ==> r == Some(Move { raw }),
            !(Move { raw }).wf() ==> r.is_none(),
    {
        let pattern = raw % 128;
        let middle = (raw / 128) % 4;
        let sq = raw / 512;
        if sq < 36 && pattern < 64 && (pattern != 0 || middle >= 1) {
            Some(Move { raw })
        } else {
            None
        }
    }

    pub fn raw(self) -> (r: u16)
        ensures
            r == self.raw,
    {
        self.raw
    }

    #[verifier::when_used_as_spec(spec_is_spread)]
    pub fn is_spread(self) -> (r: bool)
        ensures
            r == self.spec_is_spread(),
    {
        self.raw % 128 != 0
    }

    /// The square of a placement, or the square that a spread starts from.
    #[verifier::when_used_as_spec(spec_sq)]
    pub fn sq(self) -> (r: Square)
        requires
            self.wf(),
        ensures
            r == self.spec_sq(),
            r.wf(),
    {
        Square { raw: (self.raw / 512) as u8 }
    }

    /// The kind of tile that a placement places.
    #[verifier::when_used_as_spec(spec_pt)]
    pub fn pt(self) -> (r: PieceType)
        requires
            self.wf(),
            !self.is_spread(),
        ensures
            r == self.spec_pt(),
    {
        let m = (self.raw / 128) % 4;
        if m == 1 {
            PieceType::Flat
        } else if m == 2 {
            PieceType::Wall
        } else {
            PieceType::Capstone
        }
    }

    /// The direction of a spread.
    #[verifier::when_used_as_spec(spec_dir)]
    pub fn dir(self) -> (r: Direction)
        requires
            self.wf(),
            self.is_spread(),
        ensures
            r == self.spec_dir(),
    {
        let m = (self.raw / 128) % 4;
        if m == 0 {
            Direction::Up
        } else if m == 1 {
            Direction::Down
        } else if m == 2 {
            Direction::Left
        } else {
            Direction::Right
        }
    }

    /// The drop pattern of a spread; 0 for a placement.
    #[verifier::when_used_as_spec(spec_pattern)]
    pub fn pattern(self) -> (r: u16)
        ensures
            r == self.spec_pattern(),
            r < 128,
    {
        self.raw % 128
    }

    /// The number of tiles that a spread picks up.
    pub fn carry(self) -> (r: u8)
        requires
            self.wf(),
            self.is_spread(),
        ensures
            r == pattern_carry(self.pattern_bits()),
            1 <= r <= 6,
    {
        let p = self.raw % 128;
        if p % 2 != 0 {
            6
        } else if p % 4 != 0 {
            5
        } else if p % 8 != 0 {
            4
        } else if p % 16 != 0 {
            3
        } else if p % 32 != 0 {
            2
        } else {
            1
        }
    }

    /// The numbers of tiles that a spread drops on the squares that it
    /// passes, nearest square first.
    pub fn drops(self) -> (r: Vec<u8>)
        requires
            self.wf(),
            self.is_spread(),
        ensures
            r@.len() == pattern_drops(self.pattern_bits()).len(),
            forall|j: int| 0 <= j < r@.len() ==> r@[j] as int == pattern_drops(self.pattern_bits())[j],
            1 <= r@.len() <= 6,
    {
        let p = self.raw % 128;
        let mut r: Vec<u8> = Vec::new();
        let mut w: u16 = 0;
        let mut half: u16 = 1;
        while w < 6
            invariant
                w <= 6,
                p == self.pattern_bits(),
                0 <= p < 64,
                w == 0 ==> half == 1,
                w == 1 ==> half == 2,
                w == 2 ==> half == 4,
                w == 3 ==> half == 8,
                w == 4 ==> half == 16,
                w == 5 ==> half == 32,
                r@.len() == pattern_groups(p as int, w as int).len(),
                forall|j: int|
                    0 <= j < r@.len() ==> r@[j] as int == pattern_groups(p as int, w as int)[j],
            decreases 6 - w,
        {
            proof {
                lemma_pattern_groups(p as int, w as int);
                lemma_pattern_groups(p as int, w as int + 1);
            }
            let set = p % (2 * half) >= half;
            assert(set == pattern_bit(p as int, w as int));
            if set {
                r.push(1);
            } else if r.len() > 0 {
                let last = r.len() - 1;
                let v = r[last];
                r[last] = v + 1;
            }
            w += 1;
            if w < 6 {
                half = half * 2;
            }
        }
        proof {
            lemma_pattern_groups(p as int, 6);
            assert(pattern_bit(p as int, 0) || pattern_bit(p as int, 1) || pattern_bit(p as int, 2)
                || pattern_bit(p as int, 3) || pattern_bit(p as int, 4) || pattern_bit(p as int, 5));
        }
        r
    }
}

/// The spread from `sq` in direction `dir` with the drop pattern `q`.
pub open spec fn spread_of(sq: Square, dir: Direction, q: int) -> Move {
    Move { raw: Move::spread_raw(sq, dir, q) as u16 }
}

/// The placement of a tile of kind `pt` on `sq`.
pub open spec fn placement_of(pt: PieceType, sq: Square) -> Move {
    Move { raw: Move::placement_raw(pt, sq) as u16 }
}

/// A move is known by its fields: no two moves have the same.
pub proof fn lemma_move_fields(mv: Move)
    requires
        mv.wf(),
    ensures
        mv.sq().wf(),
        mv.is_spread() ==> mv == spread_of(mv.sq(), mv.dir(), mv.pattern_bits()),
        !mv.is_spread() ==> mv == placement_of(mv.pt(), mv.sq()),
        0 <= mv.pattern_bits() < 64,
{
}

pub proof fn lemma_spread_of_fields(sq: Square, dir: Direction, q: int)
    requires
        sq.wf(),
        0 < q < 64,
    ensures
        spread_of(sq, dir, q).wf(),
        spread_of(sq, dir, q).is_spread(),
        spread_of(sq, dir, q).sq() == sq,
        spread_of(sq, dir, q).dir() == dir,
        spread_of(sq, dir, q).pattern_bits() == q,
{
}

/// With room for `max` tiles, from 1 to 6, the patterns that carry no
/// more are the multiples of 64 halved `max` times.
pub proof fn lemma_carry_multiple(p: int, max: int)
    requires
        0 < p < 64,
        1 <= max <= 6,
    ensures
        max == 1 ==> (pattern_carry(p) <= max <==> p % 32 == 0),
        max == 2 ==> (pattern_carry(p) <= max <==> p % 16 == 0),
        max == 3 ==> (pattern_carry(p) <= max <==> p % 8 == 0),
        max == 4 ==> (pattern_carry(p) <= max <==> p % 4 == 0),
        max == 5 ==> (pattern_carry(p) <= max <==> p % 2 == 0),
        max == 6 ==> pattern_carry(p) <= max,
        1 <= pattern_carry(p) <= 6,
{
}

} // verus!
