use vstd::prelude::*;
use vstd::std_specs::bits::{axiom_u64_trailing_zeros, u64_trailing_zeros};
use crate::bits::{bit, ones_in, lemma_bit_and_or_xor, lemma_bit_shifts, lemma_bit_single, lemma_clear_lowest, lemma_count_ones_bound, lemma_count_ones_le_64, lemma_zero_has_no_bit};
use crate::types::{can_step, Direction, Square};

verus! {

/// The 36 low bits of a word: one bit for each square.
pub const BOARD_MASK: u64 = 0xf_ffff_ffff;

pub const UPPER_EDGE_BITS: u64 = 0xfc0000000;

pub const LOWER_EDGE_BITS: u64 = 0x3f;

pub const LEFT_EDGE_BITS: u64 = 0x41041041;

pub const RIGHT_EDGE_BITS: u64 = 0x820820820;

/// A set of squares, one bit for each: bit `i` stands for square `i`.
#[derive(Clone, Copy, Debug, PartialEq, Eq, Structural)]
pub struct Bitboard {
    pub raw: u64,
}

proof fn lemma_mask_ops(a: u64, b: u64, s: u64)
    by (bit_vector)
    requires
        s < 64,
    ensures
        a & 0xf_ffff_ffff <= 0xf_ffff_ffff,
        (a <= 0xf_ffff_ffff && b <= 0xf_ffff_ffff) ==> (a | b) <= 0xf_ffff_ffff && (a ^ b)
            <= 0xf_ffff_ffff,
        a <= 0xf_ffff_ffff ==> (a & b) <= 0xf_ffff_ffff && (b & a) <= 0xf_ffff_ffff && (a >> s)
            <= 0xf_ffff_ffff,
        a <= 0xf_ffff_ffff ==> a & 0xf_ffff_ffff == a,
        (a <= 0xf_ffff_ffff && (a >> s) & 1 == 1) ==> s < 36,
        s < 36 ==> (1u64 << s) <= 0xf_ffff_ffff,
        s < 36 ==> (((a & 0xf_ffff_ffff) >> s) & 1 == 1 <==> (a >> s) & 1 == 1),
        a == 0 ==> (a >> s) & 1 == 0,
{
}

proof fn lemma_edges(j: u64)
    by (bit_vector)
    requires
        j < 36,
    ensures
        (0xfc0000000u64 >> j) & 1 == 1 <==> j >= 30,
        (0x3fu64 >> j) & 1 == 1 <==> j < 6,
        (0x41041041u64 >> j) & 1 == 1 <==> j % 6 == 0,
        (0x820820820u64 >> j) & 1 == 1 <==> j % 6 == 5,
{
}

proof fn lemma_shift_bits(a: u64, j: u64)
    by (bit_vector)
    requires
        j < 36,
    ensures
        ((((a << 6) & 0xf_ffff_ffff) >> j) & 1 == 1) <==> (j >= 6 && (a >> ((j - 6) as u64)) & 1
            == 1),
        j < 30 ==> ((((a >> 6) >> j) & 1 == 1) <==> (a >> ((j + 6) as u64)) & 1 == 1),
        (a <= 0xf_ffff_ffff && j >= 30) ==> ((a >> 6) >> j) & 1 == 0,
        ((((a & (!0x41041041u64 & 0xf_ffff_ffff)) >> 1) >> j) & 1 == 1) <==> (j % 6 != 5 && (a >> (
        (j + 1) as u64)) & 1 == 1),
        (((((a & (!0x820820820u64 & 0xf_ffff_ffff)) << 1) & 0xf_ffff_ffff) >> j) & 1 == 1) <==> (j
            % 6 != 0 && (a >> ((j - 1) as u64)) & 1 == 1),
{
}

proof fn lemma_complement(raw: u64)
    ensures
        !raw & BOARD_MASK <= BOARD_MASK,
        forall|i: int| 0 <= i < 36 ==> (bit(!raw & BOARD_MASK, i) <==> !bit(raw, i)),
{
    lemma_mask_ops(!raw, 0, 0);
    assert forall|i: int| 0 <= i < 36 implies (bit(!raw & BOARD_MASK, i) <==> !bit(raw, i)) by {
        lemma_mask_ops(!raw, 0, i as u64);
        lemma_bit_and_or_xor(raw, 0, i as u64);
    }
}

proof fn lemma_shift_contains(b: Bitboard, dir: Direction, r: Bitboard)
    requires
        b.wf(),
        r.raw == match dir {
            Direction::Up => (b.raw << 6) & BOARD_MASK,
            Direction::Down => b.raw >> 6,
            Direction::Left => (b.raw & (!LEFT_EDGE_BITS & BOARD_MASK)) >> 1,
            Direction::Right => ((b.raw & (!RIGHT_EDGE_BITS & BOARD_MASK)) << 1) & BOARD_MASK,
        },
    ensures
        forall|i: int| r.contains(i) <==> b.shifted_contains(dir, i),
{
    assert forall|i: int| r.contains(i) <==> b.shifted_contains(dir, i) by {
        if 0 <= i < 36 {
            lemma_shift_bits(b.raw, i as u64);
        }
    }
}

impl Bitboard {
    /// No bit outside the board is set.
    pub open spec fn wf(self) -> bool {
        self.raw <= BOARD_MASK
    }

    /// Whether square `i` is in the set.
    pub open spec fn contains(self, i: int) -> bool {
        0 <= i < 36 && bit(self.raw, i)
    }

    /// The set of the squares' numbers.
    pub open spec fn view(self) -> Set<int> {
        Set::new(|i: int| self.contains(i))
    }

    pub fn empty() -> (r: Bitboard)
        ensures
            r.raw == 0,
            r.wf(),
            forall|i: int| !r.contains(i),
    {
        proof {
            assert forall|i: int| 0 <= i < 64 implies !bit(0u64, i) by {
                lemma_zero_has_no_bit(i as u64);
            }
        }
        Bitboard { raw: 0 }
    }

    /// The set given by the 36 low bits of `raw`.
    pub fn from_raw(raw: u64) -> (r: Bitboard)
        ensures
            r.raw == raw & BOARD_MASK,
            r.wf(),
            forall|i: int| r.contains(i) <==> (0 <= i < 36 && bit(raw, i)),
    {
        proof {
            lemma_mask_ops(raw, 0, 0);
            assert forall|i: int| 0 <= i < 36 implies (bit(raw & BOARD_MASK, i) <==> bit(raw, i)) by {
                lemma_mask_ops(raw, 0, i as u64);
            }
        }
        Bitboard { raw: raw & BOARD_MASK }
    }

    /// The set that holds `sq` alone.
    pub fn from_square(sq: Square) -> (r: Bitboard)
        requires
            sq.wf(),
        ensures
            r.raw == 1u64 << (sq.raw as u64),
            r.wf(),
            forall|i: int| r.contains(i) <==> i == sq.index(),
    {
        proof {
            lemma_mask_ops(0, 0, sq.raw as u64);
            let m = 1u64 << (sq.raw as u64);
            assert forall|i: int| 0 <= i < 64 implies (#[trigger] bit(m, i) <==> i == sq.index()) by {
                lemma_bit_single(0, sq.raw as u64, i as u64);
            }
        }
        Bitboard { raw: 1u64 << (sq.raw as u64) }
    }

    /// The squares from which a step in direction `dir` leaves the board.
    pub fn edge(dir: Direction) -> (r: Bitboard)
        ensures
            r.wf(),
            forall|i: int| r.contains(i) <==> (0 <= i < 36 && !can_step(i, dir)),
            r.raw == match dir {
                Direction::Up => UPPER_EDGE_BITS,
                Direction::Down => LOWER_EDGE_BITS,
                Direction::Left => LEFT_EDGE_BITS,
                Direction::Right => RIGHT_EDGE_BITS,
            },
    {
        let r = match dir {
            Direction::Up => Bitboard { raw: UPPER_EDGE_BITS },
            Direction::Down => Bitboard { raw: LOWER_EDGE_BITS },
            Direction::Left => Bitboard { raw: LEFT_EDGE_BITS },
            Direction::Right => Bitboard { raw: RIGHT_EDGE_BITS },
        };
        proof {
            assert forall|i: int| r.contains(i) <==> (0 <= i < 36 && !can_step(i, dir)) by {
                if 0 <= i < 36 {
                    lemma_edges(i as u64);
                }
            }
        }
        r
    }

    pub fn raw(self) -> (r: u64)
        ensures
            r == self.raw,
    {
        self.raw
    }

    pub fn is_empty(self) -> (r: bool)
        ensures
            r == (self.raw == 0),
            r ==> forall|i: int| !self.contains(i),
            (!r && self.wf()) ==> exists|i: int| self.contains(i),
    {
        proof {
            if self.raw == 0 {
                assert forall|i: int| 0 <= i < 64 implies !bit(self.raw, i) by {
                    lemma_zero_has_no_bit(i as u64);
                }
            } else if self.wf() {
                axiom_u64_trailing_zeros(self.raw);
                let t = u64_trailing_zeros(self.raw) as u64;
                lemma_mask_ops(self.raw, 0, t);
                assert(self.contains(t as int));
            }
        }
        self.raw == 0
    }

    pub fn has_sq(self, sq: Square) -> (r: bool)
        requires
            sq.wf(),
        ensures
            r == self.contains(sq.index()),
    {
        proof {
            lemma_bit_single(self.raw, sq.raw as u64, 0);
        }
        (self.raw & (1u64 << (sq.raw as u64))) != 0
    }

    pub fn with_sq(self, sq: Square) -> (r: Bitboard)
        requires
            sq.wf(),
        ensures
            r.raw == self.raw | (1u64 << (sq.raw as u64)),
            self.wf() ==> r.wf(),
            forall|i: int| r.contains(i) <==> (i == sq.index() || self.contains(i)),
    {
        proof {
            lemma_mask_ops(0, 0, sq.raw as u64);
            lemma_mask_ops(self.raw, 1u64 << (sq.raw as u64), 0);
            let r = Bitboard { raw: self.raw | (1u64 << (sq.raw as u64)) };
            assert forall|i: int| r.contains(i) <==> (i == sq.index() || self.contains(i)) by {
                if 0 <= i < 36 {
                    lemma_bit_single(self.raw, sq.raw as u64, i as u64);
                }
            }
        }
        Bitboard { raw: self.raw | (1u64 << (sq.raw as u64)) }
    }

    pub fn without_sq(self, sq: Square) -> (r: Bitboard)
        requires
            sq.wf(),
        ensures
            r.raw == self.raw & !(1u64 << (sq.raw as u64)),
            self.wf() ==> r.wf(),
            forall|i: int| r.contains(i) <==> (i != sq.index() && self.contains(i)),
    {
        proof {
            lemma_mask_ops(self.raw, !(1u64 << (sq.raw as u64)), 0);
            let r = Bitboard { raw: self.raw & !(1u64 << (sq.raw as u64)) };
            assert forall|i: int| r.contains(i) <==> (i != sq.index() && self.contains(i)) by {
                if 0 <= i < 36 {
                    lemma_bit_single(self.raw, sq.raw as u64, i as u64);
                }
            }
        }
        Bitboard { raw: self.raw & !(1u64 << (sq.raw as u64)) }
    }

    pub fn with_sq_toggled(self, sq: Square) -> (r: Bitboard)
        requires
            sq.wf(),
        ensures
            r.raw == self.raw ^ (1u64 << (sq.raw as u64)),
            self.wf() ==> r.wf(),
            forall|i: int| r.contains(i) <==> (0 <= i < 36 && ((i == sq.index()) != self.contains(i))),
    {
        proof {
            lemma_mask_ops(0, 0, sq.raw as u64);
            lemma_mask_ops(self.raw, 1u64 << (sq.raw as u64), 0);
            assert forall|i: int| 0 <= i < 36 implies (bit(self.raw ^ (1u64 << (sq.raw as u64)), i) <==> ((i
                == sq.index()) != bit(self.raw, i))) by {
                lemma_bit_single(self.raw, sq.raw as u64, i as u64);
            }
        }
        Bitboard { raw: self.raw ^ (1u64 << (sq.raw as u64)) }
    }

    pub fn set_sq(&mut self, sq: Square)
        requires
            sq.wf(),
        ensures
            final(self).raw == old(self).raw | (1u64 << (sq.raw as u64)),
            old(self).wf() ==> final(self).wf(),
            forall|i: int| final(self).contains(i) <==> (i == sq.index() || old(self).contains(i)),
    {
        *self = self.with_sq(sq);
    }

    pub fn clear_sq(&mut self, sq: Square)
        requires
            sq.wf(),
        ensures
            final(self).raw == old(self).raw & !(1u64 << (sq.raw as u64)),
            old(self).wf() ==> final(self).wf(),
            forall|i: int| final(self).contains(i) <==> (i != sq.index() && old(self).contains(i)),
    {
        *self = self.without_sq(sq);
    }

    pub fn toggle_sq(&mut self, sq: Square)
        requires
            sq.wf(),
        ensures
            final(self).raw == old(self).raw ^ (1u64 << (sq.raw as u64)),
            old(self).wf() ==> final(self).wf(),
            forall|i: int| final(self).contains(i) <==> (0 <= i < 36 && ((i == sq.index()) != old(
                self,
            ).contains(i))),
    {
        *self = self.with_sq_toggled(sq);
    }

    /// The squares of the board that are not in the set.
    pub fn cmpl(self) -> (r: Bitboard)
        ensures
            r.raw == !self.raw & BOARD_MASK,
            r.wf(),
            forall|i: int| r.contains(i) <==> (0 <= i < 36 && !self.contains(i)),
    {
        proof {
            lemma_complement(self.raw);
        }
        Bitboard { raw: !self.raw & BOARD_MASK }
    }

    pub fn and(self, other: Bitboard) -> (r: Bitboard)
        ensures
            r.raw == self.raw & other.raw,
            (self.wf() || other.wf()) ==> r.wf(),
            forall|i: int| r.contains(i) <==> (self.contains(i) && other.contains(i)),
    {
        proof {
            lemma_mask_ops(self.raw, other.raw, 0);
            lemma_mask_ops(other.raw, self.raw, 0);
            assert forall|i: int| 0 <= i < 36 implies (bit(self.raw & other.raw, i) <==> (bit(
                self.raw,
                i,
            ) && bit(other.raw, i))) by {
                lemma_bit_and_or_xor(self.raw, other.raw, i as u64);
            }
        }
        Bitboard { raw: self.raw & other.raw }
    }

    pub fn or(self, other: Bitboard) -> (r: Bitboard)
        ensures
            r.raw == self.raw | other.raw,
            (self.wf() && other.wf()) ==> r.wf(),
            forall|i: int| r.contains(i) <==> (self.contains(i) || other.contains(i)),
    {
        proof {
            lemma_mask_ops(self.raw, other.raw, 0);
            assert forall|i: int| 0 <= i < 36 implies (bit(self.raw | other.raw, i) <==> (bit(
                self.raw,
                i,
            ) || bit(other.raw, i))) by {
                lemma_bit_and_or_xor(self.raw, other.raw, i as u64);
            }
        }
        Bitboard { raw: self.raw | other.raw }
    }

    pub fn xor(self, other: Bitboard) -> (r: Bitboard)
        ensures
            r.raw == self.raw ^ other.raw,
            (self.wf() && other.wf()) ==> r.wf(),
            forall|i: int| r.contains(i) <==> (0 <= i < 36 && (self.contains(i) != other.contains(i))),
    {
        proof {
            lemma_mask_ops(self.raw, other.raw, 0);
            assert forall|i: int| 0 <= i < 36 implies (bit(self.raw ^ other.raw, i) <==> (bit(
                self.raw,
                i,
            ) != bit(other.raw, i))) by {
                lemma_bit_and_or_xor(self.raw, other.raw, i as u64);
            }
        }
        Bitboard { raw: self.raw ^ other.raw }
    }

    /// The set moved `count` squares down in number; what falls below
    /// square 0 is lost.
    pub fn shr(self, count: u32) -> (r: Bitboard)
        requires
            count < 64,
        ensures
            r.raw == self.raw >> count,
            self.wf() ==> r.wf(),
            forall|i: int| r.contains(i) <==> (0 <= i < 36 && bit(self.raw, i + count)),
    {
        proof {
            lemma_mask_ops(self.raw, 0, count as u64);
            assert forall|i: int| 0 <= i < 36 implies (bit(self.raw >> count, i) <==> bit(
                self.raw,
                i + count,
            )) by {
                lemma_bit_shifts(self.raw, count as u64, i as u64);
            }
        }
        Bitboard { raw: self.raw >> count }
    }

    /// The set moved `count` squares up in number; what rises above
    /// square 35 is lost.
    pub fn shl(self, count: u32) -> (r: Bitboard)
        requires
            count < 64,
        ensures
            r.raw == (self.raw << count) & BOARD_MASK,
            r.wf(),
            forall|i: int| r.contains(i) <==> (0 <= i < 36 && bit(self.raw, i - count)),
    {
        proof {
            lemma_mask_ops(self.raw << count, 0, 0);
            assert forall|i: int| 0 <= i < 36 implies (bit((self.raw << count) & BOARD_MASK, i)
                <==> bit(self.raw, i - count)) by {
                lemma_mask_ops(self.raw << count, 0, i as u64);
                lemma_bit_shifts(self.raw, count as u64, i as u64);
            }
        }
        Bitboard { raw: (self.raw << count) & BOARD_MASK }
    }

    /// Whether `i` is the lowest square of the set.
    pub open spec fn is_lowest(self, i: int) -> bool {
        self.contains(i) && forall|j: int| 0 <= j < i ==> !self.contains(j)
    }

    /// The lowest square of the set, if it has any.
    pub fn lsb(self) -> (r: Option<Square>)
        requires
            self.wf(),
        ensures
            self.raw == 0 <==> r.is_none(),
            r.is_some() ==> r.unwrap().wf() && self.is_lowest(r.unwrap().index()),
            r.is_some() ==> self.raw & ((self.raw - 1) as u64) == self.raw & !(1u64
                << (r.unwrap().raw as u64)),
            r.is_some() ==> self.raw & ((self.raw - 1) as u64) < self.raw,
    {
        if self.raw == 0 {
            None
        } else {
            let t = self.raw.trailing_zeros();
            proof {
                axiom_u64_trailing_zeros(self.raw);
                lemma_mask_ops(self.raw, 0, t as u64);
                assert forall|j: int| 0 <= j < t implies !self.contains(j) by {
                    assert((self.raw >> (j as u64)) & 1 == 0);
                }
                lemma_clear_lowest(self.raw, t as u64);
                assert((t as u8) as u64 == t as u64);
            }
            Some(Square { raw: t as u8 })
        }
    }

    /// Takes the lowest square out of the set and returns it.
    pub fn pop_lsb(&mut self) -> (r: Option<Square>)
        requires
            old(self).wf(),
        ensures
            final(self).wf(),
            old(self).raw == 0 <==> r.is_none(),
            r.is_none() ==> *final(self) == *old(self),
            r.is_none() ==> forall|i: int| !old(self).contains(i),
            r.is_some() ==> r.unwrap().wf() && old(self).is_lowest(r.unwrap().index()),
            r.is_some() ==> forall|i: int|
                final(self).contains(i) <==> (i != r.unwrap().index() && old(self).contains(i)),
            r.is_some() ==> final(self).raw < old(self).raw,
    {
        match self.lsb() {
            None => {
                proof {
                    assert forall|i: int| 0 <= i < 64 implies !bit(self.raw, i) by {
                        lemma_zero_has_no_bit(i as u64);
                    }
                }
                None
            },
            Some(sq) => {
                let ghost before = *self;
                self.raw = self.raw & (self.raw - 1);
                proof {
                    assert(self.raw == before.without_sq_spec(sq).raw);
                    lemma_mask_ops(before.raw, !(1u64 << (sq.raw as u64)), 0);
                    assert forall|i: int| 0 <= i < 36 implies (bit(
                        before.raw & !(1u64 << (sq.raw as u64)),
                        i,
                    ) <==> (i != sq.index() && bit(before.raw, i))) by {
                        lemma_bit_single(before.raw, sq.raw as u64, i as u64);
                    }
                }
                Some(sq)
            },
        }
    }

    pub open spec fn without_sq_spec(self, sq: Square) -> Bitboard {
        Bitboard { raw: self.raw & !(1u64 << (sq.raw as u64)) }
    }

    /// The number of squares in the set.
    pub fn popcount(self) -> (r: u32)
        ensures
            r == ones_in(self.raw),
            r <= 64,
            self.wf() ==> r <= 36,
    {
        proof {
            lemma_count_ones_le_64(self.raw);
            if self.wf() {
                vstd::arithmetic::power2::lemma2_to64();
                vstd::arithmetic::power2::lemma2_to64_rest();
                lemma_count_ones_bound(self.raw, 36);
            }
        }
        self.raw.count_ones()
    }

    /// Where a set `s` arrives after one step in direction `dir`: each square
    /// that can make the step moves, the others are lost.
    pub open spec fn shifted_contains(self, dir: Direction, i: int) -> bool {
        can_step(i - dir.delta(), dir) && self.contains(i - dir.delta())
    }

    /// The set moved one step in direction `dir`.
    pub open spec fn shift_spec(self, dir: Direction) -> Bitboard {
        Bitboard {
            raw: match dir {
                Direction::Up => (self.raw << 6) & BOARD_MASK,
                Direction::Down => self.raw >> 6,
                Direction::Left => (self.raw & (!LEFT_EDGE_BITS & BOARD_MASK)) >> 1,
                Direction::Right => ((self.raw & (!RIGHT_EDGE_BITS & BOARD_MASK)) << 1) & BOARD_MASK,
            },
        }
    }

    /// Every square of the set moved one step in direction `dir`; squares at
    /// the edge on that side leave the set.
    pub fn shift(self, dir: Direction) -> (r: Bitboard)
        requires
            self.wf(),
        ensures
            r == self.shift_spec(dir),
            r.wf(),
            forall|i: int| r.contains(i) <==> self.shifted_contains(dir, i),
    {
        let r = match dir {
            Direction::Up => self.shl(6),
            Direction::Down => self.shr(6),
            Direction::Left => self.and(Bitboard::edge(Direction::Left).cmpl()).shr(1),
            Direction::Right => self.and(Bitboard::edge(Direction::Right).cmpl()).shl(1),
        };
        proof {
            lemma_shift_contains(self, dir, r);
        }
        r
    }

    pub fn iter(self) -> (r: Biterator)
        ensures
            r.board == self,
    {
        Biterator { board: self }
    }
}

/// Walks through a set of squares from the lowest to the highest.
pub struct Biterator {
    pub board: Bitboard,
}

impl Biterator {
    /// The lowest square that is left, which is then taken out.
    pub fn next(&mut self) -> (r: Option<Square>)
        requires
            old(self).board.wf(),
        ensures
            final(self).board.wf(),
            old(self).board.raw == 0 <==> r.is_none(),
            r.is_none() ==> final(self).board == old(self).board,
            r.is_some() ==> r.unwrap().wf() && old(self).board.is_lowest(r.unwrap().index()),
            r.is_some() ==> forall|i: int|
                final(self).board.contains(i) <==> (i != r.unwrap().index() && old(
                    self,
                ).board.contains(i)),
    {
        self.board.pop_lsb()
    }
}


impl core::ops::Not for Bitboard {
    type Output = Bitboard;

    fn not(self) -> (r: Bitboard) {
        self.cmpl()
    }
}

impl vstd::std_specs::ops::NotSpecImpl for Bitboard {
    open spec fn obeys_not_spec() -> bool {
        true
    }

    open spec fn not_req(self) -> bool {
        true
    }

    open spec fn not_spec(self) -> Bitboard {
        Bitboard { raw: !self.raw & BOARD_MASK }
    }
}

impl core::ops::BitAnd for Bitboard {
    type Output = Bitboard;

    fn bitand(self, rhs: Bitboard) -> (r: Bitboard) {
        self.and(rhs)
    }
}

impl vstd::std_specs::ops::BitAndSpecImpl for Bitboard {
    open spec fn obeys_bitand_spec() -> bool {
        true
    }

    open spec fn bitand_req(self, rhs: Bitboard) -> bool {
        true
    }

    open spec fn bitand_spec(self, rhs: Bitboard) -> Bitboard {
        Bitboard { raw: self.raw & rhs.raw }
    }
}

impl core::ops::BitOr for Bitboard {
    type Output = Bitboard;

    fn bitor(self, rhs: Bitboard) -> (r: Bitboard) {
        self.or(rhs)
    }
}

impl vstd::std_specs::ops::BitOrSpecImpl for Bitboard {
    open spec fn obeys_bitor_spec() -> bool {
        true
    }

    open spec fn bitor_req(self, rhs: Bitboard) -> bool {
        true
    }

    open spec fn bitor_spec(self, rhs: Bitboard) -> Bitboard {
        Bitboard { raw: self.raw | rhs.raw }
    }
}

impl core::ops::BitXor for Bitboard {
    type Output = Bitboard;

    fn bitxor(self, rhs: Bitboard) -> (r: Bitboard) {
        self.xor(rhs)
    }
}

impl vstd::std_specs::ops::BitXorSpecImpl for Bitboard {
    open spec fn obeys_bitxor_spec() -> bool {
        true
    }

    open spec fn bitxor_req(self, rhs: Bitboard) -> bool {
        true
    }

    open spec fn bitxor_spec(self, rhs: Bitboard) -> Bitboard {
        Bitboard { raw: self.raw ^ rhs.raw }
    }
}

impl core::ops::Shr<u32> for Bitboard {
    type Output = Bitboard;

    fn shr(self, rhs: u32) -> (r: Bitboard) {
        Bitboard::shr(self, rhs)
    }
}

impl vstd::std_specs::ops::ShrSpecImpl<u32> for Bitboard {
    open spec fn obeys_shr_spec() -> bool {
        true
    }

    open spec fn shr_req(self, rhs: u32) -> bool {
        rhs < 64
    }

    open spec fn shr_spec(self, rhs: u32) -> Bitboard {
        Bitboard { raw: self.raw >> rhs }
    }
}

impl core::ops::Shl<u32> for Bitboard {
    type Output = Bitboard;

    fn shl(self, rhs: u32) -> (r: Bitboard) {
        Bitboard::shl(self, rhs)
    }
}

impl vstd::std_specs::ops::ShlSpecImpl<u32> for Bitboard {
    open spec fn obeys_shl_spec() -> bool {
        true
    }

    open spec fn shl_req(self, rhs: u32) -> bool {
        rhs < 64
    }

    open spec fn shl_spec(self, rhs: u32) -> Bitboard {
        Bitboard { raw: (self.raw << rhs) & BOARD_MASK }
    }
}


impl core::ops::BitAndAssign for Bitboard {
    fn bitand_assign(&mut self, rhs: Bitboard)
        ensures
            final(self).raw == old(self).raw & rhs.raw,
    {
        *self = self.and(rhs);
    }
}

impl core::ops::BitOrAssign for Bitboard {
    fn bitor_assign(&mut self, rhs: Bitboard)
        ensures
            final(self).raw == old(self).raw | rhs.raw,
    {
        *self = self.or(rhs);
    }
}

impl core::ops::BitXorAssign for Bitboard {
    fn bitxor_assign(&mut self, rhs: Bitboard)
        ensures
            final(self).raw == old(self).raw ^ rhs.raw,
    {
        *self = self.xor(rhs);
    }
}

impl core::ops::ShrAssign<u32> for Bitboard {
    fn shr_assign(&mut self, rhs: u32)
        requires
            rhs < 64,
        ensures
            final(self).raw == old(self).raw >> rhs,
    {
        *self = Bitboard::shr(*self, rhs);
    }
}

impl core::ops::ShlAssign<u32> for Bitboard {
    fn shl_assign(&mut self, rhs: u32)
        requires
            rhs < 64,
        ensures
            final(self).raw == (old(self).raw << rhs) & BOARD_MASK,
    {
        *self = Bitboard::shl(*self, rhs);
    }
}

} // verus!
