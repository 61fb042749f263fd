use vstd::prelude::*;
use crate::takmove::{
    lemma_move_fields,
    lemma_pattern_groups,
    lemma_spread_of_fields,
    pattern_bit,
    pattern_bit_value,
    pattern_carry,
    pattern_drops,
    pattern_groups,
    placement_of,
    spread_of,
    Move,
};
use crate::types::{Direction, PieceType, Square};

verus! {

pub const CH_STAR: u8 = 42;

pub const CH_PLUS: u8 = 43;

pub const CH_MINUS: u8 = 45;

pub const CH_DIGIT_ZERO: u8 = 48;

pub const CH_LESS: u8 = 60;

pub const CH_GREATER: u8 = 62;

pub const CH_CAPSTONE: u8 = 67;

pub const CH_STANDING: u8 = 83;

pub const CH_FILE_A: u8 = 97;

/// The name of square `sq`: the letter of its file and the number of its rank.
pub open spec fn square_text(sq: int) -> Seq<u8> {
    seq![(CH_FILE_A + sq % 6) as u8, (CH_DIGIT_ZERO + 1 + sq / 6) as u8]
}

/// The sign of a direction.
pub open spec fn dir_char(dir: Direction) -> u8 {
    match dir {
        Direction::Up => CH_PLUS,
        Direction::Down => CH_MINUS,
        Direction::Left => CH_LESS,
        Direction::Right => CH_GREATER,
    }
}

/// The letter of a kind of tile; a flat has none.
pub open spec fn kind_text(pt: PieceType) -> Seq<u8> {
    match pt {
        PieceType::Flat => Seq::empty(),
        PieceType::Wall => seq![CH_STANDING],
        PieceType::Capstone => seq![CH_CAPSTONE],
    }
}

/// The digits of the numbers `drops`, each from 1 to 6.
pub open spec fn digits_text(drops: Seq<int>) -> Seq<u8> {
    Seq::new(drops.len(), |i: int| (CH_DIGIT_ZERO + drops[i]) as u8)
}

/// A move as text: a placement by the letter of its kind and its
/// square; a spread by the number of tiles carried, its square, the sign of
/// its direction and the numbers of tiles dropped.
pub open spec fn ptn_text(mv: Move) -> Seq<u8> {
    if mv.is_spread() {
        seq![(CH_DIGIT_ZERO + pattern_carry(mv.pattern_bits())) as u8] + square_text(
            mv.sq().index(),
        ) + seq![dir_char(mv.dir())] + digits_text(pattern_drops(mv.pattern_bits()))
    } else {
        kind_text(mv.pt()) + square_text(mv.sq().index())
    }
}

/// The groups of a pattern tell its bits.
proof fn lemma_groups_tell_bits(p: int, q: int, w: int)
    requires
        0 <= w <= 6,
        0 <= p < 64,
        0 <= q < 64,
        pattern_groups(p, w) == pattern_groups(q, w),
    ensures
        forall|i: int| 0 <= i < w ==> pattern_bit(p, i) == pattern_bit(q, i),
    decreases w,
{
    if w > 0 {
        lemma_pattern_groups(p, w);
        lemma_pattern_groups(q, w);
        lemma_pattern_groups(p, w - 1);
        lemma_pattern_groups(q, w - 1);
        let gp = pattern_groups(p, w - 1);
        let gq = pattern_groups(q, w - 1);
        let g = pattern_groups(p, w);
        if g.len() == 0 {
        } else if g.last() == 1 {
            assert(pattern_bit(p, w - 1) && pattern_bit(q, w - 1)) by {
                if !pattern_bit(p, w - 1) {
                    assert(gp.len() > 0);
                    assert(gp.last() >= 1);
                }
                if !pattern_bit(q, w - 1) {
                    assert(gq.len() > 0);
                    assert(gq.last() >= 1);
                }
            }
            assert(gp =~= g.drop_last());
            assert(gq =~= g.drop_last());
            lemma_groups_tell_bits(p, q, w - 1);
        } else {
            assert(!pattern_bit(p, w - 1) && !pattern_bit(q, w - 1));
            assert(gp =~= g.update(g.len() - 1, g.last() - 1));
            assert(gq =~= g.update(g.len() - 1, g.last() - 1));
            lemma_groups_tell_bits(p, q, w - 1);
        }
    }
}

/// Two patterns with the same drops are the same pattern.
pub proof fn lemma_drops_tell_pattern(p: int, q: int)
    requires
        0 <= p < 64,
        0 <= q < 64,
        pattern_drops(p) == pattern_drops(q),
    ensures
        p == q,
{
    lemma_groups_tell_bits(p, q, 6);
    assert(pattern_bit(p, 0) == pattern_bit(q, 0));
    assert(pattern_bit(p, 1) == pattern_bit(q, 1));
    assert(pattern_bit(p, 2) == pattern_bit(q, 2));
    assert(pattern_bit(p, 3) == pattern_bit(q, 3));
    assert(pattern_bit(p, 4) == pattern_bit(q, 4));
    assert(pattern_bit(p, 5) == pattern_bit(q, 5));
    lemma_bits_value(p);
    lemma_bits_value(q);
}

/// A pattern is the sum of the values of its bits.
proof fn lemma_bits_value(p: int)
    requires
        0 <= p < 64,
    ensures
        p == pattern_bit_value(p, 0) + 2 * pattern_bit_value(p, 1) + 4 * pattern_bit_value(p, 2)
            + 8 * pattern_bit_value(p, 3) + 16 * pattern_bit_value(p, 4) + 32 * pattern_bit_value(
            p,
            5,
        ),
{
    assert(p % 2 == pattern_bit_value(p, 0));
    assert(p % 4 == p % 2 + 2 * pattern_bit_value(p, 1));
    assert(p % 8 == p % 4 + 4 * pattern_bit_value(p, 2));
    assert(p % 16 == p % 8 + 8 * pattern_bit_value(p, 3));
    assert(p % 32 == p % 16 + 16 * pattern_bit_value(p, 4));
    assert(p % 64 == p % 32 + 32 * pattern_bit_value(p, 5));
}

/// Two moves with the same text are the same move.
pub proof fn lemma_text_tells_move(a: Move, b: Move)
    requires
        a.wf(),
        b.wf(),
        ptn_text(a) == ptn_text(b),
    ensures
        a == b,
{
    lemma_move_fields(a);
    lemma_move_fields(b);
    let ta = ptn_text(a);
    let tb = ptn_text(b);
    lemma_pattern_groups(a.pattern_bits(), 6);
    lemma_pattern_groups(b.pattern_bits(), 6);
    assert(ta[0] == tb[0]);
    assert(ta.len() == tb.len());
    if a.is_spread() {
        assert(b.is_spread()) by {
            if !b.is_spread() {
                assert(tb[0] >= CH_CAPSTONE);
            }
        }
        assert(ta[1] == tb[1] && ta[2] == tb[2] && ta[3] == tb[3]);
        let da = pattern_drops(a.pattern_bits());
        let db = pattern_drops(b.pattern_bits());
        assert(da.len() == db.len());
        assert forall|i: int| 0 <= i < da.len() implies da[i] == db[i] by {
            assert(ta[4 + i] == digits_text(da)[i]);
            assert(tb[4 + i] == digits_text(db)[i]);
        }
        assert(da =~= db);
        lemma_drops_tell_pattern(a.pattern_bits(), b.pattern_bits());
    } else {
        assert(!b.is_spread()) by {
            if b.is_spread() {
                assert(ta[0] >= CH_CAPSTONE);
            }
        }
        if ta.len() == 2 {
            assert(ta[1] == tb[1]);
        } else {
            assert(ta[1] == tb[1] && ta[2] == tb[2]);
        }
    }
}

/// Whether the bytes `a` are the first `n` of the bytes `b`.
fn same_bytes(a: &Vec<u8>, b: &[u8], n: usize) -> (r: bool)
    requires
        n <= b@.len(),
    ensures
        r == (a@ == b@.subrange(0, n as int)),
{
    if a.len() != n {
        return false;
    }
    let mut i: usize = 0;
    while i < n
        invariant
            i <= n,
            n == a@.len(),
            n <= b@.len(),
            forall|k: int| 0 <= k < i ==> a@[k] == b@[k],
        decreases n - i,
    {
        if a[i] != b[i] {
            return false;
        }
        i += 1;
    }
    assert(a@ =~= b@.subrange(0, n as int));
    true
}

/// Writes the name of `sq` at the end of `out`.
fn push_square(out: &mut Vec<u8>, sq: Square)
    requires
        sq.wf(),
    ensures
        final(out)@ == old(out)@ + square_text(sq.index()),
{
    out.push(CH_FILE_A + sq.file());
    out.push(CH_DIGIT_ZERO + 1 + sq.rank());
    assert(out@ =~= old(out)@ + square_text(sq.index()));
}

/// The square named by the letter `file` and the digit `rank`, if they name one.
fn read_square(file: u8, rank: u8) -> (r: Option<Square>)
    ensures
        match r {
            Some(sq) => sq.wf() && square_text(sq.index()) == seq![file, rank],
            None => forall|i: int| 0 <= i < 36 ==> square_text(i) != seq![file, rank],
        },
{
    if CH_FILE_A <= file && file < CH_FILE_A + 6 && CH_DIGIT_ZERO < rank && rank <= CH_DIGIT_ZERO
        + 6 {
        let sq = Square::from_file_rank(file - CH_FILE_A, rank - CH_DIGIT_ZERO - 1);
        assert(square_text(sq.index()) =~= seq![file, rank]);
        Some(sq)
    } else {
        assert forall|i: int| 0 <= i < 36 implies square_text(i) != seq![file, rank] by {
            assert(square_text(i)[0] != seq![file, rank][0] || square_text(i)[1] != seq![
                file,
                rank,
            ][1]);
        }
        None
    }
}

impl Move {
    /// The move as text.
    pub fn to_ptn(self) -> (r: Vec<u8>)
        requires
            self.wf(),
        ensures
            r@ == ptn_text(self),
    {
        let mut out: Vec<u8> = Vec::new();
        let sq = self.sq();
        if self.is_spread() {
            out.push(CH_DIGIT_ZERO + self.carry());
            push_square(&mut out, sq);
            out.push(
                match self.dir() {
                    Direction::Up => CH_PLUS,
                    Direction::Down => CH_MINUS,
                    Direction::Left => CH_LESS,
                    Direction::Right => CH_GREATER,
                },
            );
            let drops = self.drops();
            let ghost head = out@;
            let ghost want = pattern_drops(self.pattern_bits());
            proof {
                lemma_pattern_groups(self.pattern_bits(), 6);
            }
            let mut i: usize = 0;
            while i < drops.len()
                invariant
                    i <= drops@.len(),
                    drops@.len() == want.len(),
                    forall|k: int| 0 <= k < want.len() ==> drops@[k] as int == want[k],
                    forall|k: int| 0 <= k < want.len() ==> 1 <= #[trigger] want[k] <= 6,
                    out@ == head + digits_text(want).subrange(0, i as int),
                decreases drops.len() - i,
            {
                assert(1 <= want[i as int] <= 6);
                out.push(CH_DIGIT_ZERO + drops[i]);
                proof {
                    assert(out@ =~= head + digits_text(want).subrange(0, i as int + 1));
                }
                i += 1;
            }
            proof {
                assert(digits_text(want).subrange(0, i as int) =~= digits_text(want));
                assert(out@ =~= ptn_text(self));
            }
        } else {
            match self.pt() {
                PieceType::Flat => {},
                PieceType::Wall => {
                    out.push(CH_STANDING);
                },
                PieceType::Capstone => {
                    out.push(CH_CAPSTONE);
                },
            }
            let ghost head = out@;
            push_square(&mut out, sq);
            proof {
                assert(head =~= kind_text(self.pt()));
            }
        }
        out
    }

    /// The move that the text `text` names, if it names one. A spread may
    /// be followed by a star.
    pub fn from_ptn(text: &[u8]) -> (r: Option<Move>)
        ensures
            match r {
                Some(mv) => mv.wf() && (text@ == ptn_text(mv) || (mv.is_spread() && text@
                    == ptn_text(mv).push(CH_STAR))),
                None => forall|mv: Move|
                    mv.wf() ==> text@ != #[trigger] ptn_text(mv) && !(mv.is_spread() && text@
                        == ptn_text(mv).push(CH_STAR)),
            },
    {
        let n = text.len();
        if n < 2 {
            proof {
                assert forall|mv: Move| mv.wf() implies text@ != #[trigger] ptn_text(mv) && !(
                mv.is_spread() && text@ == ptn_text(mv).push(CH_STAR)) by {
                    lemma_pattern_groups(mv.pattern_bits(), 6);
                }
            }
            return None;
        }
        let first = text[0];
        if CH_DIGIT_ZERO <= first && first <= CH_DIGIT_ZERO + 9 {
            let starred = text[n - 1] == CH_STAR;
            let m: usize = if starred {
                n - 1
            } else {
                n
            };
            let ghost body = text@.subrange(0, m as int);
            proof {
                if starred {
                    assert(text@ =~= body.push(CH_STAR));
                } else {
                    assert(text@ =~= body);
                }
            }
            let found = Move::spread_from_ptn(text, m);
            proof {
                match found {
                    Some(mv) => {},
                    None => {
                        assert forall|mv: Move| mv.wf() implies text@ != #[trigger] ptn_text(mv)
                            && !(mv.is_spread() && text@ == ptn_text(mv).push(CH_STAR)) by {
                            lemma_pattern_groups(mv.pattern_bits(), 6);
                            if mv.is_spread() {
                                assert(ptn_text(mv) != body);
                                if text@ == ptn_text(mv) {
                                    assert(ptn_text(mv).last() != CH_STAR);
                                }
                                if text@ == ptn_text(mv).push(CH_STAR) {
                                    assert(ptn_text(mv).push(CH_STAR).drop_last() =~= ptn_text(mv));
                                    assert(body =~= text@.drop_last());
                                }
                            } else {
                                assert(ptn_text(mv)[0] >= CH_CAPSTONE);
                            }
                        }
                    },
                }
            }
            found
        } else {
            let pt = if first == CH_STANDING {
                PieceType::Wall
            } else if first == CH_CAPSTONE {
                PieceType::Capstone
            } else {
                PieceType::Flat
            };
            let at: usize = if first == CH_STANDING || first == CH_CAPSTONE {
                1
            } else {
                0
            };
            let sq = if n == at + 2 {
                read_square(text[at], text[at + 1])
            } else {
                None
            };
            match sq {
                Some(sq) => {
                    let mv = Move::placement(pt, sq);
                    proof {
                        assert(text@ =~= ptn_text(mv));
                    }
                    Some(mv)
                },
                None => {
                    proof {
                        assert forall|mv: Move| mv.wf() implies text@ != #[trigger] ptn_text(mv)
                            && !(mv.is_spread() && text@ == ptn_text(mv).push(CH_STAR)) by {
                            lemma_move_fields(mv);
                            let t = ptn_text(mv);
                            if mv.is_spread() {
                                assert(t[0] <= CH_DIGIT_ZERO + 9 && t[0] >= CH_DIGIT_ZERO);
                                assert(t.push(CH_STAR)[0] == t[0]);
                            } else if text@ == t {
                                let s = mv.sq().index();
                                assert(t[0] == first);
                                if n == at + 2 {
                                    assert(square_text(s) =~= seq![text@[at as int], text@[at + 1]]);
                                }
                            }
                        }
                    }
                    None
                },
            }
        }
    }

    /// The spread that the first `m` bytes of `text` name, if they name one.
    fn spread_from_ptn(text: &[u8], m: usize) -> (r: Option<Move>)
        requires
            m <= text@.len(),
        ensures
            match r {
                Some(mv) => mv.wf() && mv.is_spread() && text@.subrange(0, m as int) == ptn_text(mv),
                None => forall|mv: Move|
                    mv.wf() && mv.is_spread() ==> text@.subrange(0, m as int) != #[trigger] ptn_text(
                        mv,
                    ),
            },
    {
        let ghost body = text@.subrange(0, m as int);
        if m < 5 {
            proof {
                assert forall|mv: Move| mv.wf() && mv.is_spread() implies body != #[trigger] ptn_text(
                    mv,
) by {
                    lemma_move_fields(mv);
                    lemma_pattern_groups(mv.pattern_bits(), 6);
                    crate::takmove::lemma_pattern_sum(mv.pattern_bits(), 6);
                    assert(pattern_drops(mv.pattern_bits()).len() >= 1);
                    assert(digits_text(pattern_drops(mv.pattern_bits())).len() >= 1);
                    assert(ptn_text(mv).len() >= 5);
                }
            }
            return None;
        }
        let sq = match read_square(text[1], text[2]) {
            Some(sq) => sq,
            None => {
                proof {
                    assert forall|mv: Move| mv.wf() && mv.is_spread() implies body
                        != #[trigger] ptn_text(mv) by {
                        lemma_move_fields(mv);
                        let t = ptn_text(mv);
                        if body == t {
                            assert(square_text(mv.sq().index()) =~= seq![t[1], t[2]]);
                            assert(t[1] == text@[1] && t[2] == text@[2]);
                        }
                    }
                }
                return None;
            },
        };
        let sign = text[3];
        let dir = if sign == CH_PLUS {
            Direction::Up
        } else if sign == CH_MINUS {
            Direction::Down
        } else if sign == CH_LESS {
            Direction::Left
        } else if sign == CH_GREATER {
            Direction::Right
        } else {
            proof {
                assert forall|mv: Move| mv.wf() && mv.is_spread() implies body
                    != #[trigger] ptn_text(mv) by {
                    let t = ptn_text(mv);
                    if body == t {
                        assert(t[3] == text@[3]);
                    }
                }
            }
            return None;
        };
        let mut p: u16 = 1;
        while p < 64
            invariant
                1 <= p <= 64,
                sq.wf(),
                5 <= m <= text@.len(),
                body == text@.subrange(0, m as int),
                forall|q: int| 1 <= q < p ==> body != ptn_text(#[trigger] spread_of(sq, dir, q)),
            decreases 64 - p,
        {
            let mv = Move::spread(sq, dir, p);
            let written = mv.to_ptn();
            if same_bytes(&written, text, m) {
                return Some(mv);
            }
            p += 1;
        }
        proof {
            assert forall|mv: Move| mv.wf() && mv.is_spread() implies body != #[trigger] ptn_text(
                mv,
            ) by {
                lemma_move_fields(mv);
                let t = ptn_text(mv);
                if body == t {
                    assert(t[1] == text@[1] && t[2] == text@[2] && t[3] == text@[3]);
                    assert(square_text(mv.sq().index()) =~= seq![t[1], t[2]]);
                    assert(square_text(mv.sq().index()) == square_text(sq.index()));
                    assert(square_text(mv.sq().index())[0] == square_text(sq.index())[0]);
                    assert(square_text(mv.sq().index())[1] == square_text(sq.index())[1]);
                    assert(mv.sq() == sq);
                    assert(mv.dir() == dir);
                    assert(mv == spread_of(sq, dir, mv.pattern_bits()));
                }
            }
        }
        None
    }
}

/// A move written as text is read back as the same move.
pub proof fn lemma_move_text_round_trip(mv: Move, back: Move)
    requires
        mv.wf(),
        back.wf(),
        ptn_text(mv) == ptn_text(back) || (back.is_spread() && ptn_text(mv) == ptn_text(back).push(
            CH_STAR,
        )),
    ensures
        back == mv,
{
    let t = ptn_text(mv);
    lemma_pattern_groups(mv.pattern_bits(), 6);
    lemma_pattern_groups(back.pattern_bits(), 6);
    if t == ptn_text(back) {
        lemma_text_tells_move(mv, back);
    } else {
        let u = ptn_text(back).push(CH_STAR);
        assert(t.last() == u.last());
        assert(t.last() != CH_STAR);
    }
}

} // verus!
