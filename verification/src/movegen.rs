use vstd::prelude::*;
use crate::bitboard::Bitboard;
use crate::hits::{find_hits, ray_walk, Hit};
use crate::position::Position;
use crate::takmove::{
    lemma_bv_ones,
    lemma_carry_multiple,
    lemma_move_fields,
    pattern_bit,
    pattern_carry,
    placement_of,
    lemma_pattern_ones,
    lemma_pattern_steps,
    lemma_spread_of_fields,
    pattern_ones,
    spread_of,
    Move,
    CARRY_LIMIT,
};
use crate::types::{Direction, PieceType, Player, Square};

verus! {

/// Whether the list `g` holds the move `mv`.
pub open spec fn holds(g: Seq<Move>, mv: Move) -> bool {
    exists|i: int| 0 <= i < g.len() && g[i] == mv
}

/// What was added to the list `before` to give the list `after`.
pub open spec fn added(before: Seq<Move>, after: Seq<Move>) -> Seq<Move> {
    after.subrange(before.len() as int, after.len() as int)
}

/// Whether the list `after` starts with the list `before`.
pub open spec fn extends(before: Seq<Move>, after: Seq<Move>) -> bool {
    before.len() <= after.len() && after.subrange(0, before.len() as int) == before
}

/// Whether no move occurs twice in the list `g`.
pub open spec fn no_repeat(g: Seq<Move>) -> bool {
    forall|i: int, j: int| 0 <= i < j < g.len() ==> g[i] != g[j]
}

/// A list that grows twice by moves that do not repeat, the second
/// time by moves that the first has not added, has grown by moves that do
/// not repeat.
pub proof fn lemma_no_repeat_grows(before: Seq<Move>, mid: Seq<Move>, after: Seq<Move>)
    requires
        extends(before, mid),
        extends(mid, after),
        no_repeat(added(before, mid)),
        no_repeat(added(mid, after)),
        forall|i: int, j: int|
            0 <= i < added(before, mid).len() && 0 <= j < added(mid, after).len() ==> added(
                before,
                mid,
            )[i] != added(mid, after)[j],
    ensures
        no_repeat(added(before, after)),
{
    let a = added(before, mid);
    let b = added(mid, after);
    let g = added(before, after);
    assert(after.subrange(0, before.len() as int) =~= mid.subrange(0, before.len() as int));
    assert forall|i: int, j: int| 0 <= i < j < g.len() implies g[i] != g[j] by {
        if i < a.len() {
            assert(mid[before.len() + i] == after.subrange(0, mid.len() as int)[before.len() + i]);
            assert(g[i] == a[i]);
        } else {
            assert(g[i] == b[i - a.len()]);
        }
        if j < a.len() {
            assert(mid[before.len() + j] == after.subrange(0, mid.len() as int)[before.len() + j]);
            assert(g[j] == a[j]);
        } else {
            assert(g[j] == b[j - a.len()]);
        }
    }
}

/// What is added by one move does not repeat.
pub proof fn lemma_no_repeat_one(before: Seq<Move>, x: Move)
    ensures
        no_repeat(added(before, before.push(x))),
        extends(before, before.push(x)),
        added(before, before.push(x)).len() == 1,
        added(before, before.push(x))[0] == x,
{
    assert(before.push(x).subrange(0, before.len() as int) =~= before);
}

pub proof fn lemma_holds_push(g: Seq<Move>, x: Move, mv: Move)
    ensures
        holds(g.push(x), mv) <==> (holds(g, mv) || mv == x),
{
    if holds(g, mv) {
        let i = choose|i: int| 0 <= i < g.len() && g[i] == mv;
        assert(g.push(x)[i] == mv);
    }
    if mv == x {
        assert(g.push(x)[g.len() as int] == mv);
    }
}

pub proof fn lemma_added_push(before: Seq<Move>, cur: Seq<Move>, x: Move)
    requires
        extends(before, cur),
    ensures
        extends(before, cur.push(x)),
        added(before, cur.push(x)) == added(before, cur).push(x),
{
    assert(cur.push(x).subrange(0, before.len() as int) =~= cur.subrange(0, before.len() as int));
    assert(added(before, cur.push(x)) =~= added(before, cur).push(x));
}

/// What is added to an extension of a list holds what the extension added, and more.
pub proof fn lemma_added_grows(before: Seq<Move>, mid: Seq<Move>, after: Seq<Move>, mv: Move)
    requires
        extends(before, mid),
        extends(mid, after),
    ensures
        extends(before, after),
        holds(added(before, after), mv) <==> (holds(added(before, mid), mv) || holds(
            added(mid, after),
            mv,
        )),
{
    assert(after.subrange(0, before.len() as int) =~= mid.subrange(0, before.len() as int));
    let a = added(before, after);
    let b = added(before, mid);
    let c = added(mid, after);
    if holds(b, mv) {
        let i = choose|i: int| 0 <= i < b.len() && b[i] == mv;
        assert(mid[before.len() + i] == after.subrange(0, mid.len() as int)[before.len() + i]);
        assert(a[i] == mv);
    }
    if holds(c, mv) {
        let i = choose|i: int| 0 <= i < c.len() && c[i] == mv;
        assert(a[mid.len() - before.len() + i] == mv);
    }
    if holds(a, mv) {
        let i = choose|i: int| 0 <= i < a.len() && a[i] == mv;
        if i < b.len() {
            assert(mid[before.len() + i] == after.subrange(0, mid.len() as int)[before.len() + i]);
            assert(b[i] == mv);
        } else {
            assert(c[i - b.len()] == mv);
        }
    }
}

/// Whether a capstone on `sq` that goes in direction `dir` comes to a
/// wall that it can flatten: the squares up to the first wall or capstone
/// in that direction end on a wall.
pub open spec fn smashes(pos: &Position, sq: Square, dir: Direction) -> bool {
    let end = ray_walk(pos.blockers_bb(), sq.index(), dir);
    &&& end.0 > 0
    &&& pos.stacks.tops[end.1] == Some(PieceType::Wall)
    &&& pos.stacks.tops[sq.index()] == Some(PieceType::Capstone)
}

/// The place of a kind of tile among the placements on one square:
/// the capstone first, then the flat, then the wall.
pub open spec fn kind_rank(pt: PieceType) -> int {
    match pt {
        PieceType::Capstone => 0,
        PieceType::Flat => 1,
        PieceType::Wall => 2,
    }
}

/// The place of the move `mv` in the order in which the moves of `pos`
/// are generated, the lower the earlier. Placements come before spreads.
/// Placements go by the square, and on one square by the kind of tile.
/// Spreads go by the square, then by the direction, then by the pattern;
/// but where a capstone can flatten a wall, the patterns from 32 on, with
/// which it does, come before those below 32.
pub open spec fn order_key(pos: &Position, mv: Move) -> int {
    if mv.is_spread() {
        let q = mv.pattern_bits();
        let turn = if smashes(pos, mv.sq(), mv.dir()) {
            (q + 32) % 64
        } else {
            q
        };
        108 + mv.sq().index() * 256 + mv.dir().index() * 64 + turn
    } else {
        mv.sq().index() * 3 + kind_rank(mv.pt())
    }
}

/// Whether the moves of the list `g` stand in the order in which the
/// moves of `pos` are generated.
pub open spec fn in_order(pos: &Position, g: Seq<Move>) -> bool {
    forall|i: int, j: int| 0 <= i < j < g.len() ==> order_key(pos, g[i]) < order_key(pos, g[j])
}

/// Whether the list `g` is what is generated for `pos`: the legal
/// moves and no others, in the order in which they are generated.
pub open spec fn generated(pos: &Position, g: Seq<Move>) -> bool {
    &&& forall|i: int| 0 <= i < g.len() ==> pos@.legal(#[trigger] g[i])
    &&& forall|mv: Move| pos@.legal(mv) ==> #[trigger] holds(g, mv)
    &&& in_order(pos, g)
}

/// A list that grows twice by moves in order, the second time by moves
/// that come after those of the first, has grown by moves in order.
pub proof fn lemma_in_order_grows(
    pos: &Position,
    before: Seq<Move>,
    mid: Seq<Move>,
    after: Seq<Move>,
)
    requires
        extends(before, mid),
        extends(mid, after),
        in_order(pos, added(before, mid)),
        in_order(pos, added(mid, after)),
        forall|i: int, j: int|
            0 <= i < added(before, mid).len() && 0 <= j < added(mid, after).len() ==> order_key(
                pos,
                added(before, mid)[i],
            ) < order_key(pos, added(mid, after)[j]),
    ensures
        in_order(pos, added(before, after)),
{
    let a = added(before, mid);
    let b = added(mid, after);
    let g = added(before, after);
    assert(after.subrange(0, before.len() as int) =~= mid.subrange(0, before.len() as int));
    assert forall|i: int, j: int| 0 <= i < j < g.len() implies order_key(pos, g[i]) < order_key(
        pos,
        g[j],
    ) by {
        if i < a.len() {
            assert(mid[before.len() + i] == after.subrange(0, mid.len() as int)[before.len() + i]);
            assert(g[i] == a[i]);
        } else {
            assert(g[i] == b[i - a.len()]);
        }
        if j < a.len() {
            assert(mid[before.len() + j] == after.subrange(0, mid.len() as int)[before.len() + j]);
            assert(g[j] == a[j]);
        } else {
            assert(g[j] == b[j - a.len()]);
        }
    }
}

/// Two lists in order that hold the same moves are one list.
pub proof fn lemma_one_order(pos: &Position, a: Seq<Move>, b: Seq<Move>)
    requires
        in_order(pos, a),
        in_order(pos, b),
        forall|mv: Move| holds(a, mv) <==> holds(b, mv),
    ensures
        a == b,
    decreases a.len(),
{
    if a.len() == 0 {
        if b.len() > 0 {
            assert(holds(b, b[0]));
            let i = choose|i: int| 0 <= i < a.len() && a[i] == b[0];
        }
        assert(a =~= b);
    } else {
        let x = a.last();
        assert(holds(a, x));
        let k = choose|k: int| 0 <= k < b.len() && b[k] == x;
        let y = b.last();
        assert(holds(b, y));
        let m = choose|m: int| 0 <= m < a.len() && a[m] == y;
        assert(order_key(pos, y) <= order_key(pos, x));
        assert(order_key(pos, x) <= order_key(pos, y));
        assert(m == a.len() - 1);
        assert(k == b.len() - 1);
        let a0 = a.drop_last();
        let b0 = b.drop_last();
        assert forall|mv: Move| holds(a0, mv) <==> holds(b0, mv) by {
            if holds(a0, mv) {
                let i = choose|i: int| 0 <= i < a0.len() && a0[i] == mv;
                assert(a[i] == mv);
                assert(holds(a, mv));
                let n = choose|n: int| 0 <= n < b.len() && b[n] == mv;
                assert(order_key(pos, a[i]) < order_key(pos, x));
                assert(b0[n] == mv);
            }
            if holds(b0, mv) {
                let i = choose|i: int| 0 <= i < b0.len() && b0[i] == mv;
                assert(b[i] == mv);
                assert(holds(b, mv));
                let n = choose|n: int| 0 <= n < a.len() && a[n] == mv;
                assert(order_key(pos, b[i]) < order_key(pos, y));
                assert(a0[n] == mv);
            }
        }
        assert forall|i: int, j: int| 0 <= i < j < a0.len() implies order_key(pos, a0[i])
            < order_key(pos, a0[j]) by {
            assert(a0[i] == a[i] && a0[j] == a[j]);
        }
        assert forall|i: int, j: int| 0 <= i < j < b0.len() implies order_key(pos, b0[i])
            < order_key(pos, b0[j]) by {
            assert(b0[i] == b[i] && b0[j] == b[j]);
        }
        lemma_one_order(pos, a0, b0);
        assert(a =~= a0.push(x));
        assert(b =~= b0.push(y));
    }
}

/// What is generated for a position is one list: two lists that both
/// hold the legal moves and no others, in the order of generation, are
/// equal.
pub proof fn lemma_generated_is_one(pos: &Position, a: Seq<Move>, b: Seq<Move>)
    requires
        generated(pos, a),
        generated(pos, b),
    ensures
        a == b,
{
    assert forall|mv: Move| holds(a, mv) <==> holds(b, mv) by {
        lemma_generated_are_the_legal(pos, a, mv);
        lemma_generated_are_the_legal(pos, b, mv);
    }
    lemma_one_order(pos, a, b);
}

/// Whether `q` is one of the patterns that are counted through from
/// `start` to below `limit` in steps of `lsb`: a multiple of `lsb` with at
/// most `dist` bits set.
pub open spec fn in_run(q: int, lsb: int, start: int, dist: int, limit: int) -> bool {
    &&& start <= q < limit
    &&& q % lsb == 0
    &&& pattern_ones(q) <= dist
}

/// The lowest bit that is set in the pattern `p`.
pub open spec fn low_bit(p: u16) -> u16 {
    p & ((!p + 1) as u16)
}

/// How far the pattern that is counted next is from the pattern `cur`:
/// the step `lsb`, but the lowest set bit of `cur` where `cur` has `dist`
/// bits set, so that no pattern with more bits is passed through.
pub open spec fn pattern_step(cur: int, lsb: int, dist: int) -> int {
    if pattern_ones(cur) == dist {
        low_bit(cur as u16) as int
    } else {
        lsb
    }
}

/// The spreads from `sq` in direction `dir` whose patterns are counted
/// through from `cur` to below `limit`, in the order of the count.
pub open spec fn spread_run(
    sq: Square,
    dir: Direction,
    lsb: int,
    cur: int,
    dist: int,
    limit: int,
) -> Seq<Move>
    decreases
        (if cur < limit {
            limit - cur
        } else {
            0
        }),
{
    if 0 < cur < limit && pattern_step(cur, lsb, dist) > 0 {
        Seq::<Move>::empty().push(spread_of(sq, dir, cur)) + spread_run(
            sq,
            dir,
            lsb,
            cur + pattern_step(cur, lsb, dist),
            dist,
            limit,
        )
    } else {
        Seq::empty()
    }
}

/// Whether the count from `pattern` in steps of `lsb` passes through
/// multiples of `lsb` alone and starts with no more than `dist` bits set:
/// holds of a step that is a power of two and divides `pattern`.
pub open spec fn tidy_run(lsb: int, pattern: int, dist: int, limit: int) -> bool {
    &&& lsb == 1 || lsb == 2 || lsb == 4 || lsb == 8 || lsb == 16 || lsb == 32
    &&& pattern % lsb == 0
    &&& pattern < limit ==> pattern_ones(pattern) <= dist
}

proof fn lemma_lowest_set_bit(p: u16)
    by (bit_vector)
    requires
        p > 0,
    ensures
        !p < 0xffff,
        1 <= p & ((!p + 1) as u16) <= p,
{
}

/// Adds to `dst` the spreads from `sq` in direction `dir` whose patterns
/// are counted through from `pattern` to below `limit`, in rising order:
/// from a pattern with `dist` bits set the count goes on by the lowest set
/// bit, from any other by `lsb`. Where `lsb` is a power of two that divides
/// `pattern`, these are the multiples of `lsb` from `pattern` to below
/// `limit` that have at most `dist` bits set. The patterns counted are
/// patterns of moves, from 1 to 63; the step is more than 0, without which
/// the count need not end, and small enough for the count to fit its word.
pub fn do_spreads(
    dst: &mut Vec<Move>,
    sq: Square,
    dir: Direction,
    lsb: u16,
    pattern: u16,
    dist: u32,
    limit: u16,
)
    requires
        sq.wf(),
        dist > 0,
        lsb > 0,
        pattern > 0,
        limit <= 64,
        limit + lsb <= 0x10000,
    ensures
        extends(old(dst)@, final(dst)@),
        added(old(dst)@, final(dst)@) == spread_run(
            sq,
            dir,
            lsb as int,
            pattern as int,
            dist as int,
            limit as int,
        ),
        forall|i: int|
            0 <= i < added(old(dst)@, final(dst)@).len() ==> {
                let m = #[trigger] added(old(dst)@, final(dst)@)[i];
                &&& m == spread_of(sq, dir, m.pattern_bits())
                &&& pattern <= m.pattern_bits() < limit
            },
        forall|i: int, j: int|
            0 <= i < j < added(old(dst)@, final(dst)@).len() ==> added(
                old(dst)@,
                final(dst)@,
            )[i].pattern_bits() < added(old(dst)@, final(dst)@)[j].pattern_bits(),
        no_repeat(added(old(dst)@, final(dst)@)),
        tidy_run(lsb as int, pattern as int, dist as int, limit as int) ==> {
            &&& forall|i: int|
                0 <= i < added(old(dst)@, final(dst)@).len() ==> in_run(
                    (#[trigger] added(old(dst)@, final(dst)@)[i]).pattern_bits(),
                    lsb as int,
                    pattern as int,
                    dist as int,
                    limit as int,
                )
            &&& forall|q: int|
                in_run(q, lsb as int, pattern as int, dist as int, limit as int) ==> holds(
                    added(old(dst)@, final(dst)@),
                    #[trigger] spread_of(sq, dir, q),
                )
        },
{
    let mut cur = pattern;
    let ghost start = pattern as int;
    let ghost tidy = tidy_run(lsb as int, pattern as int, dist as int, limit as int);
    let ghost whole = spread_run(sq, dir, lsb as int, start, dist as int, limit as int);
    assert(added(old(dst)@, dst@) =~= Seq::<Move>::empty());
    assert(dst@.subrange(0, dst@.len() as int) =~= dst@);
    assert(added(old(dst)@, dst@) + whole =~= whole);
    while cur < limit
        invariant
            sq.wf(),
            lsb > 0,
            dist > 0,
            limit <= 64,
            limit + lsb <= 0x10000,
            0 < start <= cur,
            tidy == tidy_run(lsb as int, start, dist as int, limit as int),
            whole == spread_run(sq, dir, lsb as int, start, dist as int, limit as int),
            extends(old(dst)@, dst@),
            added(old(dst)@, dst@) + spread_run(
                sq,
                dir,
                lsb as int,
                cur as int,
                dist as int,
                limit as int,
            ) == whole,
            forall|i: int|
                0 <= i < added(old(dst)@, dst@).len() ==> {
                    let m = #[trigger] added(old(dst)@, dst@)[i];
                    &&& m == spread_of(sq, dir, m.pattern_bits())
                    &&& start <= m.pattern_bits() < cur
                    &&& m.pattern_bits() < limit
                },
            forall|i: int, j: int|
                0 <= i < j < added(old(dst)@, dst@).len() ==> added(
                    old(dst)@,
                    dst@,
                )[i].pattern_bits() < added(old(dst)@, dst@)[j].pattern_bits(),
            tidy && cur < limit ==> cur % lsb == 0 && pattern_ones(cur as int) <= dist,
            tidy ==> forall|i: int|
                0 <= i < added(old(dst)@, dst@).len() ==> in_run(
                    (#[trigger] added(old(dst)@, dst@)[i]).pattern_bits(),
                    lsb as int,
                    start,
                    dist as int,
                    cur as int,
                ),
            tidy ==> forall|q: int|
                in_run(q, lsb as int, start, dist as int, cur as int) && q < limit ==> holds(
                    added(old(dst)@, dst@),
                    #[trigger] spread_of(sq, dir, q),
                ),
        decreases 0x10000 - cur,
    {
        let mv = Move::spread(sq, dir, cur);
        let ghost before = dst@;
        dst.push(mv);
        let ones = (cur as u64).count_ones();
        proof {
            lemma_pattern_ones(cur as int);
            lemma_bv_ones(cur);
            lemma_lowest_set_bit(cur);
            lemma_added_push(old(dst)@, before, mv);
        }
        let next = if ones == dist {
            cur + (cur & (!cur + 1))
        } else {
            cur + lsb
        };
        proof {
            let g0 = added(old(dst)@, before);
            let g1 = added(old(dst)@, dst@);
            let l = lsb as int;
            let d = dist as int;
            let lim = limit as int;
            assert(next == cur + pattern_step(cur as int, l, d));
            assert(g1 + spread_run(sq, dir, l, next as int, d, lim) =~= g0 + spread_run(
                sq,
                dir,
                l,
                cur as int,
                d,
                lim,
            ));
            lemma_spread_of_fields(sq, dir, cur as int);
            assert forall|i: int| 0 <= i < g1.len() implies ({
                let m = #[trigger] g1[i];
                &&& m == spread_of(sq, dir, m.pattern_bits())
                &&& start <= m.pattern_bits() < next
                &&& m.pattern_bits() < limit
            }) by {
                if i < g0.len() {
                    assert(g1[i] == g0[i]);
                }
            }
            assert forall|i: int, j: int| 0 <= i < j < g1.len() implies g1[i].pattern_bits()
                < g1[j].pattern_bits() by {
                if j < g0.len() {
                    assert(g1[i] == g0[i]);
                    assert(g1[j] == g0[j]);
                } else {
                    assert(g1[i] == g0[i]);
                }
            }
            if tidy {
                lemma_pattern_steps(cur, lsb, 0);
                if next < 64 {
                    lemma_bv_ones(next);
                    lemma_pattern_ones(next as int);
                }
                assert forall|i: int| 0 <= i < g1.len() implies in_run(
                    (#[trigger] g1[i]).pattern_bits(),
                    l,
                    start,
                    d,
                    next as int,
                ) by {
                    if i < g0.len() {
                        assert(g1[i] == g0[i]);
                    }
                }
                assert forall|q: int| in_run(q, l, start, d, next as int) && q < limit implies holds(
                    g1,
                    #[trigger] spread_of(sq, dir, q),
                ) by {
                    lemma_holds_push(g0, mv, spread_of(sq, dir, q));
                    if q > cur {
                        lemma_pattern_steps(cur, lsb, q as u16);
                        lemma_bv_ones(q as u16);
                    }
                }
            }
        }
        cur = next;
    }
    proof {
        let g = added(old(dst)@, dst@);
        assert(g + Seq::<Move>::empty() =~= g);
        assert forall|i: int, j: int| 0 <= i < j < g.len() implies g[i] != g[j] by {
            assert(g[i].pattern_bits() < g[j].pattern_bits());
        }
    }
}


/// Adds to `dst` the moves of one of the first two turns: a flat on each empty square.
fn generate_starting_moves(dst: &mut Vec<Move>, pos: &Position)
    requires
        pos.wf(),
        pos.ply < 2,
    ensures
        extends(old(dst)@, final(dst)@),
        forall|i: int|
            0 <= i < added(old(dst)@, final(dst)@).len() ==> pos@.legal(
                #[trigger] added(old(dst)@, final(dst)@)[i],
            ),
        forall|mv: Move| pos@.legal(mv) ==> #[trigger] holds(added(old(dst)@, final(dst)@), mv),
        no_repeat(added(old(dst)@, final(dst)@)),
        in_order(pos, added(old(dst)@, final(dst)@)),
{
    let empties = pos.empty_squares();
    let mut bb = empties;
    assert(added(old(dst)@, dst@) =~= Seq::<Move>::empty());
    assert(dst@.subrange(0, dst@.len() as int) =~= dst@);
    loop
        invariant_except_break
            pos.wf(),
            pos.ply < 2,
            bb.wf(),
            no_repeat(added(old(dst)@, dst@)),
            in_order(pos, added(old(dst)@, dst@)),
            forall|i: int, k: int|
                #![trigger added(old(dst)@, dst@)[i], bb.contains(k)]
                0 <= i < added(old(dst)@, dst@).len() && bb.contains(k) ==> added(
                    old(dst)@,
                    dst@,
                )[i].sq().index() < k,
            forall|i: int| bb.contains(i) ==> empties.contains(i),
            forall|i: int| 0 <= i < 36 ==> (empties.contains(i) <==> pos.stacks.heights[i] == 0),
            extends(old(dst)@, dst@),
            forall|i: int|
                0 <= i < added(old(dst)@, dst@).len() ==> {
                    let m = #[trigger] added(old(dst)@, dst@)[i];
                    pos@.legal(m) && !bb.contains(m.sq().index())
                },
            forall|mv: Move|
                pos@.legal(mv) && !bb.contains(mv.sq().index()) ==> #[trigger] holds(
                    added(old(dst)@, dst@),
                    mv,
                ),
        ensures
            extends(old(dst)@, dst@),
            forall|i: int|
                0 <= i < added(old(dst)@, dst@).len() ==> pos@.legal(
                    #[trigger] added(old(dst)@, dst@)[i],
                ),
            forall|mv: Move| pos@.legal(mv) ==> #[trigger] holds(added(old(dst)@, dst@), mv),
            no_repeat(added(old(dst)@, dst@)),
            in_order(pos, added(old(dst)@, dst@)),
        decreases bb.raw,
    {
        let ghost bb0 = bb;
        let ghost before = dst@;
        match bb.pop_lsb() {
            None => {
                break ;
            },
            Some(sq) => {
                let m = Move::placement(PieceType::Flat, sq);
                dst.push(m);
                proof {
                    lemma_added_push(old(dst)@, before, m);
                    let g0 = added(old(dst)@, before);
                    let g1 = added(old(dst)@, dst@);
                    lemma_no_repeat_one(before, m);
                    assert forall|i: int, j: int|
                        0 <= i < g0.len() && 0 <= j < added(before, dst@).len() implies g0[i]
                        != added(before, dst@)[j] by {
                        assert(!bb0.contains(g0[i].sq().index()));
                    }
                    lemma_no_repeat_grows(old(dst)@, before, dst@);
                    assert forall|i: int, j: int|
                        0 <= i < g0.len() && 0 <= j < added(before, dst@).len() implies order_key(
                        pos,
                        g0[i],
                    ) < order_key(pos, added(before, dst@)[j]) by {
                        assert(bb0.contains(sq.index()));
                        assert(g0[i].sq().index() < sq.index());
                        assert(pos@.legal(g0[i]));
                    }
                    lemma_in_order_grows(pos, old(dst)@, before, dst@);
                    assert forall|i: int, k: int|
                        #![trigger g1[i], bb.contains(k)]
                        0 <= i < g1.len() && bb.contains(k) implies g1[i].sq().index() < k by {
                        assert(bb0.contains(k));
                        if i < g0.len() {
                            assert(g1[i] == g0[i]);
                        }
                    }
                    assert(pos@.stacks[sq.index()] == pos.stacks.view_at(sq.index()));
                    assert forall|i: int| 0 <= i < g1.len() implies ({
                        let x = #[trigger] g1[i];
                        pos@.legal(x) && !bb.contains(x.sq().index())
                    }) by {
                        if i < g0.len() {
                            assert(g1[i] == g0[i]);
                        }
                    }
                    assert forall|mv: Move|
                        pos@.legal(mv) && !bb.contains(mv.sq().index()) implies #[trigger] holds(
                        g1,
                        mv,
                    ) by {
                        lemma_holds_push(g0, m, mv);
                        lemma_move_fields(mv);
                        assert(pos@.stacks[mv.sq().index()] == pos.stacks.view_at(mv.sq().index()));
                    }
                }
            },
        }
    }
}

/// Adds to `dst` the placements of a turn after the first two: on each
/// empty square a capstone if one is in hand, and a flat and a wall if a
/// flat is in hand.
fn generate_placements(dst: &mut Vec<Move>, pos: &Position)
    requires
        pos.wf(),
        pos.ply >= 2,
    ensures
        extends(old(dst)@, final(dst)@),
        forall|i: int|
            0 <= i < added(old(dst)@, final(dst)@).len() ==> {
                let m = #[trigger] added(old(dst)@, final(dst)@)[i];
                pos@.legal(m) && !m.is_spread()
            },
        forall|mv: Move|
            pos@.legal(mv) && !mv.is_spread() ==> #[trigger] holds(
                added(old(dst)@, final(dst)@),
                mv,
            ),
        no_repeat(added(old(dst)@, final(dst)@)),
        in_order(pos, added(old(dst)@, final(dst)@)),
{
    let flats = pos.flats_in_hand(pos.stm());
    let caps = pos.caps_in_hand(pos.stm());
    assert(added(old(dst)@, dst@) =~= Seq::<Move>::empty());
    assert(dst@.subrange(0, dst@.len() as int) =~= dst@);
    proof {
        assert(pos@.flats[pos.stm.index()] == flats);
        assert(pos@.caps[pos.stm.index()] == caps);
    }
    if flats == 0 && caps == 0 {
        return ;
    }
    let empties = pos.empty_squares();
    let mut bb = empties;
    loop
        invariant_except_break
            pos.wf(),
            pos.ply >= 2,
            bb.wf(),
            flats == pos@.flats[pos.stm.index()],
            caps == pos@.caps[pos.stm.index()],
            no_repeat(added(old(dst)@, dst@)),
            in_order(pos, added(old(dst)@, dst@)),
            forall|i: int, k: int|
                #![trigger added(old(dst)@, dst@)[i], bb.contains(k)]
                0 <= i < added(old(dst)@, dst@).len() && bb.contains(k) ==> added(
                    old(dst)@,
                    dst@,
                )[i].sq().index() < k,
            forall|i: int| bb.contains(i) ==> empties.contains(i),
            forall|i: int| 0 <= i < 36 ==> (empties.contains(i) <==> pos.stacks.heights[i] == 0),
            extends(old(dst)@, dst@),
            forall|i: int|
                0 <= i < added(old(dst)@, dst@).len() ==> {
                    let m = #[trigger] added(old(dst)@, dst@)[i];
                    pos@.legal(m) && !m.is_spread() && !bb.contains(m.sq().index())
                },
            forall|mv: Move|
                pos@.legal(mv) && !mv.is_spread() && !bb.contains(mv.sq().index())
                    ==> #[trigger] holds(added(old(dst)@, dst@), mv),
        ensures
            extends(old(dst)@, dst@),
            forall|i: int|
                0 <= i < added(old(dst)@, dst@).len() ==> {
                    let m = #[trigger] added(old(dst)@, dst@)[i];
                    pos@.legal(m) && !m.is_spread()
                },
            forall|mv: Move|
                pos@.legal(mv) && !mv.is_spread() ==> #[trigger] holds(added(old(dst)@, dst@), mv),
            no_repeat(added(old(dst)@, dst@)),
            in_order(pos, added(old(dst)@, dst@)),
        decreases bb.raw,
    {
        let ghost bb0 = bb;
        let ghost before = dst@;
        match bb.pop_lsb() {
            None => {
                break ;
            },
            Some(sq) => {
                proof {
                    assert(pos@.stacks[sq.index()] == pos.stacks.view_at(sq.index()));
                }
                if caps > 0 {
                    let ghost cur = dst@;
                    dst.push(Move::placement(PieceType::Capstone, sq));
                    proof {
                        lemma_added_push(old(dst)@, cur, placement_of(PieceType::Capstone, sq));
                    }
                }
                if flats > 0 {
                    let ghost cur = dst@;
                    dst.push(Move::placement(PieceType::Flat, sq));
                    proof {
                        lemma_added_push(old(dst)@, cur, placement_of(PieceType::Flat, sq));
                    }
                    let ghost cur2 = dst@;
                    dst.push(Move::placement(PieceType::Wall, sq));
                    proof {
                        lemma_added_push(old(dst)@, cur2, placement_of(PieceType::Wall, sq));
                    }
                }
                proof {
                    let g0 = added(old(dst)@, before);
                    let g1 = added(old(dst)@, dst@);
                    let c = placement_of(PieceType::Capstone, sq);
                    let f = placement_of(PieceType::Flat, sq);
                    let w = placement_of(PieceType::Wall, sq);
                    assert(extends(before, dst@)) by {
                        assert(dst@.subrange(0, before.len() as int) =~= before);
                    }
                    let t = added(before, dst@);
                    assert forall|i: int| 0 <= i < t.len() implies (#[trigger] t[i]).sq() == sq && (
                    t[i] == c || t[i] == f || t[i] == w) by {}
                    assert(no_repeat(t)) by {
                        assert forall|i: int, j: int| 0 <= i < j < t.len() implies t[i] != t[j] by {
                            assert(t[i] == c || t[i] == f || t[i] == w);
                            assert(t[j] == c || t[j] == f || t[j] == w);
                        }
                    }
                    assert forall|i: int, j: int|
                        0 <= i < g0.len() && 0 <= j < t.len() implies g0[i] != t[j] by {
                        assert(!bb0.contains(g0[i].sq().index()));
                        assert(t[j].sq() == sq);
                    }
                    lemma_no_repeat_grows(old(dst)@, before, dst@);
                    assert(in_order(pos, t)) by {
                        assert forall|i: int, j: int| 0 <= i < j < t.len() implies order_key(
                            pos,
                            t[i],
                        ) < order_key(pos, t[j]) by {
                            assert(t[i] == c || t[i] == f || t[i] == w);
                            assert(t[j] == c || t[j] == f || t[j] == w);
                        }
                    }
                    assert forall|i: int, j: int|
                        0 <= i < g0.len() && 0 <= j < t.len() implies order_key(pos, g0[i])
                        < order_key(pos, t[j]) by {
                        assert(bb0.contains(sq.index()));
                        assert(g0[i].sq().index() < sq.index());
                        assert(t[j].sq() == sq);
                    }
                    lemma_in_order_grows(pos, old(dst)@, before, dst@);
                    assert forall|i: int, k: int|
                        #![trigger g1[i], bb.contains(k)]
                        0 <= i < g1.len() && bb.contains(k) implies g1[i].sq().index() < k by {
                        assert(bb0.contains(k));
                        if i < g0.len() {
                            assert(g1[i] == dst@[old(dst)@.len() + i]);
                            assert(g0[i] == before[old(dst)@.len() + i]);
                            assert(before[old(dst)@.len() + i] == dst@.subrange(
                                0,
                                before.len() as int,
                            )[old(dst)@.len() + i]);
                        } else {
                            assert(g1[i] == t[i - g0.len()]);
                        }
                    }
                    assert forall|i: int| 0 <= i < g1.len() implies ({
                        let x = #[trigger] g1[i];
                        pos@.legal(x) && !x.is_spread() && !bb.contains(x.sq().index())
                    }) by {
                        if i < g0.len() {
                            assert(g1[i] == dst@[old(dst)@.len() + i]);
                            assert(g0[i] == before[old(dst)@.len() + i]);
                            assert(before[old(dst)@.len() + i] == dst@.subrange(
                                0,
                                before.len() as int,
                            )[old(dst)@.len() + i]);
                        } else {
                            let x = g1[i];
                            assert(x == c || x == f || x == w);
                        }
                    }
                    assert forall|mv: Move|
                        pos@.legal(mv) && !mv.is_spread() && !bb.contains(mv.sq().index())
                        implies #[trigger] holds(g1, mv) by {
                        lemma_added_grows(old(dst)@, before, dst@, mv);
                        lemma_move_fields(mv);
                        if mv.sq().index() == sq.index() {
                            let t = added(before, dst@);
                            if mv.pt() == PieceType::Capstone {
                                assert(t[0] == mv);
                            } else if mv.pt() == PieceType::Flat {
                                assert(t[t.len() - 2] == mv);
                            } else {
                                assert(t[t.len() - 1] == mv);
                            }
                        }
                    }
                }
            },
        }
    }
}


/// Whether `mv` is a legal spread in `pos` from square `sq`.
pub open spec fn spread_from(pos: &Position, mv: Move, sq: Square) -> bool {
    pos@.legal(mv) && mv.is_spread() && mv.sq() == sq
}

/// The lowest pattern of a stack of height `h`: 64 halved once for each
/// tile that can be carried.
pub open spec fn start_pattern(h: int) -> int {
    if h <= 1 {
        32
    } else if h == 2 {
        16
    } else if h == 3 {
        8
    } else if h == 4 {
        4
    } else if h == 5 {
        2
    } else {
        1
    }
}

/// Whether `q` is among the patterns counted through for a stack with the
/// lowest pattern `sb` and a top tile `top`, where the ray ends after `far`
/// steps on a square with the top `stop`. Onto a wall a capstone may go
/// alone, which are the patterns from 32 on; short of a wall or capstone
/// every pattern may go.
pub open spec fn spread_runs(
    q: int,
    sb: int,
    far: int,
    stop: Option<PieceType>,
    top: Option<PieceType>,
) -> bool {
    let smash = far > 0 && stop == Some(PieceType::Wall) && top == Some(PieceType::Capstone);
    let near = if far > 0 && (stop == Some(PieceType::Wall) || stop == Some(PieceType::Capstone)) {
        far - 1
    } else {
        far
    };
    ||| smash && in_run(q, sb, 32, far, 64)
    ||| near > 0 && in_run(q, sb, sb, near, if smash {
        32
    } else {
        64
    })
}

/// A spread is legal exactly when its pattern is among those counted through.
proof fn lemma_spread_runs(pos: &Position, mv: Move, hit: Hit)
    requires
        pos.wf(),
        pos.ply >= 2,
        mv.wf(),
        mv.is_spread(),
        pos.stacks.heights[mv.sq().index()] > 0,
        pos.stacks.view_at(mv.sq().index()).owner() == pos.stm,
        hit.1.wf(),
        (hit.0 as int, hit.1.index()) == ray_walk(
            pos.blockers_bb(),
            mv.sq().index(),
            mv.dir(),
        ),
    ensures
        pos@.legal(mv) <==> spread_runs(
            mv.pattern_bits(),
            start_pattern(pos.stacks.heights[mv.sq().index()] as int),
            hit.0 as int,
            pos.stacks.tops[hit.1.index()],
            pos.stacks.tops[mv.sq().index()],
        ),
{
    let q = mv.pattern_bits();
    let h = pos.stacks.heights[mv.sq().index()] as int;
    let max = if h < 6 {
        h
    } else {
        6
    };
    lemma_move_fields(mv);
    lemma_pattern_ones(q);
    lemma_carry_multiple(q, max);
    pos.lemma_legal_spread_by_hit(mv);
    crate::position::lemma_ray_walk_bound(pos.blockers_bb(), mv.sq().index(), mv.dir());
    assert(pos.stacks@[hit.1.index()] == pos.stacks.view_at(hit.1.index()));
    assert(q >= 32 <==> pattern_bit(q, 5));
}

/// The spreads from one square in one direction are in order where
/// those that flatten a wall come first, and the patterns rise among them
/// and among the others.
proof fn lemma_runs_in_order(
    pos: &Position,
    sq: Square,
    dir: Direction,
    before: Seq<Move>,
    mid: Seq<Move>,
    after: Seq<Move>,
)
    requires
        sq.wf(),
        extends(before, mid),
        extends(mid, after),
        added(before, mid).len() > 0 ==> smashes(pos, sq, dir),
        forall|i: int|
            0 <= i < added(before, mid).len() ==> {
                let m = #[trigger] added(before, mid)[i];
                m == spread_of(sq, dir, m.pattern_bits()) && 32 <= m.pattern_bits() < 64
            },
        forall|i: int|
            0 <= i < added(mid, after).len() ==> {
                let m = #[trigger] added(mid, after)[i];
                m == spread_of(sq, dir, m.pattern_bits()) && 0 < m.pattern_bits() < (if smashes(
                    pos,
                    sq,
                    dir,
                ) {
                    32int
                } else {
                    64int
                })
            },
        forall|i: int, j: int|
            0 <= i < j < added(before, mid).len() ==> added(before, mid)[i].pattern_bits() < added(
                before,
                mid,
            )[j].pattern_bits(),
        forall|i: int, j: int|
            0 <= i < j < added(mid, after).len() ==> added(mid, after)[i].pattern_bits() < added(
                mid,
                after,
            )[j].pattern_bits(),
    ensures
        in_order(pos, added(before, after)),
{
    let g1 = added(before, mid);
    let g2 = added(mid, after);
    assert forall|i: int| 0 <= i < g1.len() implies {
        let m = #[trigger] g1[i];
        m.is_spread() && m.sq() == sq && m.dir() == dir
    } by {
        lemma_spread_of_fields(sq, dir, g1[i].pattern_bits());
    }
    assert forall|i: int| 0 <= i < g2.len() implies {
        let m = #[trigger] g2[i];
        m.is_spread() && m.sq() == sq && m.dir() == dir
    } by {
        lemma_spread_of_fields(sq, dir, g2[i].pattern_bits());
    }
    assert(in_order(pos, g1)) by {
        assert forall|i: int, j: int| 0 <= i < j < g1.len() implies order_key(pos, g1[i])
            < order_key(pos, g1[j]) by {
            assert(g1[i].pattern_bits() < g1[j].pattern_bits());
        }
    }
    assert(in_order(pos, g2)) by {
        assert forall|i: int, j: int| 0 <= i < j < g2.len() implies order_key(pos, g2[i])
            < order_key(pos, g2[j]) by {
            assert(g2[i].pattern_bits() < g2[j].pattern_bits());
        }
    }
    assert forall|i: int, j: int| 0 <= i < g1.len() && 0 <= j < g2.len() implies order_key(
        pos,
        g1[i],
    ) < order_key(pos, g2[j]) by {
        assert(32 <= g1[i].pattern_bits() < 64);
        assert(0 < g2[j].pattern_bits() < 32);
    }
    lemma_in_order_grows(pos, before, mid, after);
}

/// Adds to `dst` the legal spreads from `sq` in direction `dir`, where
/// `hit` is the end of the ray from `sq` in that direction.
#[verifier::rlimit(80)]
fn generate_spreads_along(
    dst: &mut Vec<Move>,
    pos: &Position,
    sq: Square,
    dir: Direction,
    hit: Hit,
)
    requires
        pos.wf(),
        pos.ply >= 2,
        sq.wf(),
        pos.stacks.heights[sq.index()] > 0,
        pos.stacks.view_at(sq.index()).owner() == pos.stm,
        hit.1.wf(),
        (hit.0 as int, hit.1.index()) == ray_walk(pos.blockers_bb(), sq.index(), dir),
    ensures
        extends(old(dst)@, final(dst)@),
        forall|i: int|
            0 <= i < added(old(dst)@, final(dst)@).len() ==> {
                let m = #[trigger] added(old(dst)@, final(dst)@)[i];
                spread_from(pos, m, sq) && m.dir() == dir
            },
        forall|mv: Move|
            spread_from(pos, mv, sq) && mv.dir() == dir ==> #[trigger] holds(
                added(old(dst)@, final(dst)@),
                mv,
            ),
        no_repeat(added(old(dst)@, final(dst)@)),
        in_order(pos, added(old(dst)@, final(dst)@)),
{
    let top = pos.stacks().top(sq);
    let h = pos.stacks().height(sq);
    let max: u8 = if h < CARRY_LIMIT {
        h
    } else {
        CARRY_LIMIT
    };
    let start_bit: u16 = 64u16 >> (max as u16);
    assert((max == 1 ==> start_bit == 32) && (max == 2 ==> start_bit == 16) && (max == 3
        ==> start_bit == 8) && (max == 4 ==> start_bit == 4) && (max == 5 ==> start_bit == 2) && (
    max == 6 ==> start_bit == 1)) by (bit_vector)
        requires
            start_bit == 64u16 >> (max as u16),
    ;
    assert(start_bit == start_pattern(h as int));
    let ghost g_old = dst@;
    let ghost far = hit.0 as int;
    proof {
        assert(added(g_old, dst@) =~= Seq::<Move>::empty());
        assert(dst@.subrange(0, dst@.len() as int) =~= dst@);
        lemma_pattern_ones(32);
        lemma_pattern_ones(start_bit as int);
        crate::position::lemma_ray_walk_bound(pos.blockers_bb(), sq.index(), dir);
        assert(pos.stacks@[hit.1.index()] == pos.stacks.view_at(hit.1.index()));
    }
    let mut dist = hit.0;
    let mut limit: u16 = 64;
    let stop = pos.stacks().top(hit.1);
    let smash = dist > 0 && stop == Some(PieceType::Wall) && top == Some(PieceType::Capstone);
    if dist > 0 {
        match stop {
            Some(PieceType::Wall) => {
                if smash {
                    do_spreads(dst, sq, dir, start_bit, 32, dist as u32, limit);
                    limit = 32;
                }
                dist -= 1;
            },
            Some(PieceType::Capstone) => {
                dist -= 1;
            },
            _ => {},
        }
    }
    let ghost g_mid = dst@;
    if dist > 0 {
        do_spreads(dst, sq, dir, start_bit, start_bit, dist as u32, limit);
    }
    proof {
        assert(extends(g_mid, dst@)) by {
            assert(dst@.subrange(0, g_mid.len() as int) =~= g_mid);
        }
        let g1 = added(g_old, g_mid);
        let g2 = added(g_mid, dst@);
        let g = added(g_old, dst@);
        let sb = start_bit as int;
        assert(extends(g_old, dst@)) by {
            lemma_added_grows(g_old, g_mid, dst@, spread_of(sq, dir, 1));
        }
        assert(no_repeat(g1) && no_repeat(g2));
        assert forall|i: int, j: int| 0 <= i < g1.len() && 0 <= j < g2.len() implies g1[i]
            != g2[j] by {
            assert(in_run(g1[i].pattern_bits(), sb, 32, far, 64));
            assert(in_run(g2[j].pattern_bits(), sb, sb, dist as int, limit as int));
        }
        lemma_no_repeat_grows(g_old, g_mid, dst@);
        assert(smash == smashes(pos, sq, dir));
        lemma_runs_in_order(pos, sq, dir, g_old, g_mid, dst@);
        assert forall|i: int| 0 <= i < g.len() implies ({
            let m = #[trigger] g[i];
            spread_from(pos, m, sq) && m.dir() == dir
        }) by {
            let m = g[i];
            let q = m.pattern_bits();
            if i < g1.len() {
                assert(g_mid[g_old.len() + i] == dst@.subrange(0, g_mid.len() as int)[g_old.len()
                    + i]);
                assert(m == g1[i]);
                assert(in_run(q, sb, 32, far, 64));
            } else {
                assert(m == g2[i - g1.len()]);
                assert(in_run(q, sb, sb, dist as int, limit as int));
            }
            assert(spread_runs(q, sb, far, stop, top));
            lemma_spread_of_fields(sq, dir, q);
            lemma_spread_runs(pos, m, hit);
        }
        assert forall|mv: Move| spread_from(pos, mv, sq) && mv.dir() == dir implies #[trigger] holds(
            g,
            mv,
        ) by {
            lemma_move_fields(mv);
            let q = mv.pattern_bits();
            lemma_spread_runs(pos, mv, hit);
            lemma_added_grows(g_old, g_mid, dst@, mv);
            assert(mv == spread_of(sq, dir, q));
            if smash && in_run(q, sb, 32, far, 64) {
                assert(holds(g1, spread_of(sq, dir, q)));
            } else {
                assert(in_run(q, sb, sb, dist as int, limit as int));
                assert(holds(g2, spread_of(sq, dir, q)));
            }
        }
    }
}

/// Adds to `dst` the legal spreads from `sq`, a square whose top tile
/// belongs to the side to move.
fn generate_spreads_from(dst: &mut Vec<Move>, pos: &Position, sq: Square)
    requires
        pos.wf(),
        pos.ply >= 2,
        sq.wf(),
        pos.stacks.heights[sq.index()] > 0,
        pos.stacks.view_at(sq.index()).owner() == pos.stm,
    ensures
        extends(old(dst)@, final(dst)@),
        forall|i: int|
            0 <= i < added(old(dst)@, final(dst)@).len() ==> spread_from(
                pos,
                #[trigger] added(old(dst)@, final(dst)@)[i],
                sq,
            ),
        forall|mv: Move|
            spread_from(pos, mv, sq) ==> #[trigger] holds(added(old(dst)@, final(dst)@), mv),
        no_repeat(added(old(dst)@, final(dst)@)),
        in_order(pos, added(old(dst)@, final(dst)@)),
{
    let hits = find_hits(pos.all_blockers(), sq);
    let mut d: u8 = 0;
    assert(added(old(dst)@, dst@) =~= Seq::<Move>::empty());
    assert(dst@.subrange(0, dst@.len() as int) =~= dst@);
    while d < 4
        invariant
            d <= 4,
            pos.wf(),
            pos.ply >= 2,
            sq.wf(),
            pos.stacks.heights[sq.index()] > 0,
            pos.stacks.view_at(sq.index()).owner() == pos.stm,
            crate::hits::hits_match(hits, pos.blockers_bb(), sq.index()),
            extends(old(dst)@, dst@),
            no_repeat(added(old(dst)@, dst@)),
            in_order(pos, added(old(dst)@, dst@)),
            forall|i: int|
                0 <= i < added(old(dst)@, dst@).len() ==> {
                    let m = #[trigger] added(old(dst)@, dst@)[i];
                    spread_from(pos, m, sq) && m.dir().index() < d
                },
            forall|mv: Move|
                spread_from(pos, mv, sq) && mv.dir().index() < d ==> #[trigger] holds(
                    added(old(dst)@, dst@),
                    mv,
                ),
        decreases 4 - d,
    {
        let dir = Direction::from_raw(d).unwrap();
        let ghost before = dst@;
        let hit = hits[d as usize];
        assert(hits[d as int].1.wf());
        generate_spreads_along(dst, pos, sq, dir, hit);
        proof {
            let g0 = added(old(dst)@, before);
            let g1 = added(before, dst@);
            let g = added(old(dst)@, dst@);
            lemma_added_grows(old(dst)@, before, dst@, spread_of(sq, dir, 1));
            assert forall|i: int, j: int| 0 <= i < g0.len() && 0 <= j < g1.len() implies g0[i]
                != g1[j] by {
                assert(g0[i].dir().index() < d);
                assert(g1[j].dir() == dir);
            }
            lemma_no_repeat_grows(old(dst)@, before, dst@);
            assert forall|i: int, j: int| 0 <= i < g0.len() && 0 <= j < g1.len() implies order_key(
                pos,
                g0[i],
            ) < order_key(pos, g1[j]) by {
                assert(spread_from(pos, g0[i], sq) && g0[i].dir().index() < d);
                assert(spread_from(pos, g1[j], sq) && g1[j].dir() == dir);
                lemma_move_fields(g0[i]);
                lemma_move_fields(g1[j]);
            }
            lemma_in_order_grows(pos, old(dst)@, before, dst@);
            assert forall|i: int| 0 <= i < g.len() implies ({
                let m = #[trigger] g[i];
                spread_from(pos, m, sq) && m.dir().index() < d + 1
            }) by {
                if i < g0.len() {
                    assert(before[old(dst)@.len() + i] == dst@.subrange(0, before.len() as int)[old(
                        dst,
                    )@.len() + i]);
                    assert(g[i] == g0[i]);
                } else {
                    assert(g[i] == g1[i - g0.len()]);
                }
            }
            assert forall|mv: Move|
                spread_from(pos, mv, sq) && mv.dir().index() < d + 1 implies #[trigger] holds(
                g,
                mv,
            ) by {
                lemma_added_grows(old(dst)@, before, dst@, mv);
            }
        }
        d += 1;
    }
}

/// Adds to `dst` the legal spreads of a turn after the first two.
fn generate_spreads(dst: &mut Vec<Move>, pos: &Position)
    requires
        pos.wf(),
        pos.ply >= 2,
    ensures
        extends(old(dst)@, final(dst)@),
        forall|i: int|
            0 <= i < added(old(dst)@, final(dst)@).len() ==> {
                let m = #[trigger] added(old(dst)@, final(dst)@)[i];
                pos@.legal(m) && m.is_spread()
            },
        forall|mv: Move|
            pos@.legal(mv) && mv.is_spread() ==> #[trigger] holds(added(old(dst)@, final(dst)@), mv),
        no_repeat(added(old(dst)@, final(dst)@)),
        in_order(pos, added(old(dst)@, final(dst)@)),
{
    let own = pos.player_bb(pos.stm());
    let mut bb = own;
    assert(added(old(dst)@, dst@) =~= Seq::<Move>::empty());
    assert(dst@.subrange(0, dst@.len() as int) =~= dst@);
    proof {
        assert forall|mv: Move| pos@.legal(mv) && mv.is_spread() implies own.contains(
            mv.sq().index(),
        ) by {
            lemma_move_fields(mv);
            let o = mv.sq().index();
            assert(pos.square_ok(pos.stacks@[o], o));
        }
    }
    loop
        invariant_except_break
            pos.wf(),
            pos.ply >= 2,
            bb.wf(),
            own == pos.player_bb[pos.stm.index()],
            forall|i: int| bb.contains(i) ==> own.contains(i),
            extends(old(dst)@, dst@),
            no_repeat(added(old(dst)@, dst@)),
            in_order(pos, added(old(dst)@, dst@)),
            forall|i: int, k: int|
                #![trigger added(old(dst)@, dst@)[i], bb.contains(k)]
                0 <= i < added(old(dst)@, dst@).len() && bb.contains(k) ==> added(
                    old(dst)@,
                    dst@,
                )[i].sq().index() < k,
            forall|i: int|
                0 <= i < added(old(dst)@, dst@).len() ==> {
                    let m = #[trigger] added(old(dst)@, dst@)[i];
                    pos@.legal(m) && m.is_spread() && !bb.contains(m.sq().index())
                },
            forall|mv: Move|
                pos@.legal(mv) && mv.is_spread() && !bb.contains(mv.sq().index())
                    ==> #[trigger] holds(added(old(dst)@, dst@), mv),
        ensures
            extends(old(dst)@, dst@),
            forall|i: int|
                0 <= i < added(old(dst)@, dst@).len() ==> {
                    let m = #[trigger] added(old(dst)@, dst@)[i];
                    pos@.legal(m) && m.is_spread()
                },
            forall|mv: Move|
                pos@.legal(mv) && mv.is_spread() ==> #[trigger] holds(added(old(dst)@, dst@), mv),
            no_repeat(added(old(dst)@, dst@)),
            in_order(pos, added(old(dst)@, dst@)),
        decreases bb.raw,
    {
        let ghost before = dst@;
        let ghost bb0 = bb;
        match bb.pop_lsb() {
            None => {
                break ;
            },
            Some(sq) => {
                proof {
                    assert(pos.square_ok(pos.stacks@[sq.index()], sq.index()));
                    assert(pos.stacks@[sq.index()] == pos.stacks.view_at(sq.index()));
                }
                generate_spreads_from(dst, pos, sq);
                proof {
                    let g0 = added(old(dst)@, before);
                    let g1 = added(before, dst@);
                    let g = added(old(dst)@, dst@);
                    lemma_added_grows(old(dst)@, before, dst@, spread_of(sq, Direction::Up, 1));
                    assert forall|i: int, j: int|
                        0 <= i < g0.len() && 0 <= j < g1.len() implies g0[i] != g1[j] by {
                        assert(!bb0.contains(g0[i].sq().index()));
                        assert(g1[j].sq() == sq);
                    }
                    lemma_no_repeat_grows(old(dst)@, before, dst@);
                    assert forall|i: int, j: int|
                        0 <= i < g0.len() && 0 <= j < g1.len() implies order_key(pos, g0[i])
                        < order_key(pos, g1[j]) by {
                        assert(bb0.contains(sq.index()));
                        assert(g0[i].sq().index() < sq.index());
                        assert(pos@.legal(g0[i]) && g0[i].is_spread());
                        assert(spread_from(pos, g1[j], sq));
                        lemma_move_fields(g0[i]);
                        lemma_move_fields(g1[j]);
                    }
                    lemma_in_order_grows(pos, old(dst)@, before, dst@);
                    assert forall|i: int, k: int|
                        #![trigger g[i], bb.contains(k)]
                        0 <= i < g.len() && bb.contains(k) implies g[i].sq().index() < k by {
                        assert(bb0.contains(k));
                        if i < g0.len() {
                            assert(before[old(dst)@.len() + i] == dst@.subrange(
                                0,
                                before.len() as int,
                            )[old(dst)@.len() + i]);
                            assert(g[i] == g0[i]);
                        } else {
                            assert(g[i] == g1[i - g0.len()]);
                        }
                    }
                    assert forall|i: int| 0 <= i < g.len() implies ({
                        let m = #[trigger] g[i];
                        pos@.legal(m) && m.is_spread() && !bb.contains(m.sq().index())
                    }) by {
                        if i < g0.len() {
                            assert(before[old(dst)@.len() + i] == dst@.subrange(
                                0,
                                before.len() as int,
                            )[old(dst)@.len() + i]);
                            assert(g[i] == g0[i]);
                        } else {
                            assert(g[i] == g1[i - g0.len()]);
                        }
                    }
                    assert forall|mv: Move|
                        pos@.legal(mv) && mv.is_spread() && !bb.contains(mv.sq().index())
                        implies #[trigger] holds(g, mv) by {
                        lemma_added_grows(old(dst)@, before, dst@, mv);
                        lemma_move_fields(mv);
                    }
                }
            },
        }
    }
}

/// Adds to `dst` every legal move of `pos`, each once, and nothing
/// else, in the order of generation: what is added is the one list that is
/// generated for `pos`.
pub fn generate_moves(dst: &mut Vec<Move>, pos: &Position)
    requires
        pos.wf(),
    ensures
        extends(old(dst)@, final(dst)@),
        forall|i: int|
            0 <= i < added(old(dst)@, final(dst)@).len() ==> pos@.legal(
                #[trigger] added(old(dst)@, final(dst)@)[i],
            ),
        forall|mv: Move| pos@.legal(mv) ==> #[trigger] holds(added(old(dst)@, final(dst)@), mv),
        no_repeat(added(old(dst)@, final(dst)@)),
        in_order(pos, added(old(dst)@, final(dst)@)),
        generated(pos, added(old(dst)@, final(dst)@)),
{
    if pos.ply() < 2 {
        generate_starting_moves(dst, pos);
        return ;
    }
    generate_placements(dst, pos);
    let ghost mid = dst@;
    generate_spreads(dst, pos);
    proof {
        let g0 = added(old(dst)@, mid);
        let g1 = added(mid, dst@);
        let g = added(old(dst)@, dst@);
        lemma_added_grows(old(dst)@, mid, dst@, spread_of(Square { raw: 0 }, Direction::Up, 1));
        assert forall|i: int, j: int| 0 <= i < g0.len() && 0 <= j < g1.len() implies g0[i]
            != g1[j] by {
            assert(!g0[i].is_spread());
            assert(g1[j].is_spread());
        }
        lemma_no_repeat_grows(old(dst)@, mid, dst@);
        assert forall|i: int, j: int| 0 <= i < g0.len() && 0 <= j < g1.len() implies order_key(
            pos,
            g0[i],
        ) < order_key(pos, g1[j]) by {
            assert(pos@.legal(g0[i]) && !g0[i].is_spread());
            assert(pos@.legal(g1[j]) && g1[j].is_spread());
            lemma_move_fields(g0[i]);
            lemma_move_fields(g1[j]);
        }
        lemma_in_order_grows(pos, old(dst)@, mid, dst@);
        assert forall|i: int| 0 <= i < g.len() implies pos@.legal(#[trigger] g[i]) by {
            if i < g0.len() {
                assert(mid[old(dst)@.len() + i] == dst@.subrange(0, mid.len() as int)[old(dst)@.len()
                    + i]);
                assert(g[i] == g0[i]);
            } else {
                assert(g[i] == g1[i - g0.len()]);
            }
        }
        assert forall|mv: Move| pos@.legal(mv) implies #[trigger] holds(g, mv) by {
            lemma_added_grows(old(dst)@, mid, dst@, mv);
        }
    }
}

/// Adds to `dst` what `generate_moves` adds: every legal move of `pos`,
/// each once, and nothing else, in the order of generation.
pub fn generate_moves_into(dst: &mut Vec<Move>, pos: &Position)
    requires
        pos.wf(),
    ensures
        extends(old(dst)@, final(dst)@),
        forall|i: int|
            0 <= i < added(old(dst)@, final(dst)@).len() ==> pos@.legal(
                #[trigger] added(old(dst)@, final(dst)@)[i],
            ),
        forall|mv: Move| pos@.legal(mv) ==> #[trigger] holds(added(old(dst)@, final(dst)@), mv),
        no_repeat(added(old(dst)@, final(dst)@)),
        in_order(pos, added(old(dst)@, final(dst)@)),
        generated(pos, added(old(dst)@, final(dst)@)),
{
    generate_moves(dst, pos);
}


/// The moves generated are the legal moves: a list whose every move is
/// legal and that holds every legal move holds a move exactly when the move
/// is what `is_legal` accepts.
pub proof fn lemma_generated_are_the_legal(pos: &Position, generated: Seq<Move>, mv: Move)
    requires
        forall|i: int| 0 <= i < generated.len() ==> pos@.legal(#[trigger] generated[i]),
        forall|m: Move| pos@.legal(m) ==> #[trigger] holds(generated, m),
    ensures
        holds(generated, mv) <==> pos@.legal(mv),
{
    if holds(generated, mv) {
        let i = choose|i: int| 0 <= i < generated.len() && generated[i] == mv;
        assert(pos@.legal(generated[i]));
    }
}

/// After the first two moves, and while a square is empty, a flat or a
/// wall can be placed exactly when the side to move has a flat in hand, and
/// a capstone exactly when it has a capstone in hand.
pub proof fn lemma_placements_follow_hand(pos: &Position, empty: int)
    requires
        pos.wf(),
        pos.ply >= 2,
        0 <= empty < 36,
        pos.stacks.heights[empty] == 0,
    ensures
        (exists|mv: Move|
            pos@.legal(mv) && !mv.is_spread() && (#[trigger] mv.pt()) != PieceType::Capstone)
            <==> pos.flats_in_hand[pos.stm.index()] > 0,
        (exists|mv: Move|
            pos@.legal(mv) && !mv.is_spread() && (#[trigger] mv.pt()) == PieceType::Capstone)
            <==> pos.caps_in_hand[pos.stm.index()] > 0,
{
    let sq = Square { raw: empty as u8 };
    let flat = placement_of(PieceType::Flat, sq);
    let cap = placement_of(PieceType::Capstone, sq);
    assert(pos@.stacks[empty] == pos.stacks.view_at(empty));
    assert(pos@.flats[pos.stm.index()] == pos.flats_in_hand[pos.stm.index()]);
    assert(pos@.caps[pos.stm.index()] == pos.caps_in_hand[pos.stm.index()]);
    assert(flat.wf() && !flat.is_spread() && flat.sq() == sq && flat.pt() == PieceType::Flat);
    assert(cap.wf() && !cap.is_spread() && cap.sq() == sq && cap.pt() == PieceType::Capstone);
    if pos.flats_in_hand[pos.stm.index()] > 0 {
        assert(pos@.legal(flat) && flat.pt() != PieceType::Capstone);
    }
    if pos.caps_in_hand[pos.stm.index()] > 0 {
        assert(pos@.legal(cap) && cap.pt() == PieceType::Capstone);
    }
}

} // verus!
