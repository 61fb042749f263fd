use vstd::prelude::*;
use crate::bitboard::Bitboard;
use crate::bits::{bit, lemma_low_bit};
use crate::board::{owner_of_bit, StackView};
use crate::fold::{lemma_sum_le, lemma_sum_upto_zero};
use crate::road::{lemma_halve, lemma_halved_top};
use crate::position::{
    board_caps,
    board_tiles,
    cap_of,
    cap_of_fn,
    lemma_board_caps_update,
    lemma_board_tiles_update,
    lemma_tiles_of_split,
    tiles_of,
    tiles_of_fn,
    Position,
    PositionView,
};
use crate::tps::{
    cell_len,
    cell_square,
    cell_text,
    cells_text,
    decimal,
    gap_len,
    lemma_gap_len,
    more_gap,
    parse_tps,
    tile_char,
    tile_owner,
    tiles_text,
    top_text,
    tps_run,
    tps_text,
    TpsPhase,
    TpsState,
    CH_CAP,
    CH_COMMA,
    CH_GAP,
    CH_SLASH,
    CH_SPACE,
    CH_WALL,
    CH_ZERO,
    MAX_MOVE_NUMBER,
};
use crate::types::{PieceType, Player};

verus! {

/// The state after the characters `s`, read from the state `st` on, if
/// the text may go on with them.
pub open spec fn run_from(st: TpsState, s: Seq<u8>) -> Option<TpsState>
    decreases s.len(),
{
    if s.len() == 0 {
        Some(st)
    } else {
        match run_from(st, s.drop_last()) {
            Some(x) => x.step(s.last()),
            None => None,
        }
    }
}

proof fn lemma_run_is_run_from(s: Seq<u8>, n: int)
    requires
        0 <= n <= s.len(),
    ensures
        tps_run(s, n) == run_from(TpsState::start(), s.subrange(0, n)),
    decreases n,
{
    if n > 0 {
        lemma_run_is_run_from(s, n - 1);
        assert(s.subrange(0, n).drop_last() =~= s.subrange(0, n - 1));
    }
}

proof fn lemma_run_joined(st: TpsState, a: Seq<u8>, b: Seq<u8>)
    ensures
        run_from(st, a + b) == match run_from(st, a) {
            Some(x) => run_from(x, b),
            None => None,
        },
    decreases b.len(),
{
    if b.len() == 0 {
        assert(a + b =~= a);
    } else {
        lemma_run_joined(st, a, b.drop_last());
        assert((a + b).drop_last() =~= a + b.drop_last());
    }
}

proof fn lemma_run_one(st: TpsState, c: u8)
    ensures
        run_from(st, seq![c]) == st.step(c),
{
    assert(seq![c].drop_last() =~= Seq::<u8>::empty());
    assert(run_from(st, seq![c].drop_last()) == Some(st));
}

/// The stacks `b` as far as the squares read before the `t`-th go; the
/// other squares are empty.
pub open spec fn read_before(b: Seq<StackView>, t: int) -> Seq<StackView> {
    Seq::new(
        36,
        |i: int|
            if cell_square(i) < t {
                b[i]
            } else {
                StackView::empty()
            },
    )
}

/// The state in which the squares before the `t`-th are read.
pub open spec fn at_cell(b: Seq<StackView>, t: int, phase: TpsPhase) -> TpsState {
    TpsState {
        phase,
        filled: t,
        stacks: read_before(b, t),
        caps: seq![
            board_caps(read_before(b, t), Player::P1),
            board_caps(read_before(b, t), Player::P2),
        ],
        stm: Player::P1,
        number: 0,
    }
}

/// What the stacks of a well-formed position are: 36 stacks, each
/// empty exactly if it has no top; of each player at most 31 tiles and at
/// most one capstone.
pub open spec fn board_ok(b: Seq<StackView>) -> bool {
    &&& b.len() == 36
    &&& forall|i: int| 0 <= i < 36 ==> (#[trigger] b[i]).wf()
    &&& board_tiles(b, Player::P1) <= 31
    &&& board_tiles(b, Player::P2) <= 31
    &&& board_caps(b, Player::P1) <= 1
    &&& board_caps(b, Player::P2) <= 1
}

/// A board of which less is read has no more tiles and capstones.
proof fn lemma_partial_counts(b: Seq<StackView>, x: Seq<StackView>, p: Player)
    requires
        b.len() == 36,
        x.len() == 36,
        forall|i: int|
            0 <= i < 36 ==> 0 <= tiles_of((#[trigger] x[i]).tiles, p) <= tiles_of(b[i].tiles, p),
        forall|i: int| 0 <= i < 36 ==> cap_of(#[trigger] x[i], p) <= cap_of(b[i], p),
    ensures
        0 <= board_tiles(x, p) <= board_tiles(b, p),
        0 <= board_caps(x, p) <= board_caps(b, p),
{
    let zero = |i: int| 0int;
    lemma_sum_upto_zero(zero, 36);
    assert forall|j: int| 0 <= j < 36 implies #[trigger] tiles_of_fn(x, p)(j) <= tiles_of_fn(b, p)(
        j,
    ) by {
        assert(tiles_of(x[j].tiles, p) <= tiles_of(b[j].tiles, p));
    }
    lemma_sum_le(tiles_of_fn(x, p), tiles_of_fn(b, p), 36);
    assert forall|j: int| 0 <= j < 36 implies #[trigger] zero(j) <= tiles_of_fn(x, p)(j) by {
        assert(0 <= tiles_of(x[j].tiles, p));
    }
    lemma_sum_le(zero, tiles_of_fn(x, p), 36);
    assert forall|j: int| 0 <= j < 36 implies #[trigger] cap_of_fn(x, p)(j) <= cap_of_fn(b, p)(j) by {
        assert(cap_of(x[j], p) <= cap_of(b[j], p));
    }
    lemma_sum_le(cap_of_fn(x, p), cap_of_fn(b, p), 36);
    assert forall|j: int| 0 <= j < 36 implies #[trigger] zero(j) <= cap_of_fn(x, p)(j) by {}
    lemma_sum_le(zero, cap_of_fn(x, p), 36);
}

/// The part of a stack that is read, with a flat on top.
pub open spec fn stack_so_far(sv: StackView, k: int) -> StackView {
    StackView { tiles: sv.tiles.subrange(0, k), top: Some(PieceType::Flat) }
}

/// The state in which the squares before the `t`-th are read, and `k`
/// tiles of the stack on the `t`-th.
pub open spec fn in_stack(b: Seq<StackView>, t: int, k: int) -> TpsState {
    TpsState {
        phase: TpsPhase::Tiles,
        filled: t + 1,
        stacks: read_before(b, t).update(cell_square(t), stack_so_far(b[cell_square(t)], k)),
        ..at_cell(b, t, TpsPhase::CellStart)
    }
}

proof fn lemma_partial_stack_counts(b: Seq<StackView>, t: int, k: int, p: Player)
    requires
        board_ok(b),
        0 <= t < 36,
        0 <= k <= b[cell_square(t)].tiles.len(),
    ensures
        0 <= board_tiles(in_stack(b, t, k).stacks, p) <= board_tiles(b, p),
        0 <= board_tiles(read_before(b, t), p) <= board_tiles(b, p),
        0 <= board_caps(read_before(b, t), p) <= board_caps(b, p),
        0 <= board_caps(read_before(b, t + 1), p) <= board_caps(b, p),
{
    let x = in_stack(b, t, k).stacks;
    let sq = cell_square(t);
    assert forall|i: int| 0 <= i < 36 implies 0 <= tiles_of((#[trigger] x[i]).tiles, p) <= tiles_of(
        b[i].tiles,
        p,
    ) && cap_of(x[i], p) <= cap_of(b[i], p) by {
        lemma_tiles_of_split(b[i].tiles, 0, p);
        if i == sq {
            lemma_tiles_of_split(b[i].tiles, k, p);
            lemma_tiles_of_split(b[i].tiles.subrange(k, b[i].tiles.len() as int), 0, p);
            lemma_tiles_of_split(b[i].tiles.subrange(0, k), 0, p);
            assert(x[i] == stack_so_far(b[sq], k));
        } else {
            assert(x[i] == read_before(b, t)[i]);
            lemma_tiles_of_split(x[i].tiles, 0, p);
        }
    }
    lemma_partial_counts(b, x, p);
    let y = read_before(b, t);
    assert forall|i: int| 0 <= i < 36 implies 0 <= tiles_of((#[trigger] y[i]).tiles, p) <= tiles_of(
        b[i].tiles,
        p,
    ) && cap_of(y[i], p) <= cap_of(b[i], p) by {
        lemma_tiles_of_split(b[i].tiles, 0, p);
        lemma_tiles_of_split(y[i].tiles, 0, p);
    }
    lemma_partial_counts(b, y, p);
    let z = read_before(b, t + 1);
    assert forall|i: int| 0 <= i < 36 implies 0 <= tiles_of((#[trigger] z[i]).tiles, p) <= tiles_of(
        b[i].tiles,
        p,
    ) && cap_of(z[i], p) <= cap_of(b[i], p) by {
        lemma_tiles_of_split(b[i].tiles, 0, p);
        lemma_tiles_of_split(z[i].tiles, 0, p);
    }
    lemma_partial_counts(b, z, p);
}

/// Reading the first `k` tiles of the stack on the `t`-th square.
proof fn lemma_read_tiles(b: Seq<StackView>, t: int, k: int)
    requires
        board_ok(b),
        0 <= t < 36,
        1 <= k <= b[cell_square(t)].tiles.len(),
    ensures
        run_from(
            at_cell(b, t, TpsPhase::CellStart),
            tiles_text(b[cell_square(t)].tiles).subrange(0, k),
        ) == Some(in_stack(b, t, k)),
    decreases k,
{
    let sq = cell_square(t);
    let sv = b[sq];
    let text = tiles_text(sv.tiles);
    let owner = sv.tiles[k - 1];
    let c = tile_char(owner);
    let start = at_cell(b, t, TpsPhase::CellStart);
    let before = in_stack(b, t, k - 1);
    let after = in_stack(b, t, k);
    lemma_partial_stack_counts(b, t, k, owner);
    lemma_partial_stack_counts(b, t, k - 1, owner);
    assert(tile_owner(c) == owner);
    assert(text.subrange(0, k) =~= text.subrange(0, k - 1) + seq![c]);
    lemma_run_joined(start, text.subrange(0, k - 1), seq![c]);
    // The board with one tile more of the stack.
    let grown = before.stacks.update(
        sq,
        before.stacks[sq].with_on_top(seq![owner], PieceType::Flat),
    );
    assert(before.stacks[sq].tiles + seq![owner] =~= sv.tiles.subrange(0, k));
    assert(grown =~= after.stacks);
    lemma_board_tiles_update(
        before.stacks,
        sq,
        before.stacks[sq].with_on_top(seq![owner], PieceType::Flat),
        owner,
    );
    assert(sv.tiles.subrange(0, k).drop_last() =~= sv.tiles.subrange(0, k - 1));
    assert(board_tiles(before.stacks, owner) < 31);
    if k == 1 {
        assert(text.subrange(0, 0) =~= Seq::<u8>::empty());
        lemma_run_one(start, c);
        assert(read_before(b, t)[sq] == StackView::empty());
        assert(sv.tiles.subrange(0, 0) =~= Seq::<Player>::empty());
        // From the start of the cell the first tile is set on the empty square.
        let opened = TpsState { filled: t + 1, ..start };
        assert(opened.stacks.update(
            sq,
            opened.stacks[sq].with_on_top(seq![owner], PieceType::Flat),
        ) =~= after.stacks) by {
            assert(opened.stacks[sq].tiles + seq![owner] =~= sv.tiles.subrange(0, 1));
        }
        lemma_same_tiles_board(opened.stacks, before.stacks, owner);
        assert(start.step(c) == Some(after));
    } else {
        lemma_read_tiles(b, t, k - 1);
        lemma_run_one(before, c);
        assert(before.step(c) == Some(after));
    }
}

/// Two boards whose stacks hold the same tiles have the same number of tiles.
proof fn lemma_same_tiles_board(x: Seq<StackView>, y: Seq<StackView>, p: Player)
    requires
        x.len() == 36,
        y.len() == 36,
        forall|i: int| 0 <= i < 36 ==> (#[trigger] x[i]).tiles =~= y[i].tiles,
    ensures
        board_tiles(x, p) == board_tiles(y, p),
{
    assert forall|j: int| 0 <= j < 36 implies #[trigger] tiles_of_fn(x, p)(j) == tiles_of_fn(y, p)(
        j,
    ) by {
        assert(x[j].tiles =~= y[j].tiles);
    }
    crate::fold::lemma_sum_upto_same(tiles_of_fn(x, p), tiles_of_fn(y, p), 36);
}


/// The phase in which the reader stands after the cell that begins with the `t`-th square.
pub open spec fn phase_after_cell(b: Seq<StackView>, t: int) -> TpsPhase {
    let sv = b[cell_square(t)];
    if sv.tiles.len() == 0 {
        if gap_len(b, t) == 1 {
            TpsPhase::Gap
        } else {
            TpsPhase::GapCounted
        }
    } else if sv.top == Some(PieceType::Flat) {
        TpsPhase::Tiles
    } else {
        TpsPhase::Topped
    }
}

/// Reading one square more of a board changes the counts by that square.
proof fn lemma_read_one_more(b: Seq<StackView>, t: int, p: Player)
    requires
        board_ok(b),
        0 <= t < 36,
    ensures
        read_before(b, t + 1) == read_before(b, t).update(cell_square(t), b[cell_square(t)]),
        board_caps(read_before(b, t + 1), p) == board_caps(read_before(b, t), p) + cap_of(
            b[cell_square(t)],
            p,
        ),
{
    let sq = cell_square(t);
    assert(read_before(b, t + 1) =~= read_before(b, t).update(sq, b[sq]));
    lemma_board_caps_update(read_before(b, t), sq, b[sq], p);
}

/// Reading the cell of a stack.
proof fn lemma_read_stack(b: Seq<StackView>, t: int)
    requires
        board_ok(b),
        0 <= t < 36,
        b[cell_square(t)].tiles.len() > 0,
    ensures
        run_from(at_cell(b, t, TpsPhase::CellStart), cell_text(b, t)) == Some(
            at_cell(b, t + 1, phase_after_cell(b, t)),
        ),
{
    let sq = cell_square(t);
    let sv = b[sq];
    let h = sv.tiles.len() as int;
    let start = at_cell(b, t, TpsPhase::CellStart);
    let read = in_stack(b, t, h);
    let done = at_cell(b, t + 1, phase_after_cell(b, t));
    let owner = sv.owner();
    assert(sv.wf());
    lemma_read_tiles(b, t, h);
    assert(tiles_text(sv.tiles).subrange(0, h) =~= tiles_text(sv.tiles));
    lemma_run_joined(start, tiles_text(sv.tiles), top_text(sv.top));
    lemma_read_one_more(b, t, Player::P1);
    lemma_read_one_more(b, t, Player::P2);
    lemma_partial_stack_counts(b, t, h, Player::P1);
    lemma_partial_stack_counts(b, t, h, Player::P2);
    assert(sv.tiles.subrange(0, h) =~= sv.tiles);
    assert(read.stacks[sq] == stack_so_far(sv, h));
    match sv.top {
        Some(PieceType::Flat) => {
            assert(top_text(sv.top) =~= Seq::<u8>::empty());
            assert(stack_so_far(sv, h) == sv);
            assert(read.stacks =~= done.stacks);
            assert(read.caps =~= done.caps);
        },
        Some(PieceType::Wall) => {
            assert(top_text(sv.top) =~= seq![CH_WALL]);
            lemma_run_one(read, CH_WALL);
            let topped = read.stacks.update(
                sq,
                StackView { tiles: read.stacks[sq].tiles, top: Some(PieceType::Wall) },
            );
            assert(topped =~= done.stacks);
            assert(read.caps =~= done.caps);
            assert(read.step(CH_WALL) == Some(done));
        },
        Some(PieceType::Capstone) => {
            assert(top_text(sv.top) =~= seq![CH_CAP]);
            lemma_run_one(read, CH_CAP);
            let topped = read.stacks.update(
                sq,
                StackView { tiles: read.stacks[sq].tiles, top: Some(PieceType::Capstone) },
            );
            assert(topped =~= done.stacks);
            assert(read.stacks[sq].owner() == owner);
            assert(cap_of(sv, owner) == 1);
            assert(cap_of(sv, owner.flipped()) == 0);
            assert(read.caps[owner.index()] == 0);
            assert(read.caps.update(owner.index(), 1) =~= done.caps);
            assert(read.step(CH_CAP) == Some(done));
        },
        None => {},
    }
}

/// The squares of a row of empty squares are empty.
proof fn lemma_gap_is_empty(b: Seq<StackView>, t: int, u: int)
    requires
        board_ok(b),
        0 <= t < 36,
        b[cell_square(t)].tiles.len() == 0,
        t <= u < t + gap_len(b, t),
    ensures
        0 <= u < 36,
        b[cell_square(u)] == StackView::empty(),
    decreases u - t,
{
    lemma_gap_len(b, t);
    if u == t {
        assert(b[cell_square(t)].wf());
        assert(b[cell_square(t)].tiles =~= Seq::<Player>::empty());
    } else {
        assert(more_gap(b, t) >= 1);
        lemma_gap_is_empty(b, t + 1, u);
    }
}

/// Reading the cell of a row of empty squares.
proof fn lemma_read_gap(b: Seq<StackView>, t: int)
    requires
        board_ok(b),
        0 <= t < 36,
        b[cell_square(t)].tiles.len() == 0,
    ensures
        run_from(at_cell(b, t, TpsPhase::CellStart), cell_text(b, t)) == Some(
            at_cell(b, t + gap_len(b, t), phase_after_cell(b, t)),
        ),
        t + gap_len(b, t) <= 36,
{
    let g = gap_len(b, t);
    let start = at_cell(b, t, TpsPhase::CellStart);
    let done = at_cell(b, t + g, phase_after_cell(b, t));
    lemma_gap_len(b, t);
    assert(read_before(b, t + g) =~= read_before(b, t)) by {
        assert forall|i: int| 0 <= i < 36 implies read_before(b, t + g)[i] == read_before(b, t)[i] by {
            let u = cell_square(i);
            if t <= u < t + g {
                lemma_gap_is_empty(b, t, u);
                assert(cell_square(u) == i);
            }
        }
    }
    assert(start.caps =~= done.caps);
    lemma_run_one(start, CH_GAP);
    let opened = TpsState { phase: TpsPhase::Gap, filled: t + 1, ..start };
    assert(start.step(CH_GAP) == Some(opened));
    if g == 1 {
        assert(cell_text(b, t) =~= seq![CH_GAP]);
        assert(opened == done);
    } else {
        let digit = (CH_ZERO + g) as u8;
        assert(cell_text(b, t) =~= seq![CH_GAP] + seq![digit]);
        lemma_run_joined(start, seq![CH_GAP], seq![digit]);
        lemma_run_one(opened, digit);
        assert(opened.step(digit) == Some(done));
    }
}

/// Reading a cell.
proof fn lemma_read_cell(b: Seq<StackView>, t: int)
    requires
        board_ok(b),
        0 <= t < 36,
    ensures
        run_from(at_cell(b, t, TpsPhase::CellStart), cell_text(b, t)) == Some(
            at_cell(b, t + cell_len(b, t), phase_after_cell(b, t)),
        ),
        t < t + cell_len(b, t) <= 36,
        (t + cell_len(b, t)) / 6 == t / 6 || (t + cell_len(b, t)) % 6 == 0,
        phase_after_cell(b, t) == TpsPhase::Gap || phase_after_cell(b, t) == TpsPhase::GapCounted
            || phase_after_cell(b, t) == TpsPhase::Tiles || phase_after_cell(b, t)
            == TpsPhase::Topped,
{
    lemma_gap_len(b, t);
    if b[cell_square(t)].tiles.len() == 0 {
        lemma_read_gap(b, t);
    } else {
        lemma_read_stack(b, t);
    }
}

/// Reading the board from the `t`-th square on, and the space after it.
proof fn lemma_read_cells(b: Seq<StackView>, t: int)
    requires
        board_ok(b),
        0 <= t < 36,
    ensures
        run_from(at_cell(b, t, TpsPhase::CellStart), cells_text(b, t) + seq![CH_SPACE]) == Some(
            at_cell(b, 36, TpsPhase::Side),
        ),
    decreases 36 - t,
{
    let start = at_cell(b, t, TpsPhase::CellStart);
    let next = t + cell_len(b, t);
    let cell = at_cell(b, next, phase_after_cell(b, t));
    lemma_read_cell(b, t);
    if next >= 36 {
        assert(cells_text(b, t) + seq![CH_SPACE] =~= cell_text(b, t) + seq![CH_SPACE]);
        lemma_run_joined(start, cell_text(b, t), seq![CH_SPACE]);
        lemma_run_one(cell, CH_SPACE);
        assert(cell.step(CH_SPACE) == Some(at_cell(b, 36, TpsPhase::Side)));
    } else {
        let sep = if next % 6 == 0 {
            CH_SLASH
        } else {
            CH_COMMA
        };
        let rest = cells_text(b, next) + seq![CH_SPACE];
        assert(cells_text(b, t) + seq![CH_SPACE] =~= cell_text(b, t) + (seq![sep] + rest));
        lemma_run_joined(start, cell_text(b, t), seq![sep] + rest);
        lemma_run_joined(cell, seq![sep], rest);
        lemma_run_one(cell, sep);
        assert(cell.step(sep) == Some(at_cell(b, next, TpsPhase::CellStart)));
        lemma_read_cells(b, next);
    }
}

/// Reading the digits of the number `n`.
proof fn lemma_read_number(st: TpsState, n: int)
    requires
        st.phase == TpsPhase::NumberStart,
        st.number == 0,
        0 <= n <= MAX_MOVE_NUMBER,
    ensures
        run_from(st, decimal(n)) == Some(TpsState { phase: TpsPhase::Number, number: n, ..st }),
    decreases n,
{
    let done = TpsState { phase: TpsPhase::Number, number: n, ..st };
    if n < 10 {
        let c = (CH_ZERO + n) as u8;
        assert(decimal(n) =~= seq![c]);
        lemma_run_one(st, c);
        assert(st.step(c) == Some(done));
    } else {
        let c = (CH_ZERO + n % 10) as u8;
        let before = TpsState { phase: TpsPhase::Number, number: n / 10, ..st };
        lemma_read_number(st, n / 10);
        assert(decimal(n) =~= decimal(n / 10) + seq![c]);
        lemma_run_joined(st, decimal(n / 10), seq![c]);
        lemma_run_one(before, c);
        assert(before.step(c) == Some(done));
    }
}

/// The text of a position is read back as the position.
pub proof fn lemma_text_round_trip(pos: &Position)
    requires
        pos.wf(),
    ensures
        parse_tps(tps_text(pos@)) == Some(pos@),
{
    let v = pos@;
    let b = v.stacks;
    let n = v.ply as int / 2 + 1;
    let text = tps_text(v);
    let start = TpsState::start();
    assert(board_ok(b)) by {
        assert forall|i: int| 0 <= i < 36 implies (#[trigger] b[i]).wf() by {
            assert(b[i] == pos.stacks.view_at(i));
        }
        lemma_partial_stack_counts_of(b);
    }
    assert(start == at_cell(b, 0, TpsPhase::CellStart)) by {
        assert(read_before(b, 0) =~= start.stacks);
        let x = read_before(b, 0);
        assert forall|j: int| 0 <= j < 36 implies #[trigger] cap_of_fn(x, Player::P1)(j) == 0 by {}
        lemma_sum_upto_zero(cap_of_fn(x, Player::P1), 36);
        assert forall|j: int| 0 <= j < 36 implies #[trigger] cap_of_fn(x, Player::P2)(j) == 0 by {}
        lemma_sum_upto_zero(cap_of_fn(x, Player::P2), 36);
        assert(start.caps =~= at_cell(b, 0, TpsPhase::CellStart).caps);
    }
    let board = cells_text(b, 0) + seq![CH_SPACE];
    let side = tile_char(v.stm);
    let tail = seq![side] + (seq![CH_SPACE] + decimal(n));
    assert(text =~= board + tail);
    lemma_read_cells(b, 0);
    let read = at_cell(b, 36, TpsPhase::Side);
    assert(read_before(b, 36) =~= b);
    lemma_run_joined(start, board, tail);
    lemma_run_joined(read, seq![side], seq![CH_SPACE] + decimal(n));
    lemma_run_one(read, side);
    let sided = TpsState { phase: TpsPhase::SideDone, stm: v.stm, ..read };
    assert(tile_owner(side) == v.stm);
    assert(read.step(side) == Some(sided));
    lemma_run_joined(sided, seq![CH_SPACE], decimal(n));
    lemma_run_one(sided, CH_SPACE);
    let numbering = TpsState { phase: TpsPhase::NumberStart, ..sided };
    assert(sided.step(CH_SPACE) == Some(numbering));
    lemma_read_number(numbering, n);
    let last = TpsState { phase: TpsPhase::Number, number: n, ..numbering };
    lemma_run_is_run_from(text, text.len() as int);
    assert(text.subrange(0, text.len() as int) =~= text);
    assert(tps_run(text, text.len() as int) == Some(last));
    assert(v.flats[0] == pos.flats_in_hand[0] && v.flats[1] == pos.flats_in_hand[1]);
    assert(v.caps[0] == pos.caps_in_hand[0] && v.caps[1] == pos.caps_in_hand[1]);
    let got = last.finish().unwrap();
    assert(got.flats =~= v.flats);
    assert(got.caps =~= v.caps);
}

/// The counts of a well-formed position's stacks.
proof fn lemma_partial_stack_counts_of(b: Seq<StackView>)
    requires
        b.len() == 36,
    ensures
        0 <= board_tiles(b, Player::P1),
        0 <= board_tiles(b, Player::P2),
        0 <= board_caps(b, Player::P1),
        0 <= board_caps(b, Player::P2),
{
    crate::position::lemma_height_le_board(b, 0);
    let zero = |i: int| 0int;
    lemma_sum_upto_zero(zero, 36);
    assert forall|j: int| 0 <= j < 36 implies #[trigger] zero(j) <= cap_of_fn(b, Player::P1)(j) by {}
    lemma_sum_le(zero, cap_of_fn(b, Player::P1), 36);
    assert forall|j: int| 0 <= j < 36 implies #[trigger] zero(j) <= cap_of_fn(b, Player::P2)(j) by {}
    lemma_sum_le(zero, cap_of_fn(b, Player::P2), 36);
}


/// Two words with the same bits are the same word.
pub proof fn lemma_same_bits(x: u64, y: u64, k: int)
    requires
        0 <= k <= 64,
        forall|j: int| 0 <= j < k ==> bit(x, j) == bit(y, j),
        k < 64 ==> x >> (k as u64) == 0 && y >> (k as u64) == 0,
    ensures
        x == y,
    decreases k,
{
    if k == 0 {
        lemma_halved_top(x, 63);
        lemma_halved_top(y, 63);
    } else {
        lemma_halve(x, 0);
        lemma_halve(y, 0);
        lemma_low_bit(x, 0);
        lemma_low_bit(y, 0);
        assert(bit(x, 0) == bit(y, 0));
        let hx = (x / 2) as u64;
        let hy = (y / 2) as u64;
        assert forall|j: int| 0 <= j < k - 1 implies #[trigger] bit(hx, j) == bit(hy, j) by {
            lemma_halve(x, j as u64);
            lemma_halve(y, j as u64);
            assert(bit(x, j + 1) == bit(y, j + 1));
        }
        lemma_halved_top(x, (k - 1) as u64);
        lemma_halved_top(y, (k - 1) as u64);
        lemma_same_bits(x / 2, y / 2, k - 1);
    }
}

/// Two sets with the same squares are the same set.
pub proof fn lemma_same_squares(a: Bitboard, b: Bitboard)
    requires
        a.wf(),
        b.wf(),
        forall|i: int| 0 <= i < 36 ==> (a.contains(i) <==> b.contains(i)),
    ensures
        a == b,
{
    let x = a.raw;
    let y = b.raw;
    assert(x >> 36 == 0 && y >> 36 == 0) by (bit_vector)
        requires
            x <= 0xf_ffff_ffff,
            y <= 0xf_ffff_ffff,
    ;
    assert forall|j: int| 0 <= j < 36 implies bit(x, j) == bit(y, j) by {
        assert(a.contains(j) <==> b.contains(j));
    }
    lemma_same_bits(x, y, 36);
}

/// A well-formed position is known by its plain values: two that have
/// the same are the same.
pub proof fn lemma_known_by_view(a: &Position, b: &Position)
    requires
        a.wf(),
        b.wf(),
        a@ == b@,
    ensures
        *a == *b,
{
    assert forall|i: int| 0 <= i < 36 implies a.stacks.heights[i] == b.stacks.heights[i]
        && a.stacks.players[i] == b.stacks.players[i] && a.stacks.tops[i] == b.stacks.tops[i] by {
        let x = a.stacks.view_at(i);
        let y = b.stacks.view_at(i);
        assert(a@.stacks[i] == x);
        assert(b@.stacks[i] == y);
        assert(x.tiles.len() == y.tiles.len());
        let h = a.stacks.heights[i] as int;
        assert forall|j: int| 0 <= j < h implies bit(a.stacks.players[i], j) == bit(
            b.stacks.players[i],
            j,
        ) by {
            assert(x.tiles[j] == y.tiles[j]);
            assert(x.tiles[j] == owner_of_bit(a.stacks.players[i], j));
            assert(y.tiles[j] == owner_of_bit(b.stacks.players[i], j));
        }
        lemma_same_bits(a.stacks.players[i], b.stacks.players[i], h);
    }
    assert(a.stacks.heights@ =~= b.stacks.heights@);
    assert(a.stacks.players@ =~= b.stacks.players@);
    assert(a.stacks.tops@ =~= b.stacks.tops@);
    assert(a.stacks.heights == b.stacks.heights);
    assert(a.stacks.players == b.stacks.players);
    assert(a.stacks.tops == b.stacks.tops);
    assert(a.stacks == b.stacks);
    assert forall|i: int| 0 <= i < 36 implies (a.player_bb[0].contains(i) <==> b.player_bb[0].contains(
        i,
    )) && (a.player_bb[1].contains(i) <==> b.player_bb[1].contains(i)) && (a.type_bb[0].contains(i)
        <==> b.type_bb[0].contains(i)) && (a.type_bb[1].contains(i) <==> b.type_bb[1].contains(i))
        && (a.type_bb[2].contains(i) <==> b.type_bb[2].contains(i)) by {
        assert(a.square_ok(a.stacks@[i], i));
        assert(b.square_ok(b.stacks@[i], i));
    }
    lemma_same_squares(a.player_bb[0], b.player_bb[0]);
    lemma_same_squares(a.player_bb[1], b.player_bb[1]);
    lemma_same_squares(a.type_bb[0], b.type_bb[0]);
    lemma_same_squares(a.type_bb[1], b.type_bb[1]);
    lemma_same_squares(a.type_bb[2], b.type_bb[2]);
    assert(a.player_bb@ =~= b.player_bb@);
    assert(a.type_bb@ =~= b.type_bb@);
    assert(a.player_bb == b.player_bb);
    assert(a.type_bb == b.type_bb);
    assert(a@.flats[0] == a.flats_in_hand[0] && a@.flats[1] == a.flats_in_hand[1]);
    assert(b@.flats[0] == b.flats_in_hand[0] && b@.flats[1] == b.flats_in_hand[1]);
    assert(a@.caps[0] == a.caps_in_hand[0] && a@.caps[1] == a.caps_in_hand[1]);
    assert(b@.caps[0] == b.caps_in_hand[0] && b@.caps[1] == b.caps_in_hand[1]);
    assert(a.flats_in_hand@ =~= b.flats_in_hand@);
    assert(a.caps_in_hand@ =~= b.caps_in_hand@);
    assert(a.flats_in_hand == b.flats_in_hand);
    assert(a.caps_in_hand == b.caps_in_hand);
}

/// A position written as text and read back is the same position.
pub proof fn lemma_position_round_trip(pos: &Position, back: &Position)
    requires
        pos.wf(),
        back.wf(),
        parse_tps(tps_text(pos@)) == Some(back@),
    ensures
        *back == *pos,
{
    lemma_text_round_trip(pos);
    lemma_known_by_view(back, pos);
}

} // verus!
