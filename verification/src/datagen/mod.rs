use vstd::prelude::*;
use arrayvec::ArrayVec;
use crate::datagen::synpack::{ScoredMove, SynpackWriter};
use crate::keys::Keys;
use crate::limit::{current_instant, Limits};
use crate::movegen::{added, generate_moves, holds};
use crate::position::{full_key, playable, replay, Position, PositionView};
use crate::prng::Sfc64;
use crate::road::FlatCountOutcome;
use crate::search::{Searcher, MAX_PLY};
use crate::takmove::Move;
use crate::types::Player;

pub mod synpack;

verus! {

/// How a game ended for one of the players.
#[derive(Clone, Copy, Debug, PartialEq, Eq, Structural)]
pub enum GameResult {
    Loss,
    Draw,
    Win,
}

impl GameResult {
    /// The same result seen from the other side.
    pub open spec fn flipped(self) -> GameResult {
        match self {
            GameResult::Loss => GameResult::Win,
            GameResult::Draw => GameResult::Draw,
            GameResult::Win => GameResult::Loss,
        }
    }

    pub fn flip(self) -> (r: GameResult)
        ensures
            r == self.flipped(),
    {
        match self {
            GameResult::Loss => GameResult::Win,
            GameResult::Draw => GameResult::Draw,
            GameResult::Win => GameResult::Loss,
        }
    }
}

/// How often `key` occurs in `history`.
pub open spec fn key_count(history: Seq<u64>, key: u64) -> int
    decreases history.len(),
{
    if history.len() == 0 {
        0
    } else {
        key_count(history.drop_last(), key) + if history.last() == key {
            1int
        } else {
            0int
        }
    }
}

/// How often `key` occurs in `history` from the element numbered `from` on.
pub open spec fn key_count_from(history: Seq<u64>, key: u64, from: int) -> int {
    key_count(history.subrange(from, history.len() as int), key)
}

proof fn lemma_key_count_from(history: Seq<u64>, key: u64, from: int)
    requires
        0 <= from < history.len(),
    ensures
        key_count_from(history, key, from) == key_count_from(history, key, from + 1) + if history[from]
            == key {
            1int
        } else {
            0int
        },
        key_count_from(history, key, history.len() as int) == 0,
        key_count_from(history, key, 0) == key_count(history, key),
    decreases history.len() - from,
{
    let n = history.len() as int;
    assert(history.subrange(0, n) =~= history);
    let a = history.subrange(from, n);
    let b = history.subrange(from + 1, n);
    if from + 1 == n {
        assert(a.drop_last() =~= Seq::<u64>::empty());
        assert(key_count(a.drop_last(), key) == 0);
    } else {
        let shorter = history.drop_last();
        lemma_key_count_from(shorter, key, from);
        assert(a.drop_last() =~= shorter.subrange(from, n - 1));
        assert(b.drop_last() =~= shorter.subrange(from + 1, n - 1));
    }
}

/// Whether the position with the key `curr_key` has occurred often enough
/// among the positions with the keys `key_history` to make the game a draw:
/// twice if `threefold`, else once.
pub fn is_drawn_by_repetition(curr_key: u64, key_history: &[u64], threefold: bool) -> (r: bool)
    ensures
        r == (key_count(key_history@, curr_key) >= if threefold {
            2int
        } else {
            1int
        }),
{
    let required: usize = if threefold {
        2
    } else {
        1
    };
    let mut repetitions: usize = 0;
    let mut i: usize = key_history.len();
    proof {
        if key_history@.len() > 0 {
            lemma_key_count_from(key_history@, curr_key, 0);
            lemma_key_count_from(key_history@, curr_key, key_history@.len() - 1);
        } else {
            assert(key_history@.subrange(0, 0) =~= key_history@);
        }
    }
    while i > 0
        invariant
            i <= key_history@.len(),
            repetitions < required,
            required == if threefold {
                2int
            } else {
                1int
            },
            repetitions == key_count_from(key_history@, curr_key, i as int),
        decreases i,
    {
        i -= 1;
        proof {
            lemma_key_count_from(key_history@, curr_key, i as int);
        }
        if key_history[i] == curr_key {
            repetitions += 1;
            if repetitions == required {
                proof {
                    lemma_key_count_suffix(key_history@, curr_key, i as int);
                }
                return true;
            }
        }
    }
    proof {
        if key_history@.len() > 0 {
            lemma_key_count_from(key_history@, curr_key, 0);
        }
    }
    false
}

/// A key occurs in a list at least as often as in the list's end.
proof fn lemma_key_count_suffix(history: Seq<u64>, key: u64, from: int)
    requires
        0 <= from <= history.len(),
    ensures
        key_count_from(history, key, from) <= key_count(history, key),
        0 <= key_count_from(history, key, from),
    decreases from,
{
    let n = history.len() as int;
    if from == n {
        assert(history.subrange(n, n) =~= Seq::<u64>::empty());
        lemma_key_count_nonneg(history, key);
    } else {
        lemma_key_count_from(history, key, from);
        if from > 0 {
            lemma_key_count_suffix(history, key, from - 1);
            lemma_key_count_from(history, key, from - 1);
        }
        lemma_key_count_nonneg(history.subrange(from, n), key);
    }
}

proof fn lemma_key_count_nonneg(history: Seq<u64>, key: u64)
    ensures
        0 <= key_count(history, key),
    decreases history.len(),
{
    if history.len() > 0 {
        lemma_key_count_nonneg(history.drop_last(), key);
    }
}

/// How the game stands for the side to move in `pos`, which the move
/// `prev_move` has led to, where `history` holds the keys of the positions
/// before: won by a road of its own; lost by a road of the other side that
/// a spread has made; after a placement, decided by the count of flats if
/// that is due; after a spread, drawn if the position has occurred before;
/// or not ended.
pub open spec fn terminal_result(pos: &Position, history: Seq<u64>, prev_move: Move) -> Option<
    GameResult,
> {
    if pos.road_exists(pos.stm) {
        Some(GameResult::Win)
    } else if prev_move.is_spread() {
        if pos.road_exists(pos.stm.flipped()) {
            Some(GameResult::Loss)
        } else if key_count(history, pos.key) >= 1 {
            Some(GameResult::Draw)
        } else {
            None
        }
    } else {
        match pos.count_outcome() {
            FlatCountOutcome::NotOver => None,
            FlatCountOutcome::Draw => Some(GameResult::Draw),
            FlatCountOutcome::Win(player) => if player == pos.stm {
                Some(GameResult::Win)
            } else {
                Some(GameResult::Loss)
            },
        }
    }
}

/// Whether the game has ended with the move `prev_move`, which has led to
/// `pos`, and how for the side to move.
pub fn check_terminal(pos: &Position, key_history: &[u64], prev_move: Move) -> (r: Option<
    GameResult,
>)
    requires
        pos.wf(),
    ensures
        r == terminal_result(pos, key_history@, prev_move),
{
    if pos.has_road(pos.stm()) {
        return Some(GameResult::Win);
    }
    if prev_move.is_spread() && pos.has_road(pos.stm().flip()) {
        return Some(GameResult::Loss);
    }
    if !prev_move.is_spread() {
        match pos.count_flats() {
            FlatCountOutcome::NotOver => {},
            FlatCountOutcome::Draw => {
                return Some(GameResult::Draw);
            },
            FlatCountOutcome::Win(player) => {
                return if player == pos.stm() {
                    Some(GameResult::Win)
                } else {
                    Some(GameResult::Loss)
                };
            },
        }
    }
    if prev_move.is_spread() && is_drawn_by_repetition(pos.key(), key_history, false) {
        return Some(GameResult::Draw);
    }
    None
}


/// The size of each searcher's table, in mebibytes.
pub const TT_SIZE_MIB: usize = 8;

/// The number of games between two reports of progress.
pub const REPORT_INTERVAL: usize = 512;

/// The number of random moves that open a game.
pub const RANDOM_MOVES: usize = 6;

/// The depth of the search that judges an opening.
pub const VERIF_DEPTH: i32 = 6;

/// The greatest size of score that an opening may have to be kept.
pub const VERIF_MAX_SCORE: i32 = 1000;

/// The number of nodes after which a search ends between two depths.
pub const SOFT_NODES: usize = 5000;

/// The number of nodes after which a search ends at once.
pub const HARD_NODES: usize = 8388608;

/// The number of moves after which a game is given up.
pub const PLY_CAP: u32 = 0x7fff_0000;

/// A list of bounded length that is held in place, of the crate
/// arrayvec.
#[verifier::external_type_specification]
#[verifier::external_body]
#[verifier::reject_recursive_types(T)]
pub struct ExArrayVec<T, const CAP: usize>(ArrayVec<T, CAP>);

/// The packed moves that a list of opening moves holds, in order.
pub uninterp spec fn held_moves(list: ArrayVec<u16, 6>) -> Seq<u16>;

/// `ArrayVec::new` makes a list that holds nothing.
#[verifier::external_body]
fn opening_list_new() -> (r: ArrayVec<u16, 6>)
    ensures
        held_moves(r) == Seq::<u16>::empty(),
{
    ArrayVec::new()
}

/// `ArrayVec::clear` takes every element out of the list.
#[verifier::external_body]
fn opening_list_clear(list: &mut ArrayVec<u16, 6>)
    ensures
        held_moves(*final(list)) == Seq::<u16>::empty(),
{
    list.clear()
}

/// `ArrayVec::push` puts an element at the end of a list that is not
/// full.
#[verifier::external_body]
fn opening_list_push(list: &mut ArrayVec<u16, 6>, raw: u16)
    requires
        held_moves(*old(list)).len() < 6,
    ensures
        held_moves(*final(list)) == held_moves(*old(list)).push(raw),
{
    list.push(raw)
}

/// `ArrayVec::len` gives the number of elements in the list.
#[verifier::external_body]
fn opening_list_len(list: &ArrayVec<u16, 6>) -> (r: usize)
    ensures
        r == held_moves(*list).len(),
{
    list.len()
}

/// `ArrayVec::as_slice` gives the elements of the list in order; this
/// is the element numbered `i`.
#[verifier::external_body]
fn opening_list_get(list: &ArrayVec<u16, 6>, i: usize) -> (r: u16)
    requires
        i < held_moves(*list).len(),
    ensures
        r == held_moves(*list)[i as int],
{
    list.as_slice()[i]
}

/// `Rng::random_range` of the crate rand draws a number below `n`, which
/// is not 0, from the generator: which one is not known.
#[verifier::external_body]
fn pick_below(rng: &mut Sfc64, n: usize) -> (r: usize)
    requires
        n > 0,
    ensures
        r < n,
{
    rand::Rng::random_range(rng, ..n)
}

/// The moves that the packed forms `raws` stand for.
pub open spec fn moves_of(raws: Seq<u16>) -> Seq<Move> {
    Seq::new(raws.len(), |i: int| Move { raw: raws[i] })
}

/// What is to be done next with an opening.
#[derive(Clone, Copy, Debug, PartialEq, Eq, Structural)]
pub enum OpeningStep {
    /// A move is to be picked at random among the legal ones.
    Pick,
    /// The game has ended: the opening is to be begun anew.
    Restart,
    /// Six moves are made: the opening is to be judged by a search.
    Verify,
}

/// The random opening of a game, as far as it is played.
pub struct Opening {
    pub pos: Position,
    pub unscored: ArrayVec<u16, 6>,
    pub moves: Vec<Move>,
    pub key_history: Vec<u64>,
}

impl Opening {
    /// The moves made so far.
    pub open spec fn made(&self) -> Seq<Move> {
        moves_of(held_moves(self.unscored))
    }

    /// The position is the one that the moves made lead to from the
    /// start, each of them legal; the keys kept are those of the positions
    /// before; and the list of moves holds the legal moves of the position.
    pub open spec fn wf(&self) -> bool {
        &&& self.pos.wf()
        &&& self.made().len() <= RANDOM_MOVES
        &&& self.pos.ply == self.made().len()
        &&& playable(Position::start_view(), self.made())
        &&& self.pos@ == replay(Position::start_view(), self.made())
        &&& self.key_history@ == keys_along(Position::start_view(), self.made())
        &&& forall|i: int| 0 <= i < self.moves@.len() ==> self.pos@.legal(#[trigger] self.moves@[i])
        &&& forall|mv: Move| self.pos@.legal(mv) ==> #[trigger] holds(self.moves@, mv)
    }

    /// Whether the game has not ended after any of the moves made.
    pub open spec fn unended(&self) -> bool {
        goes_on_through(
            Seq::<u64>::empty(),
            Position::start_view(),
            self.made(),
            self.made().len() as int,
        )
    }

    /// An opening in which no move is made yet.
    pub fn new() -> (r: Opening)
        ensures
            r.wf(),
            r.made().len() == 0,
            r.unended(),
    {
        let pos = Position::startpos();
        let mut moves: Vec<Move> = Vec::new();
        generate_moves(&mut moves, &pos);
        proof {
            assert(added(Seq::<Move>::empty(), moves@) =~= moves@);
        }
        let r = Opening { pos, unscored: opening_list_new(), moves, key_history: Vec::new() };
        proof {
            assert(r.made() =~= Seq::<Move>::empty());
            assert(r.key_history@ =~= keys_along(Position::start_view(), r.made()));
        }
        r
    }

    /// Takes back every move.
    pub fn restart(&mut self)
        ensures
            final(self).wf(),
            final(self).made().len() == 0,
            final(self).unended(),
    {
        self.pos = Position::startpos();
        opening_list_clear(&mut self.unscored);
        self.key_history.clear();
        self.moves.clear();
        generate_moves(&mut self.moves, &self.pos);
        proof {
            assert(added(Seq::<Move>::empty(), self.moves@) =~= self.moves@);
            assert(self.made() =~= Seq::<Move>::empty());
            assert(self.key_history@ =~= keys_along(Position::start_view(), self.made()));
        }
    }

    /// The number of legal moves to pick from.
    pub fn choices(&self) -> (r: usize)
        ensures
            r == self.moves@.len(),
    {
        self.moves.len()
    }

    /// Makes the legal move numbered `index`, and says what is to be done next.
    pub fn play(&mut self, index: usize, keys: &Keys) -> (r: OpeningStep)
        requires
            old(self).wf(),
            keys.wf(),
            index < old(self).moves@.len(),
            old(self).made().len() < RANDOM_MOVES,
        ensures
            final(self).wf(),
            final(self).made() == old(self).made().push(old(self).moves@[index as int]),
            final(self).key_history@ == old(self).key_history@.push(old(self).pos.key),
            old(self).unended() && r != OpeningStep::Restart ==> final(self).unended(),
            r == if terminal_result(
                &final(self).pos,
                final(self).key_history@,
                old(self).moves@[index as int],
            ).is_some() {
                OpeningStep::Restart
            } else if final(self).made().len() == RANDOM_MOVES {
                OpeningStep::Verify
            } else {
                OpeningStep::Pick
            },
    {
        let mv = self.moves[index];
        let ghost before = self.made();
        opening_list_push(&mut self.unscored, mv.raw());
        self.key_history.push(self.pos.key());
        self.pos = self.pos.apply_move(mv, keys);
        self.moves.clear();
        generate_moves(&mut self.moves, &self.pos);
        proof {
            let start = Position::start_view();
            let after = self.made();
            assert(added(Seq::<Move>::empty(), self.moves@) =~= self.moves@);
            assert(after =~= before.push(mv));
            assert(after.drop_last() =~= before);
            assert(after.subrange(0, before.len() as int) =~= before);
            assert forall|i: int| 0 <= i < before.len() implies keys_along(start, after)[i]
                == keys_along(start, before)[i] by {
                assert(after.subrange(0, i) =~= before.subrange(0, i));
            }
            assert(keys_along(start, after) =~= keys_along(start, before).push(old(self).pos.key));
        }
        let ended = check_terminal(&self.pos, self.key_history.as_slice(), mv);
        proof {
            let start = Position::start_view();
            let none = Seq::<u64>::empty();
            let after = self.made();
            let n = after.len() as int;
            if old(self).unended() && ended.is_none() {
                assert(after.subrange(0, n) =~= after);
                assert(none + keys_along(start, after) =~= self.key_history@);
                lemma_goes_on_here(&self.pos, none, start, after, n);
                assert forall|k: int| 1 <= k <= n implies #[trigger] goes_on(
                    none,
                    start,
                    after,
                    k,
                ) by {
                    if k < n {
                        assert(goes_on(none, start, before, k));
                        assert(after.subrange(0, k) =~= before.subrange(0, k));
                        lemma_goes_on_prefix(none, start, before, after, k);
                    }
                }
            }
        }
        if ended.is_some() {
            OpeningStep::Restart
        } else if opening_list_len(&self.unscored) == RANDOM_MOVES {
            OpeningStep::Verify
        } else {
            OpeningStep::Pick
        }
    }

    /// Whether the search `searcher` judges the opening fit to be played
    /// on: the position after it is searched without bounds to the depth of
    /// the judging search, and the score is no larger in size than the
    /// greatest allowed.
    pub fn verified(&self, searcher: &mut Searcher) -> (r: bool)
        requires
            self.wf(),
            old(searcher).wf(),
        ensures
            final(searcher).wf(),
            final(searcher).silent == old(searcher).silent,
            r == (-VERIF_MAX_SCORE <= final(searcher).data.root.score <= VERIF_MAX_SCORE),
            match final(searcher).data.root.best {
                Some(mv) => self.pos@.legal(mv),
                None => forall|mv: Move| !self.pos@.legal(mv),
            },
            !final(searcher).data.stopped,
            0 <= final(searcher).data.depth <= VERIF_DEPTH,
            final(searcher).data.root.best.is_some() ==> final(searcher).data.depth == VERIF_DEPTH
                && final(searcher).data.nodes >= 1,
    {
        searcher.run_datagen_search(
            &self.pos,
            self.key_history.as_slice(),
            Limits::new(current_instant()),
            VERIF_DEPTH,
        );
        let score = searcher.thread().pv_move().score;
        -VERIF_MAX_SCORE <= score && score <= VERIF_MAX_SCORE
    }

    /// Begins the record of the game in `writer` with the moves made,
    /// and hands over the position and the keys of the positions before it.
    pub fn finish(self, writer: &mut SynpackWriter) -> (r: (Position, Vec<u64>))
        requires
            self.wf(),
        ensures
            r.0 == self.pos,
            r.1 == self.key_history,
            final(writer).moves@.len() == 0,
            final(writer).unscored_moves@ == held_moves(self.unscored),
    {
        writer.start();
        let n = opening_list_len(&self.unscored);
        let mut i: usize = 0;
        while i < n
            invariant
                i <= n,
                n == held_moves(self.unscored).len(),
                writer.moves@.len() == 0,
                writer.unscored_moves@ == held_moves(self.unscored).subrange(0, i as int),
            decreases n - i,
        {
            let raw = opening_list_get(&self.unscored, i);
            writer.push_unscored(Move { raw });
            proof {
                assert(writer.unscored_moves@ =~= held_moves(self.unscored).subrange(
                    0,
                    i as int + 1,
                ));
            }
            i += 1;
        }
        proof {
            assert(held_moves(self.unscored).subrange(0, n as int) =~= held_moves(self.unscored));
        }
        (self.pos, self.key_history)
    }
}

/// The key of a position with the plain values `v`.
pub open spec fn view_key(v: PositionView) -> u64 {
    full_key(v.stacks, v.stm)
}

/// The keys of the positions that the moves `moves` are made in, one
/// after the other from `start`.
pub open spec fn keys_along(start: PositionView, moves: Seq<Move>) -> Seq<u64> {
    Seq::new(moves.len(), |i: int| view_key(replay(start, moves.subrange(0, i))))
}

/// Whether the game goes on after the first `k` of the moves `moves`,
/// made one after the other from `start`: the position that they lead to,
/// with the keys `before` and those of the positions along the moves, and
/// the last of the moves, is not one in which the game has ended.
pub open spec fn goes_on(before: Seq<u64>, start: PositionView, moves: Seq<Move>, k: int) -> bool {
    forall|p: Position|
        #[trigger] p.wf() && p@ == replay(start, moves.subrange(0, k)) ==> terminal_result(
            &p,
            before + keys_along(start, moves.subrange(0, k)),
            moves[k - 1],
        ).is_none()
}

/// Whether the game goes on after each of the first `n` of the moves `moves`.
pub open spec fn goes_on_through(
    before: Seq<u64>,
    start: PositionView,
    moves: Seq<Move>,
    n: int,
) -> bool {
    forall|k: int| 1 <= k <= n ==> #[trigger] goes_on(before, start, moves, k)
}

/// Whether the game goes on after the first `k` moves depends on those moves alone.
pub proof fn lemma_goes_on_prefix(
    before: Seq<u64>,
    start: PositionView,
    a: Seq<Move>,
    b: Seq<Move>,
    k: int,
)
    requires
        1 <= k <= a.len(),
        k <= b.len(),
        a.subrange(0, k) == b.subrange(0, k),
    ensures
        goes_on(before, start, a, k) == goes_on(before, start, b, k),
{
    assert(a[k - 1] == a.subrange(0, k)[k - 1]);
    assert(b[k - 1] == b.subrange(0, k)[k - 1]);
}

/// The game goes on after the moves that lead to a position in which it has not ended.
pub proof fn lemma_goes_on_here(
    pos: &Position,
    before: Seq<u64>,
    start: PositionView,
    moves: Seq<Move>,
    k: int,
)
    requires
        1 <= k <= moves.len(),
        pos.wf(),
        pos@ == replay(start, moves.subrange(0, k)),
        terminal_result(
            pos,
            before + keys_along(start, moves.subrange(0, k)),
            moves[k - 1],
        ).is_none(),
    ensures
        goes_on(before, start, moves, k),
{
    assert forall|p: Position|
        #[trigger] p.wf() && p@ == replay(start, moves.subrange(0, k)) implies terminal_result(
        &p,
        before + keys_along(start, moves.subrange(0, k)),
        moves[k - 1],
    ).is_none() by {
        crate::tps_round_trip::lemma_known_by_view(&p, pos);
    }
}

/// A game that goes on through the moves `a`, and from where they lead
/// through the first `n` of the moves `b`, goes on through as many of the
/// moves `a` followed by `b`.
pub proof fn lemma_goes_on_joined(start: PositionView, a: Seq<Move>, b: Seq<Move>, n: int)
    requires
        0 <= n <= b.len(),
        goes_on_through(Seq::<u64>::empty(), start, a, a.len() as int),
        goes_on_through(keys_along(start, a), replay(start, a), b, n),
    ensures
        goes_on_through(Seq::<u64>::empty(), start, a + b, a.len() + n),
{
    let none = Seq::<u64>::empty();
    assert forall|k: int| 1 <= k <= a.len() + n implies #[trigger] goes_on(
        none,
        start,
        a + b,
        k,
    ) by {
        if k <= a.len() {
            assert(goes_on(none, start, a, k));
            assert((a + b).subrange(0, k) =~= a.subrange(0, k));
            lemma_goes_on_prefix(none, start, a, a + b, k);
        } else {
            let j = k - a.len();
            let part = b.subrange(0, j);
            assert(goes_on(keys_along(start, a), replay(start, a), b, j));
            assert((a + b).subrange(0, k) =~= a + part);
            lemma_replay_joined(start, a, part);
            lemma_keys_joined(start, a, part);
            assert(none + keys_along(start, a + part) =~= keys_along(start, a) + keys_along(
                replay(start, a),
                part,
            ));
            assert((a + b)[k - 1] == b[j - 1]);
        }
    }
}

/// The moves of the scored moves `moves`.
pub open spec fn scored_moves(moves: Seq<ScoredMove>) -> Seq<Move> {
    Seq::new(moves.len(), |i: int| Move { raw: moves[i].mv })
}

/// How a game has ended: the result for the first player, the last
/// position, and the move that has led to it.
pub struct FinishedGame {
    pub outcome: GameResult,
    pub end: Position,
    pub last_move: Move,
}

/// The result `result` for the side to move in a position with `stm` to
/// move, as a result for the first player.
pub open spec fn for_first_player(result: GameResult, stm: Player) -> GameResult {
    match stm {
        Player::P1 => result,
        Player::P2 => result.flipped(),
    }
}

/// Plays a game from `start` to its end, each side's moves found by its
/// own searcher, and adds each move with its score to `writer` and the key
/// of each position left to `key_history`. Returns how the game has ended,
/// or nothing if it has been given up: because a side had no legal move, or
/// because the game had gone on for too long.
pub fn play_game(
    writer: &mut SynpackWriter,
    key_history: &mut Vec<u64>,
    searchers: &mut Vec<Searcher>,
    start: Position,
    limits: Limits,
    keys: &Keys,
) -> (r: Option<FinishedGame>)
    requires
        start.wf(),
        keys.wf(),
        old(searchers)@.len() == 2,
        old(searchers)@[0].wf(),
        old(searchers)@[1].wf(),
        old(writer).moves@.len() == 0,
    ensures
        final(searchers)@.len() == 2,
        final(searchers)@[0].wf(),
        final(searchers)@[1].wf(),
        final(writer).unscored_moves@ == old(writer).unscored_moves@,
        playable(start@, scored_moves(final(writer).moves@)),
        final(key_history)@ == old(key_history)@ + keys_along(
            start@,
            scored_moves(final(writer).moves@),
        ),
        goes_on_through(
            old(key_history)@,
            start@,
            scored_moves(final(writer).moves@),
            if r.is_some() {
                final(writer).moves@.len() - 1
            } else {
                final(writer).moves@.len() as int
            },
        ),
        match r {
            Some(game) => {
                &&& game.end.wf()
                &&& final(writer).moves@.len() >= 1
                &&& game.end@ == replay(start@, scored_moves(final(writer).moves@))
                &&& game.last_move == scored_moves(final(writer).moves@).last()
                &&& terminal_result(&game.end, final(key_history)@, game.last_move).is_some()
                &&& game.outcome == for_first_player(
                    terminal_result(&game.end, final(key_history)@, game.last_move).unwrap(),
                    game.end.stm,
                )
            },
            None => {
                let given_up = replay(start@, scored_moves(final(writer).moves@));
                given_up.ply >= PLY_CAP || forall|mv: Move| !given_up.legal(mv)
            },
        },
{
    let mut pos = start;
    proof {
        assert(scored_moves(writer.moves@) =~= Seq::<Move>::empty());
        assert(key_history@ + keys_along(start@, scored_moves(writer.moves@)) =~= key_history@);
    }
    loop
        invariant
            pos.wf(),
            keys.wf(),
            key_history@ == old(key_history)@ + keys_along(start@, scored_moves(writer.moves@)),
            searchers@.len() == 2,
            searchers@[0].wf(),
            searchers@[1].wf(),
            writer.unscored_moves@ == old(writer).unscored_moves@,
            playable(start@, scored_moves(writer.moves@)),
            pos@ == replay(start@, scored_moves(writer.moves@)),
            goes_on_through(
                old(key_history)@,
                start@,
                scored_moves(writer.moves@),
                writer.moves@.len() as int,
            ),
        decreases PLY_CAP - pos.ply,
    {
        if pos.ply() >= PLY_CAP {
            return None;
        }
        let side = pos.stm().idx();
        searchers[side].run_datagen_search(&pos, key_history.as_slice(), limits, MAX_PLY);
        let root = searchers[side].thread().pv_move();
        let mv = match root.best {
            Some(mv) => mv,
            None => {
                return None;
            },
        };
        let ghost before = scored_moves(writer.moves@);
        let ghost keys_before = key_history@;
        writer.push(mv, root.score);
        key_history.push(pos.key());
        let new_pos = pos.apply_move(mv, keys);
        proof {
            let after = scored_moves(writer.moves@);
            assert(after =~= before.push(mv));
            assert(after.drop_last() =~= before);
            assert(after.subrange(0, before.len() as int) =~= before);
            assert forall|i: int| 0 <= i < before.len() implies keys_along(start@, after)[i]
                == keys_along(start@, before)[i] by {
                assert(after.subrange(0, i) =~= before.subrange(0, i));
            }
            assert(keys_along(start@, after) =~= keys_along(start@, before).push(pos.key));
            assert(key_history@ =~= old(key_history)@ + keys_along(start@, after));
            assert forall|k: int| 1 <= k <= before.len() implies #[trigger] goes_on(
                old(key_history)@,
                start@,
                after,
                k,
            ) by {
                assert(goes_on(old(key_history)@, start@, before, k));
                assert(after.subrange(0, k) =~= before.subrange(0, k));
                lemma_goes_on_prefix(old(key_history)@, start@, before, after, k);
            }
        }
        let ended = check_terminal(&new_pos, key_history.as_slice(), mv);
        proof {
            let after = scored_moves(writer.moves@);
            if ended.is_none() {
                assert(after.subrange(0, after.len() as int) =~= after);
                lemma_goes_on_here(
                    &new_pos,
                    old(key_history)@,
                    start@,
                    after,
                    after.len() as int,
                );
            }
        }
        match ended {
            Some(result) => {
                let outcome = match new_pos.stm() {
                    Player::P1 => result,
                    Player::P2 => result.flip(),
                };
                return Some(FinishedGame { outcome, end: new_pos, last_move: mv });
            },
            None => {},
        }
        pos = new_pos;
    }
}


/// Making the moves `a` and then the moves `b` is making the moves of
/// `a` followed by those of `b`.
pub proof fn lemma_replay_joined(v: crate::position::PositionView, a: Seq<Move>, b: Seq<Move>)
    ensures
        replay(v, a + b) == replay(replay(v, a), b),
        playable(v, a + b) == (playable(v, a) && playable(replay(v, a), b)),
    decreases b.len(),
{
    if b.len() == 0 {
        assert(a + b =~= a);
    } else {
        lemma_replay_joined(v, a, b.drop_last());
        assert((a + b).drop_last() =~= a + b.drop_last());
    }
}

/// The record of a game that has been played tells the game: read
/// back, its unscored moves followed by its scored moves lead from the
/// start to the position in which the game has ended, and its header holds
/// the result of that position for the first player.
pub proof fn lemma_record_tells_the_game(
    unscored: Seq<u16>,
    moves: Seq<ScoredMove>,
    opening: Position,
    game: FinishedGame,
    history: Seq<u64>,
)
    requires
        unscored.len() < 0x10000,
        opening@ == replay(Position::start_view(), moves_of(unscored)),
        playable(opening@, scored_moves(moves)),
        game.end@ == replay(opening@, scored_moves(moves)),
        terminal_result(&game.end, history, game.last_move).is_some(),
        game.outcome == for_first_player(
            terminal_result(&game.end, history, game.last_move).unwrap(),
            game.end.stm,
        ),
    ensures
        ({
            let read = crate::datagen::synpack::parse_record(
                crate::datagen::synpack::record_bytes(unscored, moves, game.outcome),
            );
            &&& read.is_some()
            &&& game.end@ == replay(
                Position::start_view(),
                moves_of(read.unwrap().unscored) + scored_moves(read.unwrap().moves),
            )
            &&& read.unwrap().outcome == for_first_player(
                terminal_result(&game.end, history, game.last_move).unwrap(),
                game.end.stm,
            )
        }),
{
    lemma_playable_moves_are_wf(opening@, scored_moves(moves));
    assert forall|i: int| 0 <= i < moves.len() implies (#[trigger] moves[i]).mv != 0
        || moves[i].score != 0 by {
        assert(scored_moves(moves)[i].wf());
    }
    crate::datagen::synpack::lemma_record_round_trip(
        unscored,
        moves,
        game.outcome,
        Seq::<u8>::empty(),
    );
    assert(crate::datagen::synpack::record_bytes(unscored, moves, game.outcome) + Seq::<u8>::empty()
        =~= crate::datagen::synpack::record_bytes(unscored, moves, game.outcome));
    lemma_replay_joined(Position::start_view(), moves_of(unscored), scored_moves(moves));
}

/// Moves that can be made one after the other are moves with fields in range.
pub proof fn lemma_playable_moves_are_wf(v: crate::position::PositionView, moves: Seq<Move>)
    requires
        playable(v, moves),
    ensures
        forall|i: int| 0 <= i < moves.len() ==> (#[trigger] moves[i]).wf(),
    decreases moves.len(),
{
    if moves.len() > 0 {
        lemma_playable_moves_are_wf(v, moves.drop_last());
        assert forall|i: int| 0 <= i < moves.len() implies (#[trigger] moves[i]).wf() by {
            if i < moves.len() - 1 {
                assert(moves.drop_last()[i] == moves[i]);
            }
        }
    }
}


/// Plays random openings until the search of `searcher` judges one fit,
/// and begins the record of the game in `writer` with its moves. An opening
/// in which the game ends, or which the search judges unfit, is begun anew,
/// at most `tries` times. Returns the position after the opening and the
/// keys of the positions before it, or nothing if the tries are used up.
pub fn start_game(
    writer: &mut SynpackWriter,
    rng: &mut Sfc64,
    searcher: &mut Searcher,
    keys: &Keys,
    tries: u32,
) -> (r: Option<(Position, Vec<u64>)>)
    requires
        old(searcher).wf(),
        keys.wf(),
    ensures
        final(searcher).wf(),
        match r {
            Some((pos, history)) => {
                let opening = moves_of(final(writer).unscored_moves@);
                &&& pos.wf()
                &&& pos.ply == RANDOM_MOVES
                &&& final(writer).moves@.len() == 0
                &&& opening.len() == RANDOM_MOVES
                &&& playable(Position::start_view(), opening)
                &&& pos@ == replay(Position::start_view(), opening)
                &&& history@ == keys_along(Position::start_view(), opening)
                &&& goes_on_through(
                    Seq::<u64>::empty(),
                    Position::start_view(),
                    opening,
                    opening.len() as int,
                )
                &&& -VERIF_MAX_SCORE <= final(searcher).data.root.score <= VERIF_MAX_SCORE
                &&& match final(searcher).data.root.best {
                    Some(mv) => pos@.legal(mv),
                    None => forall|mv: Move| !pos@.legal(mv),
                }
                &&& !final(searcher).data.stopped
                &&& final(searcher).data.root.best.is_some() ==> final(searcher).data.depth
                    == VERIF_DEPTH
            },
            None => *final(writer) == *old(writer),
        },
{
    let mut opening = Opening::new();
    let mut left = tries;
    loop
        invariant
            opening.wf(),
            opening.unended(),
            opening.made().len() < RANDOM_MOVES,
            searcher.wf(),
            keys.wf(),
            *writer == *old(writer),
        decreases left, RANDOM_MOVES - opening.made().len(),
    {
        let choices = opening.choices();
        let step = if choices == 0 {
            OpeningStep::Restart
        } else {
            let index = pick_below(rng, choices);
            opening.play(index, keys)
        };
        match step {
            OpeningStep::Pick => {},
            OpeningStep::Verify => {
                if opening.verified(searcher) {
                    return Some(opening.finish(writer));
                }
                if left == 0 {
                    return None;
                }
                left -= 1;
                opening.restart();
            },
            OpeningStep::Restart => {
                if left == 0 {
                    return None;
                }
                left -= 1;
                opening.restart();
            },
        }
    }
}

/// A game that has been played and written down: the bytes of its
/// record, the number of its scored moves, and how it has ended.
pub struct GeneratedGame {
    pub bytes: Vec<u8>,
    pub count: usize,
    pub game: FinishedGame,
    pub key_history: Vec<u64>,
}

/// Plays one game: a random opening that the first searcher judges fit,
/// then each side's moves found by its own searcher, and writes the record.
/// Read back, the record's moves, of which the first six have no score,
/// lead from the start to the position in which the game has ended, and
/// its header holds the result of that position for the first player. The
/// game has ended after the last move and after none before it. Returns
/// nothing if no fit opening was found in `tries` tries, or if the game was
/// given up.
pub fn generate_game(
    writer: &mut SynpackWriter,
    rng: &mut Sfc64,
    searchers: &mut Vec<Searcher>,
    limits: Limits,
    keys: &Keys,
    tries: u32,
) -> (r: Option<GeneratedGame>)
    requires
        keys.wf(),
        old(searchers)@.len() == 2,
        old(searchers)@[0].wf(),
        old(searchers)@[1].wf(),
    ensures
        final(searchers)@.len() == 2,
        final(searchers)@[0].wf(),
        final(searchers)@[1].wf(),
        match r {
            Some(made) => {
                let unscored = final(writer).unscored_moves@;
                let moves = final(writer).moves@;
                let read = crate::datagen::synpack::parse_record(made.bytes@);
                &&& made.count == moves.len()
                &&& made.bytes@ == crate::datagen::synpack::record_bytes(
                    unscored,
                    moves,
                    made.game.outcome,
                )
                &&& read.is_some()
                &&& read.unwrap().unscored == unscored
                &&& read.unwrap().moves == moves
                &&& read.unwrap().outcome == made.game.outcome
                &&& moves_of(unscored).len() == RANDOM_MOVES
                &&& moves.len() >= 1
                &&& playable(Position::start_view(), moves_of(unscored) + scored_moves(moves))
                &&& goes_on_through(
                    Seq::<u64>::empty(),
                    Position::start_view(),
                    moves_of(unscored) + scored_moves(moves),
                    RANDOM_MOVES + moves.len() - 1,
                )
                &&& made.game.last_move == scored_moves(moves).last()
                &&& made.game.end@ == replay(
                    Position::start_view(),
                    moves_of(unscored) + scored_moves(moves),
                )
                &&& made.key_history@ == keys_along(
                    Position::start_view(),
                    moves_of(unscored) + scored_moves(moves),
                )
                &&& terminal_result(&made.game.end, made.key_history@, made.game.last_move).is_some()
                &&& made.game.outcome == for_first_player(
                    terminal_result(&made.game.end, made.key_history@, made.game.last_move).unwrap(),
                    made.game.end.stm,
                )
            },
            None => {
                let unscored = final(writer).unscored_moves@;
                let moves = final(writer).moves@;
                let given_up = replay(
                    Position::start_view(),
                    moves_of(unscored) + scored_moves(moves),
                );
                ||| *final(writer) == *old(writer)
                ||| {
                    &&& moves_of(unscored).len() == RANDOM_MOVES
                    &&& playable(Position::start_view(), moves_of(unscored) + scored_moves(moves))
                    &&& goes_on_through(
                        Seq::<u64>::empty(),
                        Position::start_view(),
                        moves_of(unscored) + scored_moves(moves),
                        RANDOM_MOVES + moves.len(),
                    )
                    &&& given_up.ply >= PLY_CAP || forall|mv: Move| !given_up.legal(mv)
                }
            },
        },
{
    searchers[0].reset();
    searchers[1].reset();
    let begun = start_game(writer, rng, &mut searchers[0], keys, tries);
    let (pos, mut key_history) = match begun {
        Some(begun) => begun,
        None => {
            return None;
        },
    };
    searchers[0].reset();
    let ghost opening = moves_of(writer.unscored_moves@);
    let ghost opening_keys = key_history@;
    let game = match play_game(writer, &mut key_history, searchers, pos, limits, keys) {
        Some(game) => game,
        None => {
            proof {
                let scored = scored_moves(writer.moves@);
                lemma_replay_joined(Position::start_view(), opening, scored);
                lemma_goes_on_joined(Position::start_view(), opening, scored, scored.len() as int);
            }
            return None;
        },
    };
    let mut bytes: Vec<u8> = Vec::new();
    let count = writer.write_all_with_outcome(&mut bytes, game.outcome);
    proof {
        let unscored = writer.unscored_moves@;
        let moves = writer.moves@;
        let start = Position::start_view();
        lemma_playable_moves_are_wf(pos@, scored_moves(moves));
        assert forall|i: int| 0 <= i < moves.len() implies (#[trigger] moves[i]).mv != 0
            || moves[i].score != 0 by {
            assert(scored_moves(moves)[i].wf());
        }
        crate::datagen::synpack::lemma_record_round_trip(
            unscored,
            moves,
            game.outcome,
            Seq::<u8>::empty(),
        );
        assert(bytes@ =~= crate::datagen::synpack::record_bytes(unscored, moves, game.outcome));
        assert(bytes@ + Seq::<u8>::empty() =~= bytes@);
        lemma_replay_joined(start, opening, scored_moves(moves));
        lemma_keys_joined(start, opening, scored_moves(moves));
        lemma_goes_on_joined(start, opening, scored_moves(moves), moves.len() - 1);
    }
    Some(GeneratedGame { bytes, count, game, key_history })
}

/// The keys of the positions along the moves `a` followed by the moves
/// `b` are those along `a` and then those along `b` from where `a` leads.
pub proof fn lemma_keys_joined(v: PositionView, a: Seq<Move>, b: Seq<Move>)
    ensures
        keys_along(v, a + b) == keys_along(v, a) + keys_along(replay(v, a), b),
{
    let joined = keys_along(v, a + b);
    let parts = keys_along(v, a) + keys_along(replay(v, a), b);
    assert forall|i: int| 0 <= i < joined.len() implies joined[i] == parts[i] by {
        if i < a.len() {
            assert((a + b).subrange(0, i) =~= a.subrange(0, i));
        } else {
            assert((a + b).subrange(0, i) =~= a + b.subrange(0, i - a.len()));
            lemma_replay_joined(v, a, b.subrange(0, i - a.len()));
        }
    }
    assert(joined =~= parts);
}

} // verus!
