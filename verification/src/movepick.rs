use vstd::prelude::*;
use crate::history::{History, SidedTables};
use crate::movegen::{added, generate_moves, holds, no_repeat};
use crate::position::Position;
use crate::takmove::{lemma_move_fields, Move};
use crate::types::PieceType;

verus! {

/// What the picker does next.
#[derive(Clone, Copy, Debug, PartialEq, Eq, Structural)]
pub enum Stage {
    TtMove,
    GenMoves,
    Moves,
    End,
}

impl Stage {
    /// The number of stages that follow this one.
    pub open spec fn left(self) -> nat {
        match self {
            Stage::TtMove => 3,
            Stage::GenMoves => 2,
            Stage::Moves => 1,
            Stage::End => 0,
        }
    }

    /// The stage that follows this one, which is not the last.
    pub fn next(&self) -> (r: Stage)
        requires
            *self != Stage::End,
        ensures
            r.left() + 1 == self.left(),
    {
        match *self {
            Stage::TtMove => Stage::GenMoves,
            Stage::GenMoves => Stage::Moves,
            _ => Stage::End,
        }
    }
}

/// The score by which the picker orders the move `mv`: a placement's by
/// the kind of tile, capstone before flat before wall; a spread's from the
/// history.
pub open spec fn move_score(pos: &Position, history: &History, mv: Move) -> int {
    if mv.is_spread() {
        history.tables@[pos.stm.index()].score_of(pos.blocker_key, mv)
    } else {
        match mv.pt() {
            PieceType::Flat => 1,
            PieceType::Wall => 0,
            PieceType::Capstone => 2,
        }
    }
}

/// A move with the score by which the picker orders it.
pub type ScoredMove = (Move, i32);

/// The list `s` with the elements at `i` and `j` in each other's place.
pub open spec fn swapped(s: Seq<ScoredMove>, i: int, j: int) -> Seq<ScoredMove> {
    s.update(i, s[j]).update(j, s[i])
}

/// Whether `j` is the first place from `from` on at which the list `s`
/// has its highest score from `from` on.
pub open spec fn is_first_best(s: Seq<ScoredMove>, from: int, j: int) -> bool {
    &&& from <= j < s.len()
    &&& forall|k: int| from <= k < s.len() ==> (#[trigger] s[k]).1 <= s[j].1
    &&& forall|k: int| from <= k < j ==> (#[trigger] s[k]).1 < s[j].1
}

/// A list with two elements in each other's place holds what it held.
pub proof fn lemma_swapped_holds_the_same(s: Seq<ScoredMove>, i: int, j: int)
    requires
        0 <= i < s.len(),
        0 <= j < s.len(),
    ensures
        swapped(s, i, j).to_multiset() == s.to_multiset(),
        swapped(s, i, j).len() == s.len(),
{
    broadcast use {
        vstd::seq_lib::to_multiset_update,
        vstd::seq_lib::to_multiset_contains,
        vstd::multiset::group_multiset_axioms,
    };

    let s1 = s.update(i, s[j]);
    assert(s.contains(s[i]));
    assert(s.contains(s[j]));
    assert(s1[j] == s[j]);
    assert(swapped(s, i, j).to_multiset() =~= s.to_multiset());
}

/// Hands out the moves of a position one by one: first the move that the
/// transposition table proposes, if it is legal, then the others, best
/// score first.
pub struct Movepicker<'a> {
    pub pos: &'a Position,
    pub moves: Vec<ScoredMove>,
    pub idx: usize,
    pub tt_move: Option<Move>,
    pub stage: Stage,
}

impl<'a> Movepicker<'a> {
    /// Whether the list holds each legal move once and nothing else, and
    /// no move handed out has a lower score than one that is left.
    pub open spec fn pool_ok(&self) -> bool {
        &&& self.idx <= self.moves@.len()
        &&& forall|i: int, j: int|
            0 <= i < j < self.moves@.len() ==> (#[trigger] self.moves@[i]).0 != (
            #[trigger] self.moves@[j]).0
        &&& forall|i: int|
            0 <= i < self.moves@.len() ==> self.pos@.legal((#[trigger] self.moves@[i]).0)
        &&& forall|mv: Move|
            self.pos@.legal(mv) ==> exists|i: int|
                0 <= i < self.moves@.len() && (#[trigger] self.moves@[i]).0 == mv
        &&& forall|i: int, j: int|
            0 <= i < self.idx && self.idx <= j < self.moves@.len() ==> (#[trigger] self.moves@[i]).1
                >= (#[trigger] self.moves@[j]).1
    }

    pub open spec fn wf(&self) -> bool {
        &&& self.pos.wf()
        &&& self.stage == Stage::Moves ==> self.pool_ok()
    }

    /// Whether each move of the list has the score that `history` gives it.
    pub open spec fn scored_by(&self, history: &History) -> bool {
        forall|i: int|
            0 <= i < self.moves@.len() ==> (#[trigger] self.moves@[i]).1 == move_score(
                self.pos,
                history,
                self.moves@[i].0,
            )
    }

    /// Whether the table's move is there and legal.
    pub open spec fn tt_is_legal(&self) -> bool {
        self.tt_move.is_some() && self.pos@.legal(self.tt_move.unwrap())
    }

    pub fn new(pos: &'a Position, moves: Vec<ScoredMove>, tt_move: Option<Move>) -> (r: Movepicker<
        'a,
    >)
        requires
            pos.wf(),
        ensures
            r.wf(),
            r.pos == pos,
            r.tt_move == tt_move,
            r.stage == Stage::TtMove,
            r.idx == 0,
    {
        Movepicker { pos, moves, idx: 0, tt_move, stage: Stage::TtMove }
    }

    /// Gives the list of moves back, for another picker to use.
    pub fn into_moves(self) -> (r: Vec<ScoredMove>)
        ensures
            r == self.moves,
    {
        self.moves
    }

    /// The next move, or nothing when every legal move has been handed
    /// out. When the moves other than the table's are first asked for, each
    /// gets its score, a spread's from `history` as it is then.
    pub fn next(&mut self, history: &History) -> (r: Option<Move>)
        requires
            old(self).wf(),
            history.wf(),
        ensures
            old(self).stage == Stage::GenMoves || (old(self).stage == Stage::TtMove && !old(self).tt_is_legal()) ==> final(self).scored_by(history),
            final(self).wf(),
            final(self).pos == old(self).pos,
            final(self).tt_move == old(self).tt_move,
            r.is_some() ==> old(self).pos@.legal(r.unwrap()),
            old(self).stage == Stage::TtMove && old(self).tt_is_legal() ==> r == old(self).tt_move
                && final(self).stage == Stage::GenMoves,
            !(old(self).stage == Stage::TtMove && old(self).tt_is_legal()) ==> match r {
                Some(mv) => {
                    &&& final(self).stage == Stage::Moves
                    &&& final(self).idx >= 1
                    &&& final(self).moves@[final(self).idx - 1].0 == mv
                    &&& Some(mv) != old(self).tt_move
                    &&& forall|j: int|
                        final(self).idx <= j < final(self).moves@.len() ==> (#[trigger] final(self).moves@[j]).1 <= final(self).moves@[final(self).idx - 1].1
                },
                None => {
                    &&& final(self).stage == Stage::End
                    &&& old(self).stage != Stage::End ==> final(self).idx == final(self).moves@.len()
                        && final(self).pool_ok()
                },
            },
            old(self).stage == Stage::Moves && r.is_some() ==> final(self).idx > old(self).idx,
            old(self).stage == Stage::Moves ==> final(self).moves@.len() == old(self).moves@.len(),
            final(self).stage.left() <= old(self).stage.left(),
            final(self).idx <= final(self).moves@.len() || final(self).stage != Stage::Moves,
            old(self).stage == Stage::TtMove && r.is_none() ==> forall|mv: Move|
                !old(self).pos@.legal(mv),
            old(self).stage == Stage::Moves ==> final(self).moves@.to_multiset() == old(self).moves@.to_multiset() && final(self).moves@.subrange(0, old(self).idx as int) == old(self).moves@.subrange(0, old(self).idx as int),
            old(self).stage == Stage::End ==> r.is_none() && final(self).moves == old(self).moves
                && final(self).idx == old(self).idx,
            old(self).stage == Stage::Moves && old(self).idx >= 1 && r.is_some() ==> final(self).moves@[final(self).idx - 1].1 <= old(self).moves@[old(self).idx - 1].1,
            !(old(self).stage == Stage::TtMove && old(self).tt_is_legal()) && old(self).stage
                != Stage::End ==> forall|i: int|
                (if old(self).stage == Stage::Moves {
                    old(self).idx as int
                } else {
                    0
                }) <= i < (if r.is_some() {
                    final(self).idx - 1
                } else {
                    final(self).moves@.len() as int
                }) ==> Some((#[trigger] final(self).moves@[i]).0) == final(self).tt_move,
    {
        while self.stage != Stage::End
            invariant
                self.wf(),
                history.wf(),
                self.pos == old(self).pos,
                self.tt_move == old(self).tt_move,
                self.stage.left() <= old(self).stage.left(),
                old(self).stage.left() >= 2 && self.stage.left() <= 1 ==> self.scored_by(history),
                self.stage == old(self).stage || !(old(self).stage == Stage::TtMove && old(self).tt_is_legal()),
                self.stage == Stage::End && old(self).stage != Stage::End ==> self.idx
                    == self.moves@.len() && self.pool_ok(),
                self.stage == Stage::Moves && old(self).stage == Stage::Moves ==> self.idx == old(self).idx && self.moves == old(self).moves,
                old(self).stage == Stage::Moves ==> self.moves@.len() == old(self).moves@.len(),
                old(self).stage != Stage::Moves && self.stage == Stage::Moves ==> self.idx == 0,
                old(self).stage == Stage::End ==> self.moves == old(self).moves && self.idx == old(self).idx,
                old(self).stage != Stage::End && self.stage == Stage::End ==> forall|i: int|
                    (if old(self).stage == Stage::Moves {
                        old(self).idx as int
                    } else {
                        0
                    }) <= i < self.moves@.len() ==> Some((#[trigger] self.moves@[i]).0)
                        == self.tt_move,
                old(self).stage == Stage::Moves && self.stage == Stage::End ==> self.moves@.to_multiset()
                    == old(self).moves@.to_multiset() && self.moves@.subrange(
                    0,
                    old(self).idx as int,
                ) == old(self).moves@.subrange(0, old(self).idx as int),
                old(self).stage == Stage::TtMove && self.stage == Stage::End ==> forall|mv: Move|
                    !self.pos@.legal(mv),
            decreases self.stage.left(),
        {
            match self.stage {
                Stage::TtMove => {
                    match self.tt_move {
                        Some(tt_move) => {
                            if self.pos.is_legal(tt_move) {
                                self.stage = self.stage.next();
                                return Some(tt_move);
                            }
                        },
                        None => {},
                    }
                },
                Stage::GenMoves => {
                    self.fill_moves();
                    self.score_moves(history);
                    assert(self.pool_ok());
                    assert(self.pos.wf());
                },
                Stage::Moves => {
                    match self.select_next(Ghost(history)) {
                        Some(mv) => {
                            return Some(mv);
                        },
                        None => {
                            assert(self.pool_ok());
                            assert(self.idx == self.moves@.len());
                        },
                    }
                    proof {
                        if old(self).stage == Stage::TtMove {
                            assert(self.moves@.len() == 0);
                            assert forall|mv: Move| !self.pos@.legal(mv) by {
                                if self.pos@.legal(mv) {
                                    let i = choose|i: int|
                                        0 <= i < self.moves@.len() && (#[trigger] self.moves@[i]).0
                                            == mv;
                                }
                            }
                        }
                    }
                },
                Stage::End => {},
            }
            let ghost mid = *self;
            self.stage = self.stage.next();
            proof {
                assert(self.moves == mid.moves && self.idx == mid.idx && self.pos == mid.pos);
                if mid.stage == Stage::GenMoves || mid.stage == Stage::Moves {
                    assert(mid.pool_ok());
                    assert(self.pool_ok());
                }
                if mid.scored_by(history) {
                    assert(self.scored_by(history));
                }
            }
        }
        None
    }

    /// Fills the list with the legal moves, each with the score 0.
    fn fill_moves(&mut self)
        requires
            old(self).pos.wf(),
        ensures
            final(self).pos == old(self).pos,
            final(self).tt_move == old(self).tt_move,
            final(self).stage == old(self).stage,
            final(self).idx == 0,
            forall|i: int|
                0 <= i < final(self).moves@.len() ==> final(self).pos@.legal(
                    (#[trigger] final(self).moves@[i]).0,
                ),
            forall|mv: Move|
                final(self).pos@.legal(mv) ==> exists|i: int|
                    0 <= i < final(self).moves@.len() && (#[trigger] final(self).moves@[i]).0 == mv,
            forall|i: int, j: int|
                0 <= i < j < final(self).moves@.len() ==> (#[trigger] final(self).moves@[i]).0 != (
                #[trigger] final(self).moves@[j]).0,
    {
        self.moves.clear();
        self.idx = 0;
        let mut list: Vec<Move> = Vec::new();
        generate_moves(&mut list, self.pos);
        proof {
            assert(added(Seq::<Move>::empty(), list@) =~= list@);
        }
        let mut i: usize = 0;
        while i < list.len()
            invariant
                i <= list@.len(),
                self.moves@.len() == i,
                self.pos == old(self).pos,
                self.tt_move == old(self).tt_move,
                self.stage == old(self).stage,
                self.idx == 0,
                forall|k: int| 0 <= k < i ==> (#[trigger] self.moves@[k]).0 == list@[k],
            decreases list.len() - i,
        {
            self.moves.push((list[i], 0));
            i += 1;
        }
        proof {
            assert forall|mv: Move| self.pos@.legal(mv) implies exists|i: int|
                0 <= i < self.moves@.len() && (#[trigger] self.moves@[i]).0 == mv by {
                assert(holds(list@, mv));
                let k = choose|k: int| 0 <= k < list@.len() && list@[k] == mv;
                assert(self.moves@[k].0 == mv);
            }
            assert(no_repeat(list@));
            assert forall|i: int, j: int| 0 <= i < j < self.moves@.len() implies (
            #[trigger] self.moves@[i]).0 != (#[trigger] self.moves@[j]).0 by {
                assert(list@[i] != list@[j]);
            }
        }
    }

    /// Gives each move of the list its score.
    fn score_moves(&mut self, history: &History)
        requires
            old(self).pos.wf(),
            history.wf(),
            old(self).idx == 0,
            forall|i: int|
                0 <= i < old(self).moves@.len() ==> old(self).pos@.legal(
                    (#[trigger] old(self).moves@[i]).0,
                ),
            forall|mv: Move|
                old(self).pos@.legal(mv) ==> exists|i: int|
                    0 <= i < old(self).moves@.len() && (#[trigger] old(self).moves@[i]).0 == mv,
            forall|i: int, j: int|
                0 <= i < j < old(self).moves@.len() ==> (#[trigger] old(self).moves@[i]).0 != (
                #[trigger] old(self).moves@[j]).0,
        ensures
            final(self).pos == old(self).pos,
            final(self).tt_move == old(self).tt_move,
            final(self).stage == old(self).stage,
            final(self).pool_ok(),
            final(self).scored_by(history),
            final(self).idx == 0,
    {
        let mut i: usize = 0;
        let n = self.moves.len();
        while i < n
            invariant
                i <= n,
                n == self.moves@.len(),
                n == old(self).moves@.len(),
                self.pos.wf(),
                history.wf(),
                self.pos == old(self).pos,
                self.tt_move == old(self).tt_move,
                self.stage == old(self).stage,
                self.idx == 0,
                forall|k: int| 0 <= k < n ==> (#[trigger] self.moves@[k]).0 == old(self).moves@[k].0,
                forall|k: int| 0 <= k < n ==> self.pos@.legal((#[trigger] old(self).moves@[k]).0),
                forall|a: int, b: int|
                    0 <= a < b < n ==> (#[trigger] old(self).moves@[a]).0 != (#[trigger] old(self).moves@[b]).0,
                forall|mv: Move|
                    self.pos@.legal(mv) ==> exists|k: int|
                        0 <= k < n && (#[trigger] old(self).moves@[k]).0 == mv,
                forall|k: int|
                    0 <= k < i ==> (#[trigger] self.moves@[k]).1 == move_score(
                        self.pos,
                        history,
                        self.moves@[k].0,
                    ),
            decreases n - i,
        {
            let mv = self.moves[i].0;
            proof {
                assert(self.pos@.legal(old(self).moves@[i as int].0));
                lemma_move_fields(mv);
            }
            let score = if !mv.is_spread() {
                match mv.pt() {
                    PieceType::Flat => 1,
                    PieceType::Wall => 0,
                    PieceType::Capstone => 2,
                }
            } else {
                history.score(self.pos, mv)
            };
            self.moves[i] = (mv, score);
            i += 1;
        }
        proof {
            assert forall|mv: Move| self.pos@.legal(mv) implies exists|i: int|
                0 <= i < self.moves@.len() && (#[trigger] self.moves@[i]).0 == mv by {
                let k = choose|k: int|
                    0 <= k < old(self).moves@.len() && (#[trigger] old(self).moves@[k]).0 == mv;
                assert(self.moves@[k].0 == mv);
            }
            assert forall|i: int| 0 <= i < self.moves@.len() implies self.pos@.legal(
                (#[trigger] self.moves@[i]).0,
) by {
                assert(self.pos@.legal(old(self).moves@[i].0));
            }
        }
    }

    /// The best of the moves that are left and are not the table's move.
    fn select_next(&mut self, history: Ghost<&History>) -> (r: Option<Move>)
        requires
            old(self).pos.wf(),
            old(self).pool_ok(),
        ensures
            old(self).scored_by(history@) ==> final(self).scored_by(history@),
            final(self).pos == old(self).pos,
            final(self).tt_move == old(self).tt_move,
            final(self).stage == old(self).stage,
            final(self).pool_ok(),
            final(self).moves@.len() == old(self).moves@.len(),
            match r {
                Some(mv) => {
                    &&& final(self).idx > old(self).idx
                    &&& final(self).moves@[final(self).idx - 1].0 == mv
                    &&& Some(mv) != old(self).tt_move
                },
                None => final(self).idx == final(self).moves@.len(),
            },
            r.is_none() && old(self).idx < old(self).moves@.len() ==> old(self).tt_is_legal(),
            old(self).idx >= 1 && r.is_some() ==> final(self).moves@[final(self).idx - 1].1 <= old(self).moves@[old(self).idx - 1].1,
            final(self).moves@.to_multiset() == old(self).moves@.to_multiset(),
            final(self).moves@.subrange(0, old(self).idx as int) == old(self).moves@.subrange(
                0,
                old(self).idx as int,
            ),
            forall|i: int|
                old(self).idx <= i < (if r.is_some() {
                    final(self).idx - 1
                } else {
                    final(self).moves@.len() as int
                }) ==> Some((#[trigger] final(self).moves@[i]).0) == final(self).tt_move,
    {
        proof {
            assert(self.moves@.subrange(0, self.idx as int) =~= old(self).moves@.subrange(
                0,
                old(self).idx as int,
            ));
        }
        while self.idx < self.moves.len()
            invariant
                old(self).idx >= 1 ==> forall|i: int|
                    old(self).idx <= i < self.moves@.len() ==> (#[trigger] self.moves@[i]).1 <= old(self).moves@[old(self).idx - 1].1,
                self.moves@.to_multiset() == old(self).moves@.to_multiset(),
                self.moves@.subrange(0, old(self).idx as int) == old(self).moves@.subrange(
                    0,
                    old(self).idx as int,
                ),
                forall|i: int|
                    old(self).idx <= i < self.idx ==> Some((#[trigger] self.moves@[i]).0)
                        == self.tt_move,
                self.idx > old(self).idx ==> self.tt_is_legal(),
                self.pos == old(self).pos,
                self.tt_move == old(self).tt_move,
                self.stage == old(self).stage,
                self.pool_ok(),
                self.idx >= old(self).idx,
                self.moves@.len() == old(self).moves@.len(),
                old(self).scored_by(history@) ==> self.scored_by(history@),
            decreases self.moves.len() - self.idx,
        {
            let ghost before = self.moves@;
            let idx = self.find_next(history);
            proof {
                let j = choose|j: int|
                    is_first_best(before, idx as int, j) && self.moves@ == swapped(
                        before,
                        idx as int,
                        j,
                    );
                assert(self.moves@.subrange(0, old(self).idx as int) =~= before.subrange(
                    0,
                    old(self).idx as int,
                ));
                assert forall|i: int| old(self).idx <= i < idx implies self.moves@[i]
                    == before[i] by {}
                if old(self).idx >= 1 {
                    assert forall|i: int| old(self).idx <= i < self.moves@.len() implies (
                    #[trigger] self.moves@[i]).1 <= old(self).moves@[old(self).idx - 1].1 by {
                        if i == idx {
                            assert(self.moves@[i] == before[j]);
                        } else if i == j {
                            assert(self.moves@[i] == before[idx as int]);
                        } else {
                            assert(self.moves@[i] == before[i]);
                        }
                    }
                }
            }
            let mv = self.moves[idx].0;
            let skip = match self.tt_move {
                Some(tt_move) => mv == tt_move,
                None => false,
            };
            if !skip {
                return Some(mv);
            }
        }
        None
    }

    /// Brings the best of the moves that are left to the front of them
    /// and counts it as handed out. Returns its place in the list.
    fn find_next(&mut self, history: Ghost<&History>) -> (r: usize)
        requires
            old(self).pool_ok(),
            old(self).idx < old(self).moves@.len(),
        ensures
            old(self).scored_by(history@) ==> final(self).scored_by(history@),
            final(self).pos == old(self).pos,
            final(self).tt_move == old(self).tt_move,
            final(self).stage == old(self).stage,
            final(self).pool_ok(),
            r == old(self).idx,
            final(self).idx == old(self).idx + 1,
            final(self).moves@.len() == old(self).moves@.len(),
            exists|j: int|
                is_first_best(old(self).moves@, old(self).idx as int, j) && final(self).moves@
                    == swapped(old(self).moves@, old(self).idx as int, j),
            final(self).moves@.to_multiset() == old(self).moves@.to_multiset(),
    {
        let n = self.moves.len();
        let mut best_idx = self.idx;
        let mut best_score = self.moves[self.idx].1;
        let mut k = self.idx + 1;
        while k < self.moves.len()
            invariant
                self.idx < k <= self.moves@.len(),
                self.idx <= best_idx < k,
                best_score == self.moves@[best_idx as int].1,
                forall|j: int| self.idx <= j < k ==> (#[trigger] self.moves@[j]).1 <= best_score,
                forall|j: int| self.idx <= j < best_idx ==> (#[trigger] self.moves@[j]).1 < best_score,
            decreases self.moves.len() - k,
        {
            let score = self.moves[k].1;
            if score > best_score {
                best_idx = k;
                best_score = score;
            }
            k += 1;
        }
        let idx = self.idx;
        if idx != best_idx {
            let a = self.moves[idx];
            let b = self.moves[best_idx];
            self.moves[idx] = b;
            self.moves[best_idx] = a;
        }
        self.idx += 1;
        proof {
            let before = old(self).moves@;
            let after = self.moves@;
            assert(after =~= swapped(before, idx as int, best_idx as int));
            assert(is_first_best(before, idx as int, best_idx as int));
            lemma_swapped_holds_the_same(before, idx as int, best_idx as int);
            assert forall|mv: Move| self.pos@.legal(mv) implies exists|i: int|
                0 <= i < after.len() && (#[trigger] after[i]).0 == mv by {
                let i = choose|i: int| 0 <= i < before.len() && (#[trigger] before[i]).0 == mv;
                if i == idx {
                    assert(after[best_idx as int].0 == mv);
                } else if i == best_idx {
                    assert(after[idx as int].0 == mv);
                } else {
                    assert(after[i].0 == mv);
                }
            }
            assert forall|i: int| 0 <= i < after.len() implies self.pos@.legal(
                (#[trigger] after[i]).0,
) by {
                if i == idx {
                    assert(after[i] == before[best_idx as int]);
                } else if i == best_idx {
                    assert(after[i] == before[idx as int]);
                } else {
                    assert(after[i] == before[i]);
                }
            }
            assert forall|i: int, j: int| 0 <= i < j < after.len() implies (#[trigger] after[i]).0
                != (#[trigger] after[j]).0 by {
                let ii = if i == idx {
                    best_idx as int
                } else if i == best_idx {
                    idx as int
                } else {
                    i
                };
                let jj = if j == idx {
                    best_idx as int
                } else if j == best_idx {
                    idx as int
                } else {
                    j
                };
                assert(after[i] == before[ii]);
                assert(after[j] == before[jj]);
                if ii < jj {
                    assert(before[ii].0 != before[jj].0);
                } else {
                    assert(before[jj].0 != before[ii].0);
                }
            }
            assert forall|i: int, j: int| 0 <= i < self.idx && self.idx <= j < after.len() implies (
            #[trigger] after[i]).1 >= (#[trigger] after[j]).1 by {
                let jj = if j == best_idx {
                    idx as int
                } else {
                    j
                };
                assert(after[j] == before[jj]);
                if i < idx {
                    assert(after[i] == before[i]);
                    assert(before[i].1 >= before[jj].1);
                } else {
                    assert(after[i] == before[best_idx as int]);
                    assert(before[jj].1 <= best_score);
                }
            }
        }
        idx
    }
}

} // verus!
