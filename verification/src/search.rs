use vstd::prelude::*;
use crate::datagen::{check_terminal, GameResult};
use crate::eval::static_eval;
use crate::history::History;
use crate::keys::Keys;
use crate::limit::Limits;
use crate::movegen::{added, generate_moves};
use crate::movepick::{Movepicker, Stage};
use crate::position::Position;
use crate::takmove::{lemma_move_fields, Move};
use crate::tt::{Bound, TranspositionTable};

verus! {

/// The score of a won game at the root.
pub const SCORE_WIN: i32 = 30000;

/// The score that stands for no score.
pub const SCORE_NONE: i32 = -2147483648;

/// The greatest number of moves that a search looks ahead.
pub const MAX_PLY: i32 = 256;

/// The greatest size of a score that is not the score of a won or lost game.
pub const MAX_EVAL: i32 = 29000;

/// The scores of won and lost games are those at least this large.
pub const SCORE_MATE: i32 = 29744;

/// The move that a search has found best at the root, and its score.
#[derive(Clone, Copy, Debug)]
pub struct RootMove {
    pub best: Option<Move>,
    pub score: i32,
}

impl RootMove {
    /// The move, where the position has one.
    pub fn mv(&self) -> (r: Move)
        requires
            self.best.is_some(),
        ensures
            Some(r) == self.best,
    {
        self.best.unwrap()
    }
}

/// What one depth of a search has found.
#[derive(Clone, Copy, Debug)]
pub struct SearchInfo {
    pub depth: i32,
    pub score: i32,
    pub nodes: usize,
    pub mv: Move,
}

/// What a search knows of its own course.
pub struct ThreadData {
    pub nodes: usize,
    pub root: RootMove,
    pub depth: i32,
    pub stopped: bool,
    pub infos: Vec<SearchInfo>,
}

impl ThreadData {
    /// The best move at the root and its score.
    pub fn pv_move(&self) -> (r: RootMove)
        ensures
            r == self.root,
    {
        self.root
    }
}

/// What a search returns for one position: the score, and the best move
/// if one was searched.
#[derive(Clone, Copy, Debug)]
pub struct SearchResult {
    pub score: i32,
    pub mv: Option<Move>,
}

/// The score to keep in the table for a score found `ply` moves from the
/// root: the score of a won or lost game counts its moves from the position
/// in the table, not from the root.
pub open spec fn folded(score: int, ply: int) -> int {
    if score >= SCORE_MATE {
        score + ply
    } else if score <= -SCORE_MATE {
        score - ply
    } else {
        score
    }
}

/// The score that a score kept in the table stands for `ply` moves from
/// the root, no larger in size than the score of a won game.
pub open spec fn unfolded(score: int, ply: int) -> int {
    let s = if score >= SCORE_MATE {
        score - ply
    } else if score <= -SCORE_MATE {
        score + ply
    } else {
        score
    };
    if s > SCORE_WIN {
        SCORE_WIN as int
    } else if s < -SCORE_WIN {
        -(SCORE_WIN as int)
    } else {
        s
    }
}

pub fn score_to_tt(score: i32, ply: i32) -> (r: i16)
    requires
        -SCORE_WIN <= score <= SCORE_WIN,
        0 <= ply <= MAX_PLY,
    ensures
        r == folded(score as int, ply as int),
{
    if score >= SCORE_MATE {
        (score + ply) as i16
    } else if score <= -SCORE_MATE {
        (score - ply) as i16
    } else {
        score as i16
    }
}

pub fn score_from_tt(score: i16, ply: i32) -> (r: i32)
    requires
        0 <= ply <= MAX_PLY,
    ensures
        r == unfolded(score as int, ply as int),
        -SCORE_WIN <= r <= SCORE_WIN,
{
    let score = score as i32;
    let s = if score >= SCORE_MATE {
        score - ply
    } else if score <= -SCORE_MATE {
        score + ply
    } else {
        score
    };
    if s > SCORE_WIN {
        SCORE_WIN
    } else if s < -SCORE_WIN {
        -SCORE_WIN
    } else {
        s
    }
}

/// The value of the position for the side to move, kept below the scores
/// of won and lost games.
pub open spec fn leaf_score(pos: &Position) -> int {
    let v = pos.value();
    if v > MAX_EVAL {
        MAX_EVAL as int
    } else if v < -MAX_EVAL {
        -(MAX_EVAL as int)
    } else {
        v
    }
}

/// The depth under which a search to depth `depth` looks into the table.
pub open spec fn table_depth(depth: int) -> int {
    if depth > 255 {
        255
    } else {
        depth
    }
}

/// The number of nodes after one more than `nodes`, which stays at the greatest number.
pub open spec fn one_more(nodes: usize) -> usize {
    if nodes == usize::MAX {
        nodes
    } else {
        (nodes + 1) as usize
    }
}

/// The depth that a search asked for `max_depth` moves reaches if nothing stops it.
pub open spec fn full_depth(max_depth: int) -> int {
    if max_depth > MAX_PLY {
        MAX_PLY as int
    } else if max_depth < 0 {
        0
    } else {
        max_depth
    }
}

/// Searches positions for the best move.
pub struct Searcher {
    pub tt: TranspositionTable,
    pub history: History,
    pub keys: Keys,
    pub data: ThreadData,
    pub silent: bool,
}

impl Searcher {
    pub open spec fn wf(&self) -> bool {
        &&& self.tt.wf()
        &&& self.history.wf()
        &&& self.keys.wf()
    }

    /// A searcher with an empty table of `tt_size_mib` mebibytes.
    pub fn new(tt_size_mib: usize) -> (r: Searcher)
        requires
            1 <= tt_size_mib <= 32768,
        ensures
            r.wf(),
            r.data.root.best.is_none(),
            !r.silent,
            r.tt.entries@.len() == tt_size_mib * crate::tt::ENTRIES_PER_MIB,
            forall|i: int|
                0 <= i < r.tt.entries@.len() ==> r.tt.entries@[i] == crate::tt::empty_entry(),
            r.history.tables@[0].is_zero(),
            r.history.tables@[1].is_zero(),
    {
        Searcher {
            tt: TranspositionTable::new(tt_size_mib),
            history: History::new(),
            keys: Keys::new(),
            data: ThreadData {
                nodes: 0,
                root: RootMove { best: None, score: 0 },
                depth: 0,
                stopped: false,
                infos: Vec::new(),
            },
            silent: false,
        }
    }

    /// Says whether the searcher is to keep what it finds at each depth to itself.
    pub fn set_silent(&mut self, silent: bool)
        ensures
            final(self).silent == silent,
            final(self).tt == old(self).tt,
            final(self).history == old(self).history,
            final(self).keys == old(self).keys,
            final(self).data == old(self).data,
    {
        self.silent = silent;
    }

    /// Forgets what earlier searches have left in the table and the history.
    pub fn reset(&mut self)
        requires
            old(self).wf(),
        ensures
            final(self).wf(),
            final(self).tt.generation == 0,
            final(self).tt.entries@.len() == old(self).tt.entries@.len(),
            forall|i: int|
                0 <= i < final(self).tt.entries@.len() ==> final(self).tt.entries@[i]
                    == crate::tt::empty_entry(),
            final(self).history.tables@[0].is_zero(),
            final(self).history.tables@[1].is_zero(),
            final(self).silent == old(self).silent,
            final(self).data == old(self).data,
    {
        self.tt.clear();
        self.history.clear();
    }

    /// What the search knows of its own course.
    pub fn thread(&self) -> (r: &ThreadData)
        ensures
            *r == self.data,
    {
        &self.data
    }

    /// Whether the table holds an exact score for the position with the
    /// key `key` from a search at least `depth` moves deep.
    pub open spec fn has_exact(&self, key: u64, depth: int) -> bool {
        let e = self.tt.entries@[self.tt.slot(key)];
        TranspositionTable::matches(e, key) && e.depth >= table_depth(depth) && e.bound
            == Bound::Exact
    }

    /// Searches `pos`, which is `ply` moves from the root, `depth` moves
    /// deep for a score between `alpha` and `beta`. `key_history` holds the
    /// keys of the positions before `pos`.
    ///
    /// A search that has been stopped does nothing and returns the score 0.
    /// Else the node is counted, and the search is stopped if the bound on
    /// nodes is reached. A search that is not stopped returns, at depth 0,
    /// the value of the position; below the root, the exact score that the
    /// table holds from a search deep enough, if there is one; and at the
    /// root a move if and only if the position has a legal move.
    fn search(
        &mut self,
        pos: &Position,
        key_history: &mut Vec<u64>,
        limits: &Limits,
        depth: i32,
        ply: i32,
        alpha: i32,
        beta: i32,
    ) -> (r: SearchResult)
        requires
            old(self).wf(),
            pos.wf(),
            0 <= depth,
            0 <= ply,
            depth + ply <= MAX_PLY,
            pos.ply + depth < u32::MAX,
            -SCORE_WIN <= alpha < beta <= SCORE_WIN,
        ensures
            final(self).wf(),
            final(key_history)@ == old(key_history)@,
            -SCORE_WIN <= r.score <= SCORE_WIN,
            r.mv.is_some() ==> pos@.legal(r.mv.unwrap()),
            final(self).silent == old(self).silent,
            final(self).data.root == old(self).data.root,
            final(self).data.depth == old(self).data.depth,
            final(self).data.infos == old(self).data.infos,
            final(self).tt.generation == old(self).tt.generation,
            final(self).tt.entries@.len() == old(self).tt.entries@.len(),
            old(self).data.stopped ==> *final(self) == *old(self) && r.score == 0 && r.mv.is_none(),
            old(self).data.stopped ==> final(self).data.stopped,
            !old(self).data.stopped && limits.unbounded() ==> !final(self).data.stopped,
            r.mv.is_some() ==> depth > 0,
            !old(self).data.stopped ==> final(self).data.nodes >= one_more(old(self).data.nodes),
            !old(self).data.stopped && limits.hard_nodes_reached(one_more(old(self).data.nodes))
                ==> final(self).data.stopped && r.score == 0 && r.mv.is_none(),
            !final(self).data.stopped && depth == 0 ==> r.score == leaf_score(pos) && r.mv.is_none()
                && final(self).data.nodes == one_more(old(self).data.nodes),
            !final(self).data.stopped && depth > 0 && ply > 0 && old(self).has_exact(
                pos.key,
                depth as int,
            ) ==> r.score == unfolded(
                old(self).tt.entries@[old(self).tt.slot(pos.key)].score as int,
                ply as int,
            ) && r.mv.is_none(),
            !final(self).data.stopped && depth > 0 && ply == 0 ==> (r.mv.is_some() <==> exists|
                mv: Move,
            |
                pos@.legal(mv)),
            !final(self).data.stopped && depth > 0 && ply == 0 && r.mv.is_none() ==> r.score
                == -SCORE_WIN,
        decreases depth,
    {
        if self.data.stopped {
            return SearchResult { score: 0, mv: None };
        }
        self.data.nodes = self.data.nodes.saturating_add(1);
        if limits.should_stop_hard(self.data.nodes) {
            self.data.stopped = true;
            return SearchResult { score: 0, mv: None };
        }
        if depth == 0 {
            let v = static_eval(pos);
            let v = if v > MAX_EVAL {
                MAX_EVAL
            } else if v < -MAX_EVAL {
                -MAX_EVAL
            } else {
                v
            };
            return SearchResult { score: v, mv: None };
        }
        let mut alpha = alpha;
        let mut beta = beta;
        let stored_depth: u8 = if depth > 255 {
            255
        } else {
            depth as u8
        };
        let probe = self.tt.probe(pos.key(), stored_depth);
        let tt_move: Option<Move> = match probe.mv {
            Some(raw) => Move::from_raw(raw),
            None => None,
        };
        if ply > 0 {
            match probe.entry {
                Some(entry) => {
                    let score = score_from_tt(entry.score, ply);
                    match entry.bound {
                        Bound::Exact => {
                            return SearchResult { score, mv: None };
                        },
                        Bound::Lower => {
                            if score > alpha {
                                alpha = score;
                            }
                        },
                        Bound::Upper => {
                            if score < beta {
                                beta = score;
                            }
                        },
                        Bound::Empty => {},
                    }
                    if alpha >= beta {
                        return SearchResult { score, mv: None };
                    }
                },
                None => {},
            }
        }
        let first_alpha = alpha;
        let mut best: i32 = -SCORE_WIN;
        let mut best_move: Option<Move> = None;
        let mut bound = Bound::Upper;
        let mut tried: Vec<Move> = Vec::new();
        let mut picker = Movepicker::new(pos, Vec::new(), tt_move);
        loop
            invariant_except_break
                self.wf(),
                pos.wf(),
                picker.wf(),
                picker.pos == pos,
                picker.idx <= picker.moves@.len() || picker.stage != Stage::Moves,
                key_history@ == old(key_history)@,
                1 <= depth,
                0 <= ply,
                depth + ply <= MAX_PLY,
                pos.ply + depth < u32::MAX,
                -SCORE_WIN <= alpha < beta <= SCORE_WIN,
                -SCORE_WIN <= best <= SCORE_WIN,
                best_move.is_some() ==> pos@.legal(best_move.unwrap()),
                forall|i: int| 0 <= i < tried@.len() ==> (#[trigger] tried@[i]).wf(),
                self.silent == old(self).silent,
                self.data.root == old(self).data.root,
                self.data.depth == old(self).data.depth,
                self.data.infos == old(self).data.infos,
                bound != Bound::Empty,
                !self.data.stopped,
                best_move.is_some() || picker.stage == Stage::TtMove,
                best_move.is_none() ==> best == -SCORE_WIN,
            invariant
                self.data.nodes >= one_more(old(self).data.nodes),
                self.tt.generation == old(self).tt.generation,
                self.tt.entries@.len() == old(self).tt.entries@.len(),
            ensures
                limits.unbounded() ==> !self.data.stopped,
                !self.data.stopped && best_move.is_none() ==> best == -SCORE_WIN && forall|
                    mv: Move,
                | !pos@.legal(mv),
                self.wf(),
                self.data.root == old(self).data.root,
                self.data.depth == old(self).data.depth,
                self.data.infos == old(self).data.infos,
                key_history@ == old(key_history)@,
                -SCORE_WIN <= best <= SCORE_WIN,
                best_move.is_some() ==> pos@.legal(best_move.unwrap()),
                self.silent == old(self).silent,
                bound != Bound::Empty,
            decreases picker.stage.left(), picker.moves@.len() - picker.idx,
        {
            let mv = match picker.next(&self.history) {
                Some(mv) => mv,
                None => {
                    break ;
                },
            };
            proof {
                lemma_move_fields(mv);
            }
            let next = pos.apply_move(mv, &self.keys);
            key_history.push(pos.key());
            let ended = check_terminal(&next, key_history.as_slice(), mv);
            let score = match ended {
                Some(GameResult::Win) => -(SCORE_WIN - (ply + 1)),
                Some(GameResult::Loss) => SCORE_WIN - (ply + 1),
                Some(GameResult::Draw) => 0,
                None => {
                    let child = self.search(
                        &next,
                        key_history,
                        limits,
                        depth - 1,
                        ply + 1,
                        -beta,
                        -alpha,
                    );
                    -child.score
                },
            };
            key_history.pop();
            proof {
                assert(key_history@ =~= old(key_history)@);
            }
            if self.data.stopped {
                break ;
            }
            if best_move.is_none() || score > best {
                best = score;
                best_move = Some(mv);
            }
            if score > alpha {
                alpha = score;
                bound = Bound::Exact;
            }
            if score >= beta {
                bound = Bound::Lower;
                let bonus = 300 * depth - 250;
                self.history.update(pos, mv, bonus);
                let mut k: usize = 0;
                while k < tried.len()
                    invariant
                        self.wf(),
                        self.silent == old(self).silent,
                        self.data.root == old(self).data.root,
                        self.data.depth == old(self).data.depth,
                        self.data.infos == old(self).data.infos,
                        !self.data.stopped,
                        self.data.nodes >= one_more(old(self).data.nodes),
                        self.tt.generation == old(self).tt.generation,
                        self.tt.entries@.len() == old(self).tt.entries@.len(),
                        -100000 <= bonus <= 100000,
                        forall|i: int| 0 <= i < tried@.len() ==> (#[trigger] tried@[i]).wf(),
                    decreases tried.len() - k,
                {
                    proof {
                        lemma_move_fields(tried@[k as int]);
                    }
                    self.history.update(pos, tried[k], -bonus);
                    k += 1;
                }
                break ;
            }
            tried.push(mv);
        }
        if !self.data.stopped {
            match best_move {
                Some(mv) => {
                    self.tt.store(pos.key(), mv.raw(), score_to_tt(best, ply), stored_depth, bound);
                },
                None => {},
            }
        }
        SearchResult { score: best, mv: best_move }
    }

    /// Searches `pos` deeper and deeper, up to `max_depth` moves, within
    /// the bounds `limits`, and keeps the best move and its score.
    /// `key_history` holds the keys of the positions before `pos`.
    pub fn run_search(&mut self, pos: &Position, key_history: &[u64], limits: Limits, max_depth: i32)
        requires
            old(self).wf(),
            pos.wf(),
            pos.ply < u32::MAX - MAX_PLY,
        ensures
            final(self).wf(),
            final(self).silent == old(self).silent,
            match final(self).data.root.best {
                Some(mv) => pos@.legal(mv),
                None => forall|mv: Move| !pos@.legal(mv),
            },
            -SCORE_WIN <= final(self).data.root.score <= SCORE_WIN,
            0 <= final(self).data.depth <= full_depth(max_depth as int),
            final(self).silent ==> final(self).data.infos@.len() == 0,
            !final(self).silent ==> final(self).data.infos@.len() == final(self).data.depth,
            forall|i: int|
                0 <= i < final(self).data.infos@.len() ==> {
                    let info = #[trigger] final(self).data.infos@[i];
                    &&& info.depth == i + 1
                    &&& pos@.legal(info.mv)
                    &&& -SCORE_WIN <= info.score <= SCORE_WIN
                },
            !final(self).silent && final(self).data.depth > 0 ==> final(self).data.root.best
                == Some(final(self).data.infos@.last().mv) && final(self).data.root.score == final(self).data.infos@.last().score,
            limits.unbounded() ==> !final(self).data.stopped,
            limits.unbounded() && (exists|mv: Move| pos@.legal(mv)) ==> final(self).data.depth
                == full_depth(max_depth as int),
            final(self).data.depth > 0 ==> final(self).data.nodes >= 1,
    {
        self.tt.new_search();
        self.data.nodes = 0;
        self.data.stopped = false;
        self.data.depth = 0;
        self.data.infos.clear();
        let mut keys: Vec<u64> = Vec::new();
        let mut i: usize = 0;
        while i < key_history.len()
            invariant
                i <= key_history@.len(),
                keys@ == key_history@.subrange(0, i as int),
            decreases key_history.len() - i,
        {
            keys.push(key_history[i]);
            proof {
                assert(keys@ =~= key_history@.subrange(0, i as int + 1));
            }
            i += 1;
        }
        let mut list: Vec<Move> = Vec::new();
        generate_moves(&mut list, pos);
        proof {
            assert(added(Seq::<Move>::empty(), list@) =~= list@);
        }
        if list.len() == 0 {
            self.data.root = RootMove { best: None, score: 0 };
            proof {
                assert forall|mv: Move| !pos@.legal(mv) by {
                    if pos@.legal(mv) {
                        assert(crate::movegen::holds(list@, mv));
                    }
                }
            }
            return ;
        }
        self.data.root = RootMove { best: Some(list[0]), score: 0 };
        let top: i32 = if max_depth > MAX_PLY {
            MAX_PLY
        } else {
            max_depth
        };
        let mut depth: i32 = 1;
        while depth <= top
            invariant_except_break
                1 <= depth,
                top <= MAX_PLY,
                self.wf(),
                pos.wf(),
                pos.ply < u32::MAX - MAX_PLY,
                self.silent == old(self).silent,
                self.data.root.best.is_some(),
                pos@.legal(self.data.root.best.unwrap()),
                -SCORE_WIN <= self.data.root.score <= SCORE_WIN,
                self.data.depth == depth - 1,
                depth <= top + 1 || depth == 1,
                top == if max_depth > MAX_PLY {
                    MAX_PLY
                } else {
                    max_depth
                },
                !self.data.stopped,
                self.data.depth > 0 ==> self.data.nodes >= 1,
                self.silent ==> self.data.infos@.len() == 0,
                !self.silent ==> self.data.infos@.len() == self.data.depth,
                forall|i: int|
                    0 <= i < self.data.infos@.len() ==> {
                        let info = #[trigger] self.data.infos@[i];
                        &&& info.depth == i + 1
                        &&& pos@.legal(info.mv)
                        &&& -SCORE_WIN <= info.score <= SCORE_WIN
                    },
                !self.silent && self.data.depth > 0 ==> self.data.root.best == Some(
                    self.data.infos@.last().mv,
                ) && self.data.root.score == self.data.infos@.last().score,
            ensures
                self.wf(),
                self.silent == old(self).silent,
                self.data.root.best.is_some(),
                pos@.legal(self.data.root.best.unwrap()),
                -SCORE_WIN <= self.data.root.score <= SCORE_WIN,
                0 <= self.data.depth <= full_depth(max_depth as int),
                self.data.depth > 0 ==> self.data.nodes >= 1,
                self.silent ==> self.data.infos@.len() == 0,
                !self.silent ==> self.data.infos@.len() == self.data.depth,
                forall|i: int|
                    0 <= i < self.data.infos@.len() ==> {
                        let info = #[trigger] self.data.infos@[i];
                        &&& info.depth == i + 1
                        &&& pos@.legal(info.mv)
                        &&& -SCORE_WIN <= info.score <= SCORE_WIN
                    },
                !self.silent && self.data.depth > 0 ==> self.data.root.best == Some(
                    self.data.infos@.last().mv,
                ) && self.data.root.score == self.data.infos@.last().score,
                limits.unbounded() ==> !self.data.stopped && self.data.depth == full_depth(
                    max_depth as int,
                ),
            decreases top + 1 - depth,
        {
            let r = self.search(pos, &mut keys, &limits, depth, 0, -SCORE_WIN, SCORE_WIN);
            if self.data.stopped {
                break ;
            }
            match r.mv {
                Some(mv) => {
                    self.data.root = RootMove { best: Some(mv), score: r.score };
                    self.data.depth = depth;
                    if !self.silent {
                        self.data.infos.push(
                            SearchInfo { depth, score: r.score, nodes: self.data.nodes, mv },
                        );
                    }
                },
                None => {},
            }
            if limits.should_stop_soft(self.data.nodes) {
                break ;
            }
            depth += 1;
        }
    }

    /// Searches `pos` for the data generator: as `run_search`.
    pub fn run_datagen_search(
        &mut self,
        pos: &Position,
        key_history: &[u64],
        limits: Limits,
        max_depth: i32,
    )
        requires
            old(self).wf(),
            pos.wf(),
            pos.ply < u32::MAX - MAX_PLY,
        ensures
            final(self).wf(),
            final(self).silent == old(self).silent,
            match final(self).data.root.best {
                Some(mv) => pos@.legal(mv),
                None => forall|mv: Move| !pos@.legal(mv),
            },
            -SCORE_WIN <= final(self).data.root.score <= SCORE_WIN,
            0 <= final(self).data.depth <= full_depth(max_depth as int),
            final(self).silent ==> final(self).data.infos@.len() == 0,
            !final(self).silent ==> final(self).data.infos@.len() == final(self).data.depth,
            forall|i: int|
                0 <= i < final(self).data.infos@.len() ==> {
                    let info = #[trigger] final(self).data.infos@[i];
                    &&& info.depth == i + 1
                    &&& pos@.legal(info.mv)
                    &&& -SCORE_WIN <= info.score <= SCORE_WIN
                },
            !final(self).silent && final(self).data.depth > 0 ==> final(self).data.root.best
                == Some(final(self).data.infos@.last().mv) && final(self).data.root.score == final(self).data.infos@.last().score,
            limits.unbounded() ==> !final(self).data.stopped,
            limits.unbounded() && (exists|mv: Move| pos@.legal(mv)) ==> final(self).data.depth
                == full_depth(max_depth as int),
            final(self).data.depth > 0 ==> final(self).data.nodes >= 1,
    {
        self.run_search(pos, key_history, limits, max_depth);
    }
}

} // verus!
