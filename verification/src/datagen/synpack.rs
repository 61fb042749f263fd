use vstd::prelude::*;
use crate::datagen::GameResult;
use crate::takmove::Move;

verus! {

/// A move with the score that the search gave it.
#[derive(Clone, Copy, Debug, PartialEq, Eq, Structural)]
pub struct ScoredMove {
    pub mv: u16,
    pub score: i16,
}

impl ScoredMove {
    /// The move `mv` with the 16 low bits of `score`.
    pub fn new(mv: Move, score: i32) -> (r: ScoredMove)
        ensures
            r.mv == mv.raw,
            r.score == score as i16,
            -0x8000 <= score < 0x8000 ==> r.score == score,
    {
        ScoredMove { mv: mv.raw(), score: #[verifier::truncate] (score as i16) }
    }
}

/// The low byte of a 16-bit word.
pub open spec fn low_byte(x: u16) -> u8 {
    (x % 256) as u8
}

/// The high byte of a 16-bit word.
pub open spec fn high_byte(x: u16) -> u8 {
    (x / 256) as u8
}

/// The word that stands for a score in a record: the same 16 bits.
pub open spec fn score_word(score: i16) -> u16 {
    if score >= 0 {
        score as u16
    } else {
        (score + 0x10000) as u16
    }
}

/// The number that stands for a result in a record's header.
pub open spec fn outcome_number(outcome: GameResult) -> u8 {
    match outcome {
        GameResult::Loss => 0,
        GameResult::Draw => 1,
        GameResult::Win => 2,
    }
}

/// The bytes of the words `words`, each with its low byte first.
pub open spec fn words_bytes(words: Seq<u16>) -> Seq<u8> {
    Seq::new(2 * words.len(), |i: int| if i % 2 == 0 {
        low_byte(words[i / 2])
    } else {
        high_byte(words[i / 2])
    })
}

/// The bytes of the scored moves `moves`: for each the move and then the
/// score, each with its low byte first.
pub open spec fn scored_bytes(moves: Seq<ScoredMove>) -> Seq<u8> {
    Seq::new(
        4 * moves.len(),
        |i: int|
            if i % 4 == 0 {
                low_byte(moves[i / 4].mv)
            } else if i % 4 == 1 {
                high_byte(moves[i / 4].mv)
            } else if i % 4 == 2 {
                low_byte(score_word(moves[i / 4].score))
            } else {
                high_byte(score_word(moves[i / 4].score))
            },
    )
}

/// The record of one game: a header byte with the result for the first
/// player in its two high bits, the number of unscored moves as a word, the
/// unscored moves, the scored moves, and four zero bytes.
pub open spec fn record_bytes(unscored: Seq<u16>, moves: Seq<ScoredMove>, outcome: GameResult) -> Seq<
    u8,
> {
    record_head(unscored, outcome) + scored_bytes(moves) + seq![0u8, 0u8, 0u8, 0u8]
}

/// The beginning of a record: the header byte, the number of unscored
/// moves and the unscored moves.
pub open spec fn record_head(unscored: Seq<u16>, outcome: GameResult) -> Seq<u8> {
    seq![(outcome_number(outcome) * 64) as u8] + words_bytes(
        seq![(unscored.len() % 0x10000) as u16],
    ) + words_bytes(unscored)
}

/// Collects the moves of one game and writes them as a record.
pub struct SynpackWriter {
    pub unscored_moves: Vec<u16>,
    pub moves: Vec<ScoredMove>,
}

fn push_word(out: &mut Vec<u8>, x: u16)
    ensures
        final(out)@ == old(out)@.push(low_byte(x)).push(high_byte(x)),
{
    out.push((x % 256) as u8);
    out.push((x / 256) as u8);
}

fn score_bits(score: i16) -> (r: u16)
    ensures
        r == score_word(score),
{
    if score >= 0 {
        score as u16
    } else {
        (score as i32 + 0x10000) as u16
    }
}

impl SynpackWriter {
    pub fn new() -> (r: SynpackWriter)
        ensures
            r.unscored_moves@.len() == 0,
            r.moves@.len() == 0,
    {
        SynpackWriter { unscored_moves: Vec::with_capacity(16), moves: Vec::with_capacity(1024) }
    }

    /// Forgets the moves collected, for a new game.
    pub fn start(&mut self)
        ensures
            final(self).unscored_moves@.len() == 0,
            final(self).moves@.len() == 0,
    {
        self.unscored_moves.clear();
        self.moves.clear();
    }

    /// Adds a move of the opening, which has no score.
    pub fn push_unscored(&mut self, mv: Move)
        ensures
            final(self).unscored_moves@ == old(self).unscored_moves@.push(mv.raw),
            final(self).moves@ == old(self).moves@,
    {
        self.unscored_moves.push(mv.raw());
    }

    /// Adds a move with its score.
    pub fn push(&mut self, mv: Move, score: i32)
        ensures
            final(self).moves@ == old(self).moves@.push(
                ScoredMove { mv: mv.raw, score: score as i16 },
            ),
            final(self).unscored_moves@ == old(self).unscored_moves@,
    {
        self.moves.push(ScoredMove::new(mv, score));
    }

    /// Writes the record of the game with the result `outcome` for the first
    /// player at the end of `out`. Returns the number of scored moves.
    pub fn write_all_with_outcome(&self, out: &mut Vec<u8>, outcome: GameResult) -> (r: usize)
        ensures
            final(out)@ == old(out)@ + record_bytes(self.unscored_moves@, self.moves@, outcome),
            r == self.moves@.len(),
    {
        let number: u8 = match outcome {
            GameResult::Loss => 0,
            GameResult::Draw => 1,
            GameResult::Win => 2,
        };
        out.push(number * 64);
        let count = (self.unscored_moves.len() % 0x10000) as u16;
        push_word(out, count);
        let ghost head = out@;
        proof {
            assert(head =~= old(out)@ + (seq![(outcome_number(outcome) * 64) as u8] + words_bytes(
                seq![(self.unscored_moves@.len() % 0x10000) as u16],
            )));
        }
        let mut i: usize = 0;
        while i < self.unscored_moves.len()
            invariant
                i <= self.unscored_moves@.len(),
                out@ == head + words_bytes(self.unscored_moves@.subrange(0, i as int)),
            decreases self.unscored_moves.len() - i,
        {
            push_word(out, self.unscored_moves[i]);
            proof {
                assert(out@ =~= head + words_bytes(self.unscored_moves@.subrange(0, i as int + 1)));
            }
            i += 1;
        }
        let ghost mid = out@;
        proof {
            assert(self.unscored_moves@.subrange(0, i as int) =~= self.unscored_moves@);
            assert(mid =~= old(out)@ + record_head(self.unscored_moves@, outcome));
        }
        let mut j: usize = 0;
        while j < self.moves.len()
            invariant
                j <= self.moves@.len(),
                out@ == mid + scored_bytes(self.moves@.subrange(0, j as int)),
            decreases self.moves.len() - j,
        {
            let m = self.moves[j];
            push_word(out, m.mv);
            push_word(out, score_bits(m.score));
            proof {
                assert(out@ =~= mid + scored_bytes(self.moves@.subrange(0, j as int + 1)));
            }
            j += 1;
        }
        proof {
            assert(self.moves@.subrange(0, j as int) =~= self.moves@);
        }
        out.push(0);
        out.push(0);
        out.push(0);
        out.push(0);
        proof {
            assert(out@ =~= old(out)@ + (record_head(self.unscored_moves@, outcome) + scored_bytes(
                self.moves@,
            ) + seq![0u8, 0u8, 0u8, 0u8]));
        }
        self.moves.len()
    }
}


/// The word whose low byte is the byte of `b` numbered `i` and whose high byte is the next.
pub open spec fn word_at(b: Seq<u8>, i: int) -> u16 {
    (b[i] + 256 * b[i + 1]) as u16
}

/// The score that a word of a record stands for.
pub open spec fn score_of_word(w: u16) -> i16 {
    if w < 0x8000 {
        w as i16
    } else {
        (w - 0x10000) as i16
    }
}

/// The result that a header byte stands for.
pub open spec fn outcome_of_header(h: u8) -> Option<GameResult> {
    if h == 0 {
        Some(GameResult::Loss)
    } else if h == 64 {
        Some(GameResult::Draw)
    } else if h == 128 {
        Some(GameResult::Win)
    } else {
        None
    }
}

/// The scored move that the four bytes of `b` from the byte numbered `at` on stand for.
pub open spec fn scored_at(b: Seq<u8>, at: int) -> ScoredMove {
    ScoredMove { mv: word_at(b, at), score: score_of_word(word_at(b, at + 2)) }
}

/// The scored moves that the bytes of `b` from the byte numbered `at`
/// on hold, up to four zero bytes, and the number of the byte after
/// those; nothing if the bytes end before.
pub open spec fn scan_scored(b: Seq<u8>, at: int) -> Option<(Seq<ScoredMove>, int)>
    decreases b.len() - at,
{
    if at < 0 || at + 4 > b.len() {
        None
    } else if word_at(b, at) == 0 && word_at(b, at + 2) == 0 {
        Some((Seq::empty(), at + 4))
    } else {
        match scan_scored(b, at + 4) {
            Some((rest, end)) => Some((seq![scored_at(b, at)] + rest, end)),
            None => None,
        }
    }
}

/// A record as plain values: the result for the first player, the
/// unscored moves, the scored moves, and the number of bytes of the record.
pub struct RecordView {
    pub outcome: GameResult,
    pub unscored: Seq<u16>,
    pub moves: Seq<ScoredMove>,
    pub used: int,
}

/// The record that the bytes `b` begin with, if they begin with one.
pub open spec fn parse_record(b: Seq<u8>) -> Option<RecordView> {
    if b.len() < 3 || outcome_of_header(b[0]).is_none() {
        None
    } else {
        let count = word_at(b, 1) as int;
        if 3 + 2 * count > b.len() {
            None
        } else {
            match scan_scored(b, 3 + 2 * count) {
                Some((moves, end)) => Some(
                    RecordView {
                        outcome: outcome_of_header(b[0]).unwrap(),
                        unscored: Seq::new(count as nat, |i: int| word_at(b, 3 + 2 * i)),
                        moves,
                        used: end,
                    },
                ),
                None => None,
            }
        }
    }
}

/// A record read from its bytes.
pub struct GameRecord {
    pub outcome: GameResult,
    pub unscored: Vec<u16>,
    pub moves: Vec<ScoredMove>,
    pub used: usize,
}

impl GameRecord {
    pub open spec fn view(&self) -> RecordView {
        RecordView {
            outcome: self.outcome,
            unscored: self.unscored@,
            moves: self.moves@,
            used: self.used as int,
        }
    }
}

fn read_word(bytes: &[u8], i: usize) -> (r: u16)
    requires
        i + 1 < bytes@.len(),
    ensures
        r == word_at(bytes@, i as int),
{
    bytes[i] as u16 + 256 * (bytes[i + 1] as u16)
}

fn word_score(w: u16) -> (r: i16)
    ensures
        r == score_of_word(w),
{
    if w < 0x8000 {
        w as i16
    } else {
        (w as i32 - 0x10000) as i16
    }
}

/// Reads the record that `bytes` begin with, if they begin with one.
pub fn read_record(bytes: &[u8]) -> (r: Option<GameRecord>)
    ensures
        match r {
            Some(record) => parse_record(bytes@) == Some(record@),
            None => parse_record(bytes@).is_none(),
        },
{
    if bytes.len() < 3 {
        return None;
    }
    let outcome = if bytes[0] == 0 {
        GameResult::Loss
    } else if bytes[0] == 64 {
        GameResult::Draw
    } else if bytes[0] == 128 {
        GameResult::Win
    } else {
        return None;
    };
    let count = read_word(bytes, 1) as usize;
    let n = bytes.len();
    if count > (n - 3) / 2 {
        return None;
    }
    let mut unscored: Vec<u16> = Vec::new();
    let mut i: usize = 0;
    while i < count
        invariant
            i <= count,
            n == bytes@.len(),
            3 + 2 * count <= n,
            unscored@.len() == i,
            forall|k: int| 0 <= k < i ==> unscored@[k] == word_at(bytes@, 3 + 2 * k),
        decreases count - i,
    {
        unscored.push(read_word(bytes, 3 + 2 * i));
        i += 1;
    }
    let start = 3 + 2 * count;
    let mut at = start;
    let mut moves: Vec<ScoredMove> = Vec::new();
    let ghost b = bytes@;
    proof {
        if scan_scored(b, start as int).is_some() {
            assert(Seq::<ScoredMove>::empty() + scan_scored(b, start as int).unwrap().0
                =~= scan_scored(b, start as int).unwrap().0);
        }
    }
    proof {
        assert(unscored@ =~= Seq::new(count as nat, |i: int| word_at(bytes@, 3 + 2 * i)));
    }
    loop
        invariant
            b == bytes@,
            n == bytes@.len(),
            n >= 3,
            start == 3 + 2 * count,
            count == word_at(b, 1),
            outcome_of_header(b[0]) == Some(outcome),
            unscored@ == Seq::new(count as nat, |i: int| word_at(b, 3 + 2 * i)),
            start <= at <= bytes@.len(),
            scan_scored(b, start as int).is_some() == scan_scored(b, at as int).is_some(),
            scan_scored(b, start as int).is_some() ==> scan_scored(b, start as int).unwrap().0
                == moves@ + scan_scored(b, at as int).unwrap().0 && scan_scored(
                b,
                start as int,
            ).unwrap().1 == scan_scored(b, at as int).unwrap().1,
        decreases bytes@.len() - at,
    {
        if bytes.len() - at < 4 {
            return None;
        }
        let mv = read_word(bytes, at);
        let raw_score = read_word(bytes, at + 2);
        if mv == 0 && raw_score == 0 {
            proof {
                assert(moves@ + Seq::<ScoredMove>::empty() =~= moves@);
            }
            return Some(GameRecord { outcome, unscored, moves, used: at + 4 });
        }
        let ghost before = moves@;
        moves.push(ScoredMove { mv, score: word_score(raw_score) });
        proof {
            if scan_scored(b, at as int + 4).is_some() {
                let rest = scan_scored(b, at as int + 4).unwrap().0;
                assert(before + (seq![scored_at(b, at as int)] + rest) =~= moves@ + rest);
            }
        }
        at = at + 4;
    }
}

proof fn lemma_word_bytes(x: u16)
    ensures
        low_byte(x) + 256 * high_byte(x) == x,
{
}

/// The score that the word of a score stands for is the score.
pub proof fn lemma_score_word(score: i16)
    ensures
        score_of_word(score_word(score)) == score,
        score_word(score) == 0 <==> score == 0,
{
}

/// Scanning the bytes of scored moves that are followed by four zero
/// bytes gives the scored moves back, if none of them is all zero.
proof fn lemma_scan_scored(head: Seq<u8>, moves: Seq<ScoredMove>, tail: Seq<u8>, k: int)
    requires
        0 <= k <= moves.len(),
        forall|i: int| 0 <= i < moves.len() ==> (#[trigger] moves[i]).mv != 0 || moves[i].score != 0,
    ensures
        scan_scored(
            head + scored_bytes(moves) + seq![0u8, 0u8, 0u8, 0u8] + tail,
            head.len() + 4 * k,
        ) == Some(
            (moves.subrange(k, moves.len() as int), (head.len() + 4 * moves.len() + 4) as int),
        ),
    decreases moves.len() - k,
{
    let b = head + scored_bytes(moves) + seq![0u8, 0u8, 0u8, 0u8] + tail;
    let at = head.len() + 4 * k;
    if k == moves.len() {
        assert(b[at] == 0 && b[at + 1] == 0 && b[at + 2] == 0 && b[at + 3] == 0);
        assert(moves.subrange(k, moves.len() as int) =~= Seq::<ScoredMove>::empty());
    } else {
        lemma_scan_scored(head, moves, tail, k + 1);
        let m = moves[k];
        assert(b[at] == scored_bytes(moves)[4 * k]);
        assert(b[at + 1] == scored_bytes(moves)[4 * k + 1]);
        assert(b[at + 2] == scored_bytes(moves)[4 * k + 2]);
        assert(b[at + 3] == scored_bytes(moves)[4 * k + 3]);
        lemma_word_bytes(m.mv);
        lemma_word_bytes(score_word(m.score));
        lemma_score_word(m.score);
        assert(word_at(b, at) == m.mv);
        assert(word_at(b, at + 2) == score_word(m.score));
        assert(scored_at(b, at) == m);
        assert(seq![m] + moves.subrange(k + 1, moves.len() as int) =~= moves.subrange(
            k,
            moves.len() as int,
        ));
    }
}

/// The beginning of a record holds the header, the number of unscored
/// moves and the unscored moves, whatever follows it.
proof fn lemma_record_head(unscored: Seq<u16>, outcome: GameResult, rest: Seq<u8>)
    requires
        unscored.len() < 0x10000,
    ensures
        record_head(unscored, outcome).len() == 3 + 2 * unscored.len(),
        outcome_of_header((record_head(unscored, outcome) + rest)[0]) == Some(outcome),
        word_at(record_head(unscored, outcome) + rest, 1) == unscored.len(),
        forall|i: int|
            0 <= i < unscored.len() ==> word_at(record_head(unscored, outcome) + rest, 3 + 2 * i)
                == #[trigger] unscored[i],
{
    let count = (unscored.len() % 0x10000) as u16;
    let head = record_head(unscored, outcome);
    let b = head + rest;
    lemma_word_bytes(count);
    assert(b[0] == (outcome_number(outcome) * 64) as u8);
    assert(b[1] == words_bytes(seq![count])[0]);
    assert(b[2] == words_bytes(seq![count])[1]);
    assert forall|i: int| 0 <= i < unscored.len() implies word_at(b, 3 + 2 * i)
        == #[trigger] unscored[i] by {
        lemma_word_bytes(unscored[i]);
        assert(b[3 + 2 * i] == words_bytes(unscored)[2 * i]);
        assert(b[3 + 2 * i + 1] == words_bytes(unscored)[2 * i + 1]);
    }
}

/// What is written as a record is read back as it was: the result, the
/// unscored moves and the scored moves, where the unscored moves are fewer
/// than 65536 and no scored move is all zero. The bytes `tail` that follow
/// the record do not matter.
pub proof fn lemma_record_round_trip(
    unscored: Seq<u16>,
    moves: Seq<ScoredMove>,
    outcome: GameResult,
    tail: Seq<u8>,
)
    requires
        unscored.len() < 0x10000,
        forall|i: int| 0 <= i < moves.len() ==> (#[trigger] moves[i]).mv != 0 || moves[i].score != 0,
    ensures
        parse_record(record_bytes(unscored, moves, outcome) + tail) == Some(
            RecordView {
                outcome,
                unscored,
                moves,
                used: record_bytes(unscored, moves, outcome).len() as int,
            },
        ),
{
    let head = record_head(unscored, outcome);
    let rest = scored_bytes(moves) + seq![0u8, 0u8, 0u8, 0u8] + tail;
    let b = record_bytes(unscored, moves, outcome) + tail;
    assert(b =~= head + rest);
    assert(b =~= head + scored_bytes(moves) + seq![0u8, 0u8, 0u8, 0u8] + tail);
    lemma_record_head(unscored, outcome, rest);
    lemma_scan_scored(head, moves, tail, 0);
    assert(moves.subrange(0, moves.len() as int) =~= moves);
    let got = Seq::new(unscored.len(), |i: int| word_at(b, 3 + 2 * i));
    assert(got =~= unscored);
}

} // verus!
