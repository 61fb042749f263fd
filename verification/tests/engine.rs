use std::time::Instant;
use syntaks::bitboard::Bitboard;
use syntaks::datagen::synpack::{read_record, ScoredMove, SynpackWriter};
use syntaks::datagen::{check_terminal, generate_game, is_drawn_by_repetition, play_game, start_game, GameResult, Opening, OpeningStep};
use syntaks::eval::{static_eval, static_eval_player, MAX_KOMI};
use syntaks::history::{Entry, History};
use syntaks::hits::common::{generate_mask, pdep, pext};
use syntaks::hits::naive::{find_hit_for_dir_naive, find_hits_naive};
use syntaks::hits::pext::{find_hit_for_dir_pext, find_hits_pext, HitTable};
use syntaks::hits::{find_hit_for_dir, find_hits};
use syntaks::keys::Keys;
use syntaks::limit::{capped_micros, Limits, TimeManager};
use syntaks::movegen::generate_moves;
use syntaks::movepick::{Movepicker, Stage};
use syntaks::position::Position;
use syntaks::prng::Sfc64;
use syntaks::search::{score_from_tt, score_to_tt, Searcher};
use syntaks::takmove::Move;
use syntaks::tt::{Bound, TranspositionTable};
use syntaks::types::{Direction, PieceType, Player, Square};

fn sq(raw: u8) -> Square {
    Square::from_raw(raw).unwrap()
}

fn parse(text: &str, keys: &Keys) -> Position {
    Position::from_tps(text, keys).unwrap()
}

#[test]
fn rays_end_at_blockers_or_at_the_edge() {
    let none = Bitboard::empty();
    let hit = find_hit_for_dir(none, sq(14), Direction::Up);
    assert_eq!((hit.0, hit.1), (3, sq(32)));
    let hit = find_hit_for_dir(none, sq(14), Direction::Down);
    assert_eq!((hit.0, hit.1), (2, sq(2)));
    let hit = find_hit_for_dir(none, sq(14), Direction::Left);
    assert_eq!((hit.0, hit.1), (2, sq(12)));
    let hit = find_hit_for_dir(none, sq(14), Direction::Right);
    assert_eq!((hit.0, hit.1), (3, sq(17)));
    let hit = find_hit_for_dir(none, sq(0), Direction::Down);
    assert_eq!((hit.0, hit.1), (0, sq(0)));
    let blockers = Bitboard::from_raw((1 << 20) | (1 << 26) | (1 << 15) | (1 << 14));
    let hits = find_hits(blockers, sq(14));
    assert_eq!((hits[0].0, hits[0].1), (1, sq(20)));
    assert_eq!((hits[1].0, hits[1].1), (2, sq(2)));
    assert_eq!((hits[2].0, hits[2].1), (2, sq(12)));
    assert_eq!((hits[3].0, hits[3].1), (1, sq(15)));
}

#[test]
fn the_table_gives_what_walking_gives() {
    let table = HitTable::new();
    let mut rng = Sfc64::new(11);
    for _ in 0..2000 {
        let blockers = Bitboard::from_raw(rng.next_u64() & rng.next_u64());
        for s in 0..36 {
            let walked = find_hits_naive(blockers, sq(s));
            let looked = find_hits_pext(&table, blockers, sq(s));
            let found = find_hits(blockers, sq(s));
            for d in 0..4 {
                assert_eq!((walked[d].0, walked[d].1), (looked[d].0, looked[d].1));
                assert_eq!((walked[d].0, walked[d].1), (found[d].0, found[d].1));
                let dir = Direction::from_raw(d as u8).unwrap();
                let one = find_hit_for_dir_pext(&table, blockers, sq(s), dir);
                let other = find_hit_for_dir_naive(blockers, sq(s), dir);
                assert_eq!((one.0, one.1), (other.0, other.1));
            }
        }
    }
}

#[test]
fn masks_hold_the_inner_squares_of_the_rays() {
    assert_eq!(generate_mask(sq(0)), 0b011110 | (1 << 6) | (1 << 12) | (1 << 18) | (1 << 24));
    assert_eq!(
        generate_mask(sq(14)),
        (1 << 8) | (1 << 20) | (1 << 26) | (1 << 13) | (1 << 15) | (1 << 16)
    );
    assert_eq!(generate_mask(sq(35)), (0b011110 << 30) | (1 << 11) | (1 << 17) | (1 << 23) | (1 << 29));
}

#[test]
fn deposit_and_extract_are_inverse_under_the_mask() {
    assert_eq!(pdep(0b101, 0b11010), 0b10010);
    assert_eq!(pext(0b10010, 0b11010), 0b101);
    assert_eq!(pdep(u64::MAX, 0xf0f0), 0xf0f0);
    assert_eq!(pext(u64::MAX, 0xf0f0), 0xff);
    assert_eq!(pdep(0xff, 0), 0);
    assert_eq!(pext(0xff, 0), 0);
    assert_eq!(pext(1 << 63, u64::MAX), 1 << 63);
    let mut rng = Sfc64::new(5);
    for _ in 0..1000 {
        let v = rng.next_u64();
        let m = rng.next_u64() & rng.next_u64();
        assert_eq!(pdep(pext(v, m), m), v & m);
        assert!(pext(v, m) < (1u64 << m.count_ones().min(63)) || m.count_ones() == 64);
    }
}

#[test]
fn static_values() {
    let keys = Keys::new();
    assert_eq!(static_eval(&Position::startpos()), -270);
    assert_eq!(static_eval_player(&Position::startpos(), Player::P1, 0), -390);
    assert_eq!(static_eval_player(&Position::startpos(), Player::P2, 4), -90);
    assert_eq!(static_eval(&parse("x6/x6/x2,1,x3/x6/x6/x6 2 1", &keys)), 240);
    assert_eq!(static_eval(&parse("x6/x6/x2,1221,x3/x6/x6/x6 1 10", &keys)), -243);
    assert_eq!(static_eval(&parse("x6/x6/x2,1C,x3/x6/x6/x6 1 10", &keys)), -285);
    let pos = parse("x6/x6/x6/x6/x6/1,1,1,x3 1 10", &keys);
    assert_eq!(static_eval_player(&pos, Player::P1, 0), 3 * 75 - 27 * 13 + 2 * 9 + 7);
    let pos = parse("x6/x6/x6/1,x5/1,x5/1,x5 1 10", &keys);
    assert_eq!(static_eval_player(&pos, Player::P1, 0), 3 * 75 - 27 * 13 + 2 * 9 + 7);
    let pos = parse("x6/x6/x6/x6/x6/1C,12,x4 1 10", &keys);
    assert_eq!(static_eval_player(&pos, Player::P1, 0), -29 * 13 - 20 + 25);
    assert_eq!(static_eval_player(&pos, Player::P2, 4), 5 * 75 - 29 * 13 - 40);
    let pos = parse("x6/x6/x6/x6/x6/11111111112S,x5 1 10", &keys);
    assert_eq!(static_eval_player(&pos, Player::P2, 0), -29 * 13 - 6 * 15);
    assert_eq!(MAX_KOMI, 28_632_883);
    assert_eq!(static_eval_player(&Position::startpos(), Player::P2, MAX_KOMI), 2_147_465_835);
    let pos = parse("x6/x6/x6/x6/x6/1,1,1,x3 1 10", &keys);
    assert_eq!(static_eval_player(&pos, Player::P1, MAX_KOMI), 2_147_466_124);
}

#[test]
fn history_values_feel_gravity() {
    let mut e = Entry { value: 0 };
    e.update(4096);
    assert_eq!(e.get(), 4096);
    e.update(4096);
    assert_eq!(e.get(), 7168);
    e.update(4096);
    assert_eq!(e.get(), 9472);
    for _ in 0..1_000_000 {
        e.update(4096);
    }
    assert!((e.get() - 16384).abs() <= 1);
    let before = e.get();
    e.update(-4096);
    assert!(before - e.get() >= 2048);
    assert_eq!(e.get(), 8192);
    let mut e = Entry { value: -100 };
    e.update(-1000);
    assert_eq!(e.get(), -1094);
}

#[test]
fn history_scores_by_side_and_blockers() {
    let keys = Keys::new();
    let mut history = History::new();
    let pos = parse("x6/x6/x6/x6/x6/1,2S,x4 1 10", &keys);
    let other = parse("x6/x6/x6/x6/x6/1,2,x4 1 10", &keys);
    let theirs = parse("x6/x6/x6/x6/x6/1,2S,x4 2 10", &keys);
    let mv = Move::spread(sq(0), Direction::Up, 32);
    assert_eq!(history.score(&pos, mv), 0);
    history.update(&pos, mv, 100_000);
    assert_eq!(history.score(&pos, mv), 8192);
    assert_eq!(history.score(&other, mv), if pos.blocker_key() % 512 == other.blocker_key() % 512 { 8192 } else { 4096 });
    assert_eq!(history.score(&theirs, mv), 0);
    history.update(&pos, mv, -300);
    assert_eq!(history.score(&pos, mv), 2 * (4096 - 300 - 4096 * 300 / 16384));
    history.clear();
    assert_eq!(history.score(&pos, mv), 0);
    let boxed = History::boxed();
    assert_eq!(boxed.score(&pos, mv), 0);
}

#[test]
fn the_picker_hands_out_the_table_move_first_and_then_the_best() {
    let keys = Keys::new();
    let history = History::new();
    let pos = parse("x6/x6/x6/x6/x6/1,2,x4 1 2", &keys);
    let tt_move = Move::placement(PieceType::Wall, sq(9));
    let mut picker = Movepicker::new(&pos, Vec::new(), Some(tt_move));
    let mut seen = Vec::new();
    while let Some(mv) = picker.next(&history) {
        seen.push(mv);
    }
    assert_eq!(picker.stage, Stage::End);
    assert_eq!(picker.next(&history), None);
    let mut all = Vec::new();
    generate_moves(&mut all, &pos);
    assert_eq!(seen.len(), all.len());
    assert_eq!(seen[0], tt_move);
    assert_eq!(seen.iter().filter(|&&m| m == tt_move).count(), 1);
    for mv in &all {
        assert!(seen.contains(mv));
    }
    let rank = |m: &Move| if m.is_spread() { 0 } else { match m.pt() { PieceType::Capstone => 2, PieceType::Flat => 1, PieceType::Wall => 0 } };
    for pair in seen[1..].windows(2) {
        assert!(rank(&pair[0]) >= rank(&pair[1]));
    }
    assert_eq!(rank(&seen[1]), 2);
    let mut picker = Movepicker::new(&pos, Vec::new(), Some(Move::placement(PieceType::Flat, sq(0))));
    assert!(picker.next(&history).unwrap() != Move::placement(PieceType::Flat, sq(0)));
    let buffer = picker.into_moves();
    assert_eq!(buffer.len(), all.len());
}

#[test]
fn the_picker_orders_spreads_by_history() {
    let keys = Keys::new();
    let mut history = History::new();
    let pos = parse("x6/x6/x6/x6/x6/x5,111111111111111111111111111111 1 40", &keys);
    let liked = Move::spread(sq(5), Direction::Left, 0b110000);
    history.update(&pos, liked, 4000);
    let mut picker = Movepicker::new(&pos, Vec::new(), None);
    assert_eq!(picker.next(&history), Some(liked));
}

#[test]
fn the_table_keeps_and_replaces_entries() {
    let mut tt = TranspositionTable::new(1);
    let key = 0x1234_5678_9abc_def0u64;
    assert_eq!(tt.probe(key, 0).mv, None);
    tt.store(key, 640, -7, 5, Bound::Lower);
    let probe = tt.probe(key, 5);
    assert_eq!(probe.mv, Some(640));
    let entry = probe.entry.unwrap();
    assert_eq!((entry.score, entry.depth, entry.bound), (-7, 5, Bound::Lower));
    let probe = tt.probe(key, 6);
    assert_eq!(probe.mv, Some(640));
    assert_eq!(probe.entry, None);
    assert_eq!(tt.probe(key ^ (1 << 40), 0).mv, None);
    tt.store(key, 641, 3, 2, Bound::Upper);
    assert_eq!(tt.probe(key, 0).mv, Some(640));
    tt.store(key, 642, 3, 2, Bound::Exact);
    assert_eq!(tt.probe(key, 0).mv, Some(642));
    tt.store(key, 643, 9, 9, Bound::Upper);
    tt.new_search();
    tt.new_search();
    tt.store(key, 644, 1, 5, Bound::Upper);
    assert_eq!(tt.probe(key, 0).mv, Some(644));
    tt.clear();
    assert_eq!(tt.probe(key, 0).mv, None);
}

#[test]
fn scores_of_won_games_are_folded_for_the_table() {
    assert_eq!(score_to_tt(29_990, 7), 29_997);
    assert_eq!(score_from_tt(29_997, 7), 29_990);
    assert_eq!(score_to_tt(-29_990, 7), -29_997);
    assert_eq!(score_from_tt(-29_997, 7), -29_990);
    assert_eq!(score_to_tt(123, 7), 123);
    assert_eq!(score_from_tt(-123, 200), -123);
    assert_eq!(score_from_tt(30_100, 2), 30_000);
}

#[test]
fn limits_stop_on_nodes_and_on_time() {
    let mut limits = Limits::new(Instant::now());
    assert!(!limits.should_stop_soft(1_000_000));
    assert!(!limits.should_stop_hard(4096));
    assert!(limits.set_nodes(100));
    assert!(!limits.set_nodes(50));
    assert!(limits.should_stop_soft(100));
    assert!(limits.should_stop_hard(100));
    assert!(!limits.should_stop_soft(99));
    assert!(!limits.should_stop_hard(99));
    let mut limits = Limits::new(Instant::now());
    assert!(limits.set_soft_nodes(10));
    assert!(limits.set_hard_nodes(20));
    assert!(!limits.set_soft_nodes(11));
    assert!(!limits.set_hard_nodes(21));
    assert!(limits.should_stop_soft(10));
    assert!(!limits.should_stop_soft(9));
    assert!(!limits.should_stop_hard(19));
    assert!(limits.should_stop_hard(20));
    let mut limits = Limits::new(Instant::now());
    assert!(limits.set_movetime(1_000));
    assert!(!limits.set_movetime(5));
    assert!(limits.should_stop_soft_at(0, 1_000));
    assert!(!limits.should_stop_soft_at(0, 999));
    assert!(limits.should_stop_hard_at(4096, 1_000));
    assert!(!limits.should_stop_hard_at(4097, 1_000_000));
    assert!(!limits.should_stop_hard_at(0, 1_000_000));
    assert!(!limits.should_stop_hard(4097));
    let mut limits = Limits::new(Instant::now());
    assert!(limits.set_time_manager(60_000_000, 1_000_000));
    assert!(!limits.set_time_manager(1, 1));
    assert!(limits.should_stop_soft_at(0, 4_000_000));
    assert!(!limits.should_stop_soft_at(0, 3_999_999));
    assert_eq!(TimeManager::new(60_000_000, 1_000_000).max_time, 4_000_000);
    assert_eq!(TimeManager::new(1_000, 1_000_000).max_time, 800);
    assert_eq!(TimeManager::new(7, u64::MAX).max_time, 5);
    assert!(TimeManager::new(100, 0).should_stop(0, 5));
    assert!(!TimeManager::new(100, 0).should_stop(0, 4));
}

#[test]
fn repetitions_are_counted_in_the_history() {
    assert!(!is_drawn_by_repetition(5, &[], false));
    assert!(!is_drawn_by_repetition(5, &[1, 2, 3], false));
    assert!(is_drawn_by_repetition(5, &[1, 5, 3], false));
    assert!(!is_drawn_by_repetition(5, &[1, 5, 3], true));
    assert!(is_drawn_by_repetition(5, &[5, 1, 5, 3], true));
    assert_eq!(GameResult::Win.flip(), GameResult::Loss);
    assert_eq!(GameResult::Loss.flip(), GameResult::Win);
    assert_eq!(GameResult::Draw.flip(), GameResult::Draw);
}

#[test]
fn games_end_by_road_count_or_repetition() {
    let keys = Keys::new();
    let place = Move::placement(PieceType::Flat, sq(0));
    let spread = Move::spread(sq(0), Direction::Up, 32);
    let pos = parse("x6/x6/x6/x6/x6/1,1,1,1,1,1 1 10", &keys);
    assert_eq!(check_terminal(&pos, &[], place), Some(GameResult::Win));
    let pos = parse("x6/x6/x6/x6/x6/1,1,1,1,1,1 2 10", &keys);
    assert_eq!(check_terminal(&pos, &[], spread), Some(GameResult::Loss));
    assert_eq!(check_terminal(&pos, &[], place), None);
    let pos = parse("x6/x6/x6/x6/x6/1,1,1,1,1,x 2 10", &keys);
    assert_eq!(check_terminal(&pos, &[], spread), None);
    assert_eq!(check_terminal(&pos, &[1, pos.key()], spread), Some(GameResult::Draw));
    assert_eq!(check_terminal(&pos, &[1, pos.key()], place), None);
    let spent = parse("x6/x6/x6/x6/x6/x5,1111111111111111111111111111111C 2 20", &keys);
    assert_eq!(check_terminal(&spent, &[], place), Some(GameResult::Win));
    assert_eq!(check_terminal(&spent, &[], spread), None);
    let spent = parse("x6/x6/x6/x6/x6/x5,1111111111111111111111111111111C 1 20", &keys);
    assert_eq!(check_terminal(&spent, &[], place), Some(GameResult::Loss));
    let even = parse("x6/x6/x6/x6/1,1,1,1,x2/x5,2222222222222222222222222222222C 1 20", &keys);
    assert_eq!(check_terminal(&even, &[], place), Some(GameResult::Draw));
}

#[test]
fn records_are_written_byte_by_byte() {
    let mut writer = SynpackWriter::new();
    writer.push_unscored(Move::placement(PieceType::Flat, sq(0)));
    writer.push(Move::placement(PieceType::Flat, sq(1)), -2);
    let mut out = vec![9u8];
    assert_eq!(writer.write_all_with_outcome(&mut out, GameResult::Win), 1);
    assert_eq!(out, vec![9, 0x80, 1, 0, 0x80, 0, 0x80, 0x02, 0xfe, 0xff, 0, 0, 0, 0]);
    let record = read_record(&out[1..]).unwrap();
    assert_eq!(record.outcome, GameResult::Win);
    assert_eq!(record.unscored, vec![128]);
    assert_eq!(record.moves, vec![ScoredMove { mv: 640, score: -2 }]);
    assert_eq!(record.used, 13);
    writer.start();
    let mut out = Vec::new();
    assert_eq!(writer.write_all_with_outcome(&mut out, GameResult::Loss), 0);
    assert_eq!(out, vec![0, 0, 0, 0, 0, 0, 0]);
    let mut out = Vec::new();
    writer.write_all_with_outcome(&mut out, GameResult::Draw);
    assert_eq!(out[0], 0x40);
    assert_eq!(ScoredMove::new(Move { raw: 7 }, 0x12345).score, 0x2345);
    assert_eq!(ScoredMove::new(Move { raw: 7 }, -30_000).score, -30_000);
    assert!(read_record(&[]).is_none());
    assert!(read_record(&[0x80, 1, 0, 0x80]).is_none());
    assert!(read_record(&[0xc0, 0, 0, 0, 0, 0, 0]).is_none());
    assert!(read_record(&[0x81, 0, 0, 0, 0, 0, 0]).is_none());
    assert!(read_record(&[0x80, 0, 0, 1, 0, 0, 0]).is_none());
}

#[test]
fn a_search_finds_the_road_in_one() {
    let keys = Keys::new();
    let pos = parse("x6/x6/x6/x6/x6/1,1,1,1,1,x 1 10", &keys);
    let mut searcher = Searcher::new(1);
    searcher.set_silent(true);
    searcher.run_search(&pos, &[], Limits::new(Instant::now()), 2);
    let root = searcher.thread().pv_move();
    let mv = root.mv();
    assert!(pos.is_legal(mv));
    assert!(!mv.is_spread());
    assert_eq!(mv.sq(), sq(5));
    assert!(mv.pt() != PieceType::Wall);
    assert_eq!(root.score, 29_998);
    let pos = parse("x6/x6/x6/x6/x4,1,x/1,1,1,1,x,1 1 10", &keys);
    searcher.reset();
    searcher.run_datagen_search(&pos, &[], Limits::new(Instant::now()), 3);
    let root = searcher.thread().pv_move();
    assert_eq!(root.mv(), Move::spread(sq(10), Direction::Down, 32));
    assert_eq!(root.score, 29_999);
}

#[test]
fn a_search_stops_at_its_node_limit() {
    let mut searcher = Searcher::new(1);
    let mut limits = Limits::new(Instant::now());
    limits.set_nodes(500);
    let pos = Position::startpos();
    searcher.run_search(&pos, &[], limits, 64);
    assert!(searcher.thread().nodes <= 500);
    assert!(pos.is_legal(searcher.thread().pv_move().mv()));
    assert!(!searcher.thread().infos.is_empty());
    assert_eq!(searcher.thread().infos[0].depth, 1);
    assert_eq!(searcher.thread().infos.len(), searcher.thread().depth as usize);
    for (i, info) in searcher.thread().infos.iter().enumerate() {
        assert_eq!(info.depth, i as i32 + 1);
        assert!(pos.is_legal(info.mv));
    }
    let last = searcher.thread().infos.last().unwrap();
    assert_eq!(searcher.thread().pv_move().mv(), last.mv);
    assert_eq!(searcher.thread().pv_move().score, last.score);
    let mut searcher = Searcher::new(1);
    searcher.run_search(&pos, &[], Limits::new(Instant::now()), 3);
    assert_eq!(searcher.thread().depth, 3);
    assert_eq!(searcher.thread().infos.len(), 3);
    assert!(!searcher.thread().stopped);
}

#[test]
fn a_game_is_played_recorded_and_replayed() {
    let keys = Keys::new();
    let mut rng = Sfc64::new(2024);
    let mut opening = Opening::new();
    loop {
        assert!(opening.choices() > 0);
        let index = (rng.next_u64() % opening.choices() as u64) as usize;
        match opening.play(index, &keys) {
            OpeningStep::Pick => {}
            OpeningStep::Restart => opening.restart(),
            OpeningStep::Verify => break,
        }
    }
    let mut searchers = vec![Searcher::new(1), Searcher::new(1)];
    for searcher in searchers.iter_mut() {
        searcher.set_silent(true);
    }
    let mut limits = Limits::new(Instant::now());
    limits.set_nodes(300);
    let mut writer = SynpackWriter::new();
    let (start, mut key_history) = opening.finish(&mut writer);
    assert_eq!(writer.unscored_moves.len(), 6);
    assert_eq!(key_history.len(), 6);
    assert_eq!(start.ply(), 6);
    let game = play_game(&mut writer, &mut key_history, &mut searchers, start, limits, &keys).unwrap();
    let mut bytes = Vec::new();
    let count = writer.write_all_with_outcome(&mut bytes, game.outcome);
    assert_eq!(count, writer.moves.len());
    assert_eq!(bytes.len(), 1 + 2 + 2 * 6 + 4 * count + 4);
    let record = read_record(&bytes).unwrap();
    assert_eq!(record.used, bytes.len());
    assert_eq!(record.outcome, game.outcome);
    assert_eq!(record.unscored, writer.unscored_moves);
    assert_eq!(record.moves, writer.moves);
    let mut pos = Position::startpos();
    let mut keys_seen = Vec::new();
    let mut last = None;
    for raw in record.unscored.iter().copied().chain(record.moves.iter().map(|m| m.mv)) {
        let mv = Move::from_raw(raw).unwrap();
        assert!(pos.is_legal(mv));
        assert!(last.is_none() || check_terminal(&pos, &keys_seen, last.unwrap()).is_none());
        keys_seen.push(pos.key());
        pos = pos.apply_move(mv, &keys);
        last = Some(mv);
    }
    assert_eq!(pos.to_tps(), game.end.to_tps());
    assert_eq!(keys_seen, key_history);
    let result = check_terminal(&pos, &keys_seen, last.unwrap()).unwrap();
    let for_first = if pos.stm() == Player::P1 { result } else { result.flip() };
    assert_eq!(record.outcome, for_first);
}

#[test]
fn an_opening_is_judged_by_a_search() {
    let keys = Keys::new();
    let mut opening = Opening::new();
    assert_eq!(opening.choices(), 36);
    let mut step = OpeningStep::Pick;
    while step == OpeningStep::Pick {
        step = opening.play(0, &keys);
    }
    assert_eq!(step, OpeningStep::Verify);
    let mut searcher = Searcher::new(1);
    searcher.set_silent(true);
    let fit = opening.verified(&mut searcher);
    assert_eq!(fit, searcher.thread().pv_move().score.abs() <= 1000);
    assert_eq!(searcher.thread().depth, 6);
    assert!(!searcher.thread().stopped);
    assert!(opening.pos.is_legal(searcher.thread().pv_move().mv()));
    opening.restart();
    assert_eq!(opening.choices(), 36);
    assert_eq!(opening.pos.ply(), 0);
}

#[test]
fn a_whole_game_is_generated() {
    let keys = Keys::new();
    let mut rng = Sfc64::new(77);
    let mut searchers = vec![Searcher::new(1), Searcher::new(1)];
    for searcher in searchers.iter_mut() {
        searcher.set_silent(true);
    }
    let mut limits = Limits::new(Instant::now());
    limits.set_soft_nodes(200);
    limits.set_hard_nodes(2000);
    let mut writer = SynpackWriter::new();
    let made = generate_game(&mut writer, &mut rng, &mut searchers, limits, &keys, 1000).unwrap();
    assert_eq!(made.count, writer.moves.len());
    let record = read_record(&made.bytes).unwrap();
    assert_eq!(record.used, made.bytes.len());
    assert_eq!(record.unscored.len(), 6);
    assert_eq!(record.moves.len(), made.count);
    assert_eq!(record.outcome, made.game.outcome);
    let mut pos = Position::startpos();
    let mut last = None;
    let all: Vec<u16> =
        record.unscored.iter().copied().chain(record.moves.iter().map(|m| m.mv)).collect();
    assert_eq!(made.key_history.len(), all.len());
    for (i, &raw) in all.iter().enumerate() {
        let mv = Move::from_raw(raw).unwrap();
        assert!(pos.is_legal(mv));
        assert_eq!(made.key_history[i], pos.key());
        pos = pos.apply_move(mv, &keys);
        last = Some(mv);
        if i + 1 < all.len() {
            assert_eq!(check_terminal(&pos, &made.key_history[..i + 1], mv), None);
        }
    }
    assert_eq!(pos.to_tps(), made.game.end.to_tps());
    assert_eq!(last, Some(made.game.last_move));
    let result = check_terminal(&pos, &made.key_history, made.game.last_move).unwrap();
    let for_first = if pos.stm() == Player::P1 { result } else { result.flip() };
    assert_eq!(record.outcome, for_first);
}

#[test]
fn an_opening_is_begun_with_six_random_moves() {
    let keys = Keys::new();
    let mut rng = Sfc64::new(1);
    let mut searcher = Searcher::new(1);
    searcher.set_silent(true);
    let mut writer = SynpackWriter::new();
    writer.push(Move::placement(PieceType::Flat, sq(0)), 5);
    let (pos, history) = start_game(&mut writer, &mut rng, &mut searcher, &keys, 1000).unwrap();
    assert_eq!(pos.ply(), 6);
    assert_eq!(history.len(), 6);
    assert_eq!(writer.unscored_moves.len(), 6);
    assert!(writer.moves.is_empty());
    assert!(searcher.thread().pv_move().score.abs() <= 1000);
    let mut replayed = Position::startpos();
    for (i, &raw) in writer.unscored_moves.iter().enumerate() {
        assert_eq!(history[i], replayed.key());
        replayed = replayed.apply_move(Move::from_raw(raw).unwrap(), &keys);
    }
    assert_eq!(replayed.to_tps(), pos.to_tps());
}

#[test]
fn times_too_long_count_as_the_longest() {
    assert_eq!(capped_micros(0), 0);
    assert_eq!(capped_micros(1_000_000), 1_000_000);
    assert_eq!(capped_micros(u64::MAX as u128), u64::MAX);
    assert_eq!(capped_micros(u64::MAX as u128 + 1), u64::MAX);
    assert_eq!(capped_micros(u128::MAX), u64::MAX);
}
