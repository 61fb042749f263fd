use syntaks::keys::Keys;
use syntaks::movegen::{do_spreads, generate_moves, generate_moves_into};
use syntaks::position::Position;
use syntaks::prng::Sfc64;
use syntaks::road::FlatCountOutcome;
use syntaks::takmove::Move;
use syntaks::tps::ParseError;
use syntaks::types::{Direction, Piece, PieceType, Player, Square};

const MIDGAME_TEXT: &str = "x,2,2,22S,2,111S/21S,22C,112,x,1112S,11S/x,2,112212,2,2S,2/x,2,121122,x,1112,211/21C,x,1,2S,21S,x/2S,x,212,1S,12S,1S 1 33";

fn sq(raw: u8) -> Square {
    Square::from_raw(raw).unwrap()
}

fn parse(text: &str, keys: &Keys) -> Position {
    Position::from_tps(text, keys).unwrap()
}

fn text_of(pos: &Position) -> String {
    String::from_utf8(pos.to_tps()).unwrap()
}

fn legal_moves(pos: &Position) -> Vec<Move> {
    let mut moves = Vec::new();
    generate_moves(&mut moves, pos);
    moves
}

fn tiles_on_board(pos: &Position, player: Player) -> u32 {
    let mut count = 0;
    for i in 0..36 {
        let h = pos.stacks().height(sq(i));
        let players = pos.stacks().players(sq(i));
        for k in 0..h {
            let owner = (players >> k) & 1;
            if owner as usize == player.idx() {
                count += 1;
            }
        }
    }
    count
}

fn check_invariants(pos: &Position, keys: &Keys) {
    for i in 0..36 {
        let s = sq(i);
        let h = pos.stacks().height(s);
        assert_eq!(h == 0, pos.stacks().top(s).is_none());
        assert_eq!(pos.occ().has_sq(s), h > 0);
        assert!(!(pos.player_bb(Player::P1).has_sq(s) && pos.player_bb(Player::P2).has_sq(s)));
        if h > 0 {
            let owner_bit = (pos.stacks().players(s) >> (h - 1)) & 1;
            assert_eq!(pos.player_bb(Player::P2).has_sq(s), owner_bit == 1);
            assert_eq!(pos.player_bb(Player::P1).has_sq(s), owner_bit == 0);
            assert!(pos.type_bb(pos.stacks().top(s).unwrap()).has_sq(s));
        }
        assert_eq!(pos.stacks().players(s) >> h, 0);
    }
    assert_eq!(
        pos.occ(),
        pos.player_bb(Player::P1).or(pos.player_bb(Player::P2))
    );
    assert_eq!(
        pos.all_blockers(),
        pos.type_bb(PieceType::Wall).or(pos.type_bb(PieceType::Capstone))
    );
    assert_eq!(
        pos.roads(Player::P1),
        pos.player_piece_bb(Piece::P1Flat).or(pos.player_piece_bb(Piece::P1Capstone))
    );
    for player in [Player::P1, Player::P2] {
        assert_eq!(
            pos.flats_in_hand(player) as u32 + pos.caps_in_hand(player) as u32 + tiles_on_board(pos, player),
            31
        );
    }
    assert_eq!(pos.recomputed_keys(keys), (pos.key(), pos.blocker_key()));
}

#[test]
fn start_position() {
    let keys = Keys::new();
    let pos = Position::startpos();
    assert_eq!(pos.stm(), Player::P1);
    assert_eq!(pos.ply(), 0);
    assert_eq!(pos.key(), 0);
    assert_eq!(pos.blocker_key(), 0);
    assert!(pos.occ().is_empty());
    assert_eq!(pos.empty_squares().popcount(), 36);
    assert_eq!(pos.flats_in_hand(Player::P1), 30);
    assert_eq!(pos.caps_in_hand(Player::P2), 1);
    assert_eq!(text_of(&pos), "x6/x6/x6/x6/x6/x6 1 1");
    check_invariants(&pos, &keys);
}

#[test]
fn moves_keep_the_position_sound_and_the_keys_right() {
    let keys = Keys::new();
    let mut rng = Sfc64::new(7);
    for _ in 0..20 {
        let mut pos = Position::startpos();
        for _ in 0..150 {
            let moves = legal_moves(&pos);
            if moves.is_empty() {
                break;
            }
            let mv = moves[(rng.next_u64() % moves.len() as u64) as usize];
            assert!(pos.is_legal(mv));
            let next = pos.apply_move(mv, &keys);
            let mut in_place = pos;
            in_place.apply_move_in_place(mv, &keys);
            assert_eq!(text_of(&next), text_of(&in_place));
            assert_eq!(next.key(), in_place.key());
            assert_eq!(next.ply(), pos.ply() + 1);
            assert_eq!(next.stm(), pos.stm().flip());
            check_invariants(&next, &keys);
            pos = next;
        }
    }
}

#[test]
fn the_key_tells_the_side_to_move() {
    let keys = Keys::new();
    let a = parse("x6/x6/x2,1,x3/x6/x6/x6 1 2", &keys);
    let b = parse("x6/x6/x2,1,x3/x6/x6/x6 2 2", &keys);
    assert_eq!(a.key() ^ b.key(), syntaks::keys::p2_key(&keys));
    assert_eq!(a.blocker_key(), 0);
    let c = parse("x6/x6/x2,1S,x3/x6/x6/x6 1 2", &keys);
    assert_eq!(c.blocker_key(), syntaks::keys::top_key(&keys, PieceType::Wall, sq(20)));
}

#[test]
fn generated_moves_are_exactly_the_legal_ones() {
    let keys = Keys::new();
    let mut rng = Sfc64::new(99);
    let mut positions = vec![Position::startpos(), parse(MIDGAME_TEXT, &keys)];
    let mut pos = Position::startpos();
    for i in 0..120 {
        let moves = legal_moves(&pos);
        if moves.is_empty() {
            break;
        }
        pos = pos.apply_move(moves[(rng.next_u64() % moves.len() as u64) as usize], &keys);
        if i % 10 == 0 {
            positions.push(pos);
        }
    }
    for pos in positions {
        let moves = legal_moves(&pos);
        for (i, a) in moves.iter().enumerate() {
            for b in &moves[i + 1..] {
                assert_ne!(a, b);
            }
        }
        for raw in 0..=u16::MAX {
            let mv = Move { raw };
            assert_eq!(pos.is_legal(mv), moves.contains(&mv), "move {}", raw);
        }
    }
}

#[test]
fn generate_moves_into_appends() {
    let pos = Position::startpos();
    let mut moves = vec![Move::placement(PieceType::Wall, sq(3))];
    generate_moves_into(&mut moves, &pos);
    assert_eq!(moves.len(), 37);
    assert_eq!(moves[0], Move::placement(PieceType::Wall, sq(3)));
    assert_eq!(moves[1], Move::placement(PieceType::Flat, sq(0)));
    assert_eq!(moves[36], Move::placement(PieceType::Flat, sq(35)));
}

#[test]
fn placements_follow_the_hand() {
    let keys = Keys::new();
    let count = |pos: &Position, kind: PieceType| {
        legal_moves(pos).iter().filter(|m| !m.is_spread() && m.pt() == kind).count()
    };
    let pos = parse("x6/x6/x6/x6/x6/1,2,x4 1 2", &keys);
    assert_eq!(count(&pos, PieceType::Flat), 34);
    assert_eq!(count(&pos, PieceType::Wall), 34);
    assert_eq!(count(&pos, PieceType::Capstone), 34);
    let pos = parse("x6/x6/x6/x6/x6/1C,2,x4 1 2", &keys);
    assert_eq!(pos.caps_in_hand(Player::P1), 0);
    assert_eq!(count(&pos, PieceType::Flat), 34);
    assert_eq!(count(&pos, PieceType::Capstone), 0);
    let tall = parse("x6/x6/x6/x3,111222111222111222111222111222111222111222111222111222111222C,x2/x6/x6 1 31", &keys);
    assert_eq!(tall.flats_in_hand(Player::P1), 0);
    assert_eq!(tall.caps_in_hand(Player::P1), 1);
    assert_eq!(count(&tall, PieceType::Flat), 0);
    assert_eq!(count(&tall, PieceType::Wall), 0);
    assert_eq!(count(&tall, PieceType::Capstone), 35);
}

#[test]
fn first_moves_place_flats_only() {
    let keys = Keys::new();
    let pos = Position::startpos();
    assert!(pos.is_legal(Move::placement(PieceType::Flat, sq(10))));
    assert!(!pos.is_legal(Move::placement(PieceType::Wall, sq(10))));
    assert!(!pos.is_legal(Move::placement(PieceType::Capstone, sq(10))));
    let next = pos.apply_move(Move::placement(PieceType::Flat, sq(10)), &keys);
    assert!(!next.is_legal(Move::placement(PieceType::Flat, sq(10))));
    assert!(!next.is_legal(Move::spread(sq(10), Direction::Up, 32)));
    assert_eq!(legal_moves(&next).len(), 35);
    let third = next.apply_move(Move::placement(PieceType::Flat, sq(11)), &keys);
    assert_eq!(third.stacks().top_owner(sq(11)), Some(Player::P1));
    assert_eq!(third.flats_in_hand(Player::P1), 29);
    assert_eq!(third.flats_in_hand(Player::P2), 29);
    assert!(third.is_legal(Move::placement(PieceType::Capstone, sq(0))));
    assert!(third.is_legal(Move::spread(sq(11), Direction::Up, 32)));
    assert!(!third.is_legal(Move::spread(sq(11), Direction::Right, 32)));
    assert!(!third.is_legal(Move::spread(sq(10), Direction::Up, 32)));
    assert!(!third.is_legal(Move::spread(sq(11), Direction::Up, 16)));
    assert!(!third.is_legal(Move { raw: 0 }));
}

#[test]
fn a_spread_drops_its_tiles_along_the_way() {
    let keys = Keys::new();
    let pos = parse("x6/x6/x6/x6/x6/12121,x,2,x3 1 10", &keys);
    let mv = Move::spread(sq(0), Direction::Right, 0b101000);
    assert!(pos.is_legal(mv));
    let next = pos.apply_move(mv, &keys);
    assert_eq!(text_of(&next), "x6/x6/x6/x6/x6/12,12,21,x3 2 10");
    assert_eq!(next.stacks().height(sq(0)), 2);
    assert_eq!(next.stacks().top_owner(sq(0)), Some(Player::P2));
    assert_eq!(next.stacks().top_owner(sq(2)), Some(Player::P1));
}

#[test]
fn walls_block_and_capstones_flatten() {
    let keys = Keys::new();
    let pos = parse("x6/x6/x6/x6/x6/11C,2S,x,2C,x2 1 10", &keys);
    assert!(pos.is_legal(Move::spread(sq(0), Direction::Right, 0b100000)));
    assert!(!pos.is_legal(Move::spread(sq(0), Direction::Right, 0b010000)));
    assert!(!pos.is_legal(Move::spread(sq(0), Direction::Right, 0b110000)));
    let next = pos.apply_move(Move::spread(sq(0), Direction::Right, 0b100000), &keys);
    assert_eq!(text_of(&next), "x6/x6/x6/x6/x6/1,21C,x,2C,x2 2 10");
    assert_eq!(next.all_blockers().raw(), 0b1010);
    let flat = parse("x6/x6/x6/x6/x6/11,2S,x4 1 10", &keys);
    assert!(!flat.is_legal(Move::spread(sq(0), Direction::Right, 0b100000)));
    let blocked = parse("x6/x6/x6/x6/x6/11C,2C,x4 1 10", &keys);
    assert!(!blocked.is_legal(Move::spread(sq(0), Direction::Right, 0b100000)));
    assert!(blocked.is_legal(Move::spread(sq(0), Direction::Up, 0b110000)));
}

#[test]
fn roads_join_opposite_edges() {
    let keys = Keys::new();
    let pos = parse("x6/x6/x6/x6/x6/1,1,1,1,1,1 2 10", &keys);
    assert!(pos.has_road(Player::P1));
    assert!(!pos.has_road(Player::P2));
    let pos = parse("x6/x6/x6/x6/x6/1,1,1S,1,1,1 2 10", &keys);
    assert!(!pos.has_road(Player::P1));
    let pos = parse("x6/x6/x6/x6/x6/1,1,1C,1,1,1 2 10", &keys);
    assert!(pos.has_road(Player::P1));
    let pos = parse("x5,2/x4,2,2/x4,2,x/x3,2,2,x/x3,2,x2/x3,2,x2 1 10", &keys);
    assert!(pos.has_road(Player::P2));
    let pos = parse("x5,2/x4,2,x/x4,2,x/x3,2,2,x/x3,2,x2/x3,2,x2 1 10", &keys);
    assert!(!pos.has_road(Player::P2));
}

#[test]
fn flats_are_counted_when_the_game_is_over() {
    let keys = Keys::new();
    assert_eq!(Position::startpos().count_flats(), FlatCountOutcome::NotOver);
    let full = parse("1,1,1,1,1,1/1,1,1,1,1,1/1,1,1,1,1,2S/2,2,2,2,2,2/2,2,2,2,2,2/2,2,2,2,2,2 1 20", &keys);
    assert_eq!(full.count_flats(), FlatCountOutcome::Win(Player::P2));
    let full = parse("1,1,1,1,1,1/1,1,1,1,1,1/1,1,1,1,1,1/1,1,1,1,2S,2/2,2,2,2,2,2/2,2,2,2,2,2 1 20", &keys);
    assert_eq!(full.count_flats(), FlatCountOutcome::Win(Player::P1));
    let full = parse("1,1,1,1,1,1/1,1,1,1,1,1/1,1,1,1,1,1/1,1,2S,2S,2S,2S/2,2,2,2,2,2/2,2,2,2,2,2 1 20", &keys);
    assert_eq!(full.count_flats(), FlatCountOutcome::Win(Player::P1));
    let full = parse("1,1,1,1,1,1/1,1,1,1,1,1/1,1,1,1,1,1/1,1,2,2,2,2/2,2,2,2,2,2/2,2,2,2,2,2 1 20", &keys);
    assert_eq!(full.count_flats(), FlatCountOutcome::Draw);
    let spent = parse("x6/x6/x6/x6/x6/x5,1111111111111111111111111111111C 1 20", &keys);
    assert_eq!(spent.count_flats(), FlatCountOutcome::Win(Player::P2));
}

#[test]
fn position_texts_are_read_and_written() {
    let keys = Keys::new();
    let pos = parse("x,1,x4/x,1,2,x3/x,1,2,x3/x,1,2,x3/x,1,2,x3/2,1,x4 2 6", &keys);
    assert_eq!(pos.stm(), Player::P2);
    assert_eq!(pos.ply(), 11);
    assert_eq!(pos.stacks().top_owner(sq(0)), Some(Player::P2));
    assert_eq!(pos.stacks().top_owner(sq(1)), Some(Player::P1));
    assert_eq!(pos.stacks().top_owner(sq(31)), Some(Player::P1));
    assert_eq!(pos.stacks().height(sq(30)), 0);
    assert_eq!(pos.flats_in_hand(Player::P1), 24);
    assert_eq!(pos.flats_in_hand(Player::P2), 25);
    let pos = parse("x6/x6/x6/x6/x6/12C,x1,x,x2,21S 1 007", &keys);
    assert_eq!(pos.ply(), 12);
    assert_eq!(pos.stacks().top(sq(0)), Some(PieceType::Capstone));
    assert_eq!(pos.stacks().top_owner(sq(0)), Some(Player::P2));
    assert_eq!(pos.stacks().players(sq(0)), 0b10);
    assert_eq!(pos.stacks().top(sq(5)), Some(PieceType::Wall));
    assert_eq!(pos.caps_in_hand(Player::P2), 0);
    assert_eq!(text_of(&pos), "x6/x6/x6/x6/x6/12C,x4,21S 1 7");
}

#[test]
fn position_texts_round_trip() {
    let keys = Keys::new();
    let mut rng = Sfc64::new(3);
    for _ in 0..10 {
        let mut pos = Position::startpos();
        for _ in 0..120 {
            let moves = legal_moves(&pos);
            if moves.is_empty() {
                break;
            }
            pos = pos.apply_move(moves[(rng.next_u64() % moves.len() as u64) as usize], &keys);
            let text = pos.to_tps();
            let back = Position::from_tps_bytes(&text, &keys).unwrap();
            assert_eq!(back.to_tps(), text);
            assert_eq!(back.key(), pos.key());
            assert_eq!(back.blocker_key(), pos.blocker_key());
            assert_eq!(back.ply(), pos.ply());
            assert_eq!(back.stm(), pos.stm());
            for i in 0..36 {
                assert_eq!(back.stacks().height(sq(i)), pos.stacks().height(sq(i)));
                assert_eq!(back.stacks().players(sq(i)), pos.stacks().players(sq(i)));
                assert_eq!(back.stacks().top(sq(i)), pos.stacks().top(sq(i)));
            }
            for player in [Player::P1, Player::P2] {
                assert_eq!(back.flats_in_hand(player), pos.flats_in_hand(player));
                assert_eq!(back.caps_in_hand(player), pos.caps_in_hand(player));
                assert_eq!(back.player_bb(player), pos.player_bb(player));
            }
        }
    }
}

#[test]
fn bad_position_texts_are_refused_where_they_go_wrong() {
    let keys = Keys::new();
    let at = |text: &str| match Position::from_tps(text, &keys) {
        Ok(_) => None,
        Err(ParseError { at }) => Some(at),
    };
    assert_eq!(at("x6/x6/x6/x6/x6/x6 1 1"), None);
    assert_eq!(at(""), Some(0));
    assert_eq!(at("y6/x6/x6/x6/x6/x6 1 1"), Some(0));
    assert_eq!(at("x7/x6/x6/x6/x6/x6 1 1"), Some(1));
    assert_eq!(at("x5/x6/x6/x6/x6/x6 1 1"), Some(2));
    assert_eq!(at("x3,x4/x6/x6/x6/x6/x6 1 1"), Some(4));
    assert_eq!(at("x6/x6/x6/x6/x6 1 1"), Some(14));
    assert_eq!(at("x6/x6/x6/x6/x6/x6/x6 1 1"), Some(17));
    assert_eq!(at("x6/x6/x6/x6/x6/x6 3 1"), Some(18));
    assert_eq!(at("x6/x6/x6/x6/x6/x6 1"), Some(19));
    assert_eq!(at("x6/x6/x6/x6/x6/x6 1 "), Some(20));
    assert_eq!(at("x6/x6/x6/x6/x6/x6 1 0"), Some(21));
    assert_eq!(at("x6/x6/x6/x6/x6/x6 1 1 "), Some(21));
    assert_eq!(at("x6/x6/x6/x6/x6/x6 1 2147483648"), None);
    assert_eq!(at("x6/x6/x6/x6/x6/x6 1 2147483649"), Some(29));
    assert_eq!(at("S,x5/x6/x6/x6/x6/x6 1 5"), Some(0));
    assert_eq!(at("1SC,x5/x6/x6/x6/x6/x6 1 5"), Some(2));
    assert_eq!(at("1C,1C,x4/x6/x6/x6/x6/x6 1 5"), Some(4));
    assert_eq!(at("1C,2C,x4/x6/x6/x6/x6/x6 1 5"), None);
    assert_eq!(at("11111111111111111111111111111111,x5/x6/x6/x6/x6/x6 1 5"), Some(31));
    assert_eq!(at("1111111111111111111111111111111,x5/x6/x6/x6/x6/x6 1 5"), Some(53));
    assert_eq!(at("111111111111111111111111111111C,x5/x6/x6/x6/x6/x6 1 5"), None);
}

#[test]
fn spreads_are_counted_through_in_rising_order() {
    let mut moves = vec![Move::placement(PieceType::Flat, sq(1))];
    do_spreads(&mut moves, sq(7), Direction::Up, 16, 16, 2, 64);
    assert_eq!(
        moves,
        vec![
            Move::placement(PieceType::Flat, sq(1)),
            Move::spread(sq(7), Direction::Up, 16),
            Move::spread(sq(7), Direction::Up, 32),
            Move::spread(sq(7), Direction::Up, 48),
        ]
    );
    let mut moves = Vec::new();
    do_spreads(&mut moves, sq(0), Direction::Right, 1, 1, 1, 64);
    let patterns: Vec<u16> = moves.iter().map(|m| m.pattern()).collect();
    assert_eq!(patterns, vec![1, 2, 4, 8, 16, 32]);
    let mut moves = Vec::new();
    do_spreads(&mut moves, sq(0), Direction::Right, 3, 5, 2, 20);
    let patterns: Vec<u16> = moves.iter().map(|m| m.pattern()).collect();
    assert_eq!(patterns, vec![5, 6, 8, 11, 14, 17, 18]);
    let mut moves = Vec::new();
    do_spreads(&mut moves, sq(0), Direction::Right, 65472, 63, 3, 64);
    assert_eq!(moves, vec![Move::spread(sq(0), Direction::Right, 63)]);
    let mut moves = Vec::new();
    do_spreads(&mut moves, sq(0), Direction::Right, 4, 40, 2, 32);
    assert!(moves.is_empty());
}

#[test]
fn moves_are_generated_in_one_order() {
    let keys = Keys::new();
    let pos = parse("x6/x6/x6/x6/x6/11C,x,2S,2C,x2 1 10", &keys);
    let moves = legal_moves(&pos);
    let mut again = vec![Move::spread(sq(0), Direction::Up, 1)];
    generate_moves_into(&mut again, &pos);
    assert_eq!(&again[1..], &moves[..]);
    let empty: Vec<u8> = (0..36).filter(|&i| i != 0 && i != 2 && i != 3).collect();
    assert_eq!(moves.len(), 2 * empty.len() + 6);
    for (i, &at) in empty.iter().enumerate() {
        assert_eq!(moves[2 * i], Move::placement(PieceType::Flat, sq(at)));
        assert_eq!(moves[2 * i + 1], Move::placement(PieceType::Wall, sq(at)));
    }
    assert_eq!(
        &moves[2 * empty.len()..],
        &[
            Move::spread(sq(0), Direction::Up, 16),
            Move::spread(sq(0), Direction::Up, 32),
            Move::spread(sq(0), Direction::Up, 48),
            Move::spread(sq(0), Direction::Right, 32),
            Move::spread(sq(0), Direction::Right, 48),
            Move::spread(sq(0), Direction::Right, 16),
        ]
    );
    let pos = parse("x6/x6/x6/x6/x,1,x4/2,x,1C,x3 2 10", &keys);
    let moves = legal_moves(&pos);
    assert_eq!(moves[0], Move::placement(PieceType::Capstone, sq(1)));
    assert_eq!(moves[1], Move::placement(PieceType::Flat, sq(1)));
    assert_eq!(moves[2], Move::placement(PieceType::Wall, sq(1)));
    assert_eq!(moves[3], Move::placement(PieceType::Capstone, sq(3)));
    let spreads: Vec<Move> = moves.iter().copied().filter(|m| m.is_spread()).collect();
    assert_eq!(
        spreads,
        vec![
            Move::spread(sq(0), Direction::Up, 32),
            Move::spread(sq(0), Direction::Right, 32),
        ]
    );
}
