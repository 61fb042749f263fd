use syntaks::keys::Keys;
use syntaks::movegen::generate_moves;
use syntaks::position::Position;
use syntaks::takmove::Move;
use syntaks::types::{PieceType, Player, Square};

fn perft(pos: &Position, depth: u32, keys: &Keys) -> u64 {
    if depth == 0 {
        return 1;
    }
    let mut moves: Vec<Move> = Vec::new();
    generate_moves(&mut moves, pos);
    if depth == 1 {
        return moves.len() as u64;
    }
    let mut total = 0;
    for mv in moves {
        assert!(pos.is_legal(mv));
        let next = pos.apply_move(mv, keys);
        total += perft(&next, depth - 1, keys);
    }
    total
}

#[test]
fn perft_from_the_empty_board() {
    let keys = Keys::new();
    let pos = Position::startpos();
    assert_eq!(perft(&pos, 1, &keys), 36);
    assert_eq!(perft(&pos, 2, &keys), 1260);
    assert_eq!(perft(&pos, 3, &keys), 132720);
}

#[test]
fn perft_from_the_empty_board_depth_four() {
    let keys = Keys::new();
    let pos = Position::startpos();
    assert_eq!(perft(&pos, 4, &keys), 13586048);
}

#[test]
fn opening_moves_place_a_flat_of_the_other_side() {
    let keys = Keys::new();
    let pos = Position::startpos();
    let mut moves: Vec<Move> = Vec::new();
    generate_moves(&mut moves, &pos);
    assert_eq!(moves.len(), 36);
    for mv in moves {
        assert!(!mv.is_spread());
        assert_eq!(mv.pt(), PieceType::Flat);
        let next = pos.apply_move(mv, &keys);
        assert_eq!(next.ply(), 1);
        assert_eq!(next.stm(), Player::P2);
        let sq: Square = mv.sq();
        assert_eq!(next.stacks().height(sq), 1);
        assert_eq!(next.stacks().top(sq), Some(PieceType::Flat));
        assert_eq!(next.stacks().top_owner(sq), Some(Player::P2));
        assert_eq!(next.flats_in_hand(Player::P2), 29);
        assert_eq!(next.flats_in_hand(Player::P1), 30);
    }
}

fn perft_of(tps: &str, depth: u32) -> u64 {
    let keys = Keys::new();
    let pos = Position::from_tps(tps, &keys).unwrap();
    perft(&pos, depth, &keys)
}

const MIDGAME: &str = "x,2,2,22S,2,111S/21S,22C,112,x,1112S,11S/x,2,112212,2,2S,2/x,2,121122,x,1112,211/21C,x,1,2S,21S,x/2S,x,212,1S,12S,1S 1 33";

const TALL_STACK: &str = "x6/x6/x6/x3,111222111222111222111222111222111222111222111222111222111222C,x2/x6/x6 2 31";

#[test]
fn perft_from_a_midgame_position() {
    assert_eq!(perft_of(MIDGAME, 1), 56);
    assert_eq!(perft_of(MIDGAME, 2), 17322);
    assert_eq!(perft_of(MIDGAME, 3), 1519011);
}

#[test]
fn perft_with_a_tall_capstone_stack() {
    assert_eq!(perft_of(TALL_STACK, 1), 194);
    assert_eq!(perft_of(TALL_STACK, 2), 13714);
    assert_eq!(perft_of(TALL_STACK, 3), 1798660);
}

#[test]
fn perft_from_other_positions() {
    let a = "x2,2,22,2C,1/21221S,1112,x,2211,1,2/x2,111S,x,11S,12S/11S,1S,2S,2,12S,1211C/x,12S,2,122S,x,212S/12,x2,1S,22222S,21121 2 31";
    assert_eq!(perft_of(a, 1), 108);
    assert_eq!(perft_of(a, 2), 13586);
    let b = "2,x,2,111S,2,12/2,122S,2122,1S,x,1/x,111,1,11S,x2/21122112C,x,212S,2S,2,1212S/1,112S,21221S,2S,x2/21,222,x,12S,x2 2 30";
    assert_eq!(perft_of(b, 1), 197);
    assert_eq!(perft_of(b, 2), 16949);
    let c = "x6/x4,1S,x/x2,21111S,1C,22122C,x/x6/x6/x6 2 11";
    assert_eq!(perft_of(c, 1), 95);
    assert_eq!(perft_of(c, 2), 11683);
}

#[test]
fn road_detection() {
    let keys = Keys::new();
    let pos = Position::from_tps("x,1,x4/x,1,2,x3/x,1,2,x3/x,1,2,x3/x,1,2,x3/2,1,x4 2 6", &keys).unwrap();
    assert!(pos.has_road(Player::P1));
    assert!(!pos.has_road(Player::P2));
}

#[test]
fn position_text_round_trip() {
    let keys = Keys::new();
    for tps in [MIDGAME, TALL_STACK, "x6/x6/x6/x6/x6/x6 1 1", "x,1,x4/x,1,2,x3/x,1,2,x3/x,1,2,x3/x,1,2,x3/2,1,x4 2 6"] {
        let pos = Position::from_tps(tps, &keys).unwrap();
        let text = pos.to_tps();
        assert_eq!(String::from_utf8(text.clone()).unwrap(), tps);
        let again = Position::from_tps_bytes(&text, &keys).unwrap();
        assert_eq!(again.key(), pos.key());
        assert_eq!(again.blocker_key(), pos.blocker_key());
        assert_eq!(again.to_tps(), text);
    }
}
