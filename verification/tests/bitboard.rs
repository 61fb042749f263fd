use syntaks::bitboard::Bitboard;
use syntaks::types::{Direction, Piece, PieceType, Player, Square};

fn sq(raw: u8) -> Square {
    Square::from_raw(raw).unwrap()
}

#[test]
fn from_raw_keeps_36_bits() {
    assert_eq!(Bitboard::from_raw(u64::MAX).raw(), 0xf_ffff_ffff);
    assert_eq!(Bitboard::from_raw(1 << 36).raw(), 0);
    assert_eq!(Bitboard::from_raw(0x123).raw(), 0x123);
    assert!(Bitboard::empty().is_empty());
    assert!(!Bitboard::from_raw(1).is_empty());
}

#[test]
fn edges_are_the_outer_ranks_and_files() {
    assert_eq!(Bitboard::edge(Direction::Up).raw(), 0xfc0000000);
    assert_eq!(Bitboard::edge(Direction::Down).raw(), 0x3f);
    assert_eq!(Bitboard::edge(Direction::Left).raw(), 0x41041041);
    assert_eq!(Bitboard::edge(Direction::Right).raw(), 0x820820820);
}

#[test]
fn single_squares_are_set_cleared_and_toggled() {
    let mut b = Bitboard::empty();
    b.set_sq(sq(7));
    assert!(b.has_sq(sq(7)));
    assert!(!b.has_sq(sq(8)));
    assert_eq!(b.raw(), 1 << 7);
    b.toggle_sq(sq(35));
    assert_eq!(b.raw(), (1 << 7) | (1 << 35));
    b.toggle_sq(sq(7));
    assert_eq!(b.raw(), 1 << 35);
    b.clear_sq(sq(35));
    assert!(b.is_empty());
    let c = Bitboard::empty().with_sq(sq(3)).with_sq(sq(4)).without_sq(sq(3)).with_sq_toggled(sq(0));
    assert_eq!(c.raw(), 0b10001);
    assert_eq!(Bitboard::from_square(sq(20)).raw(), 1 << 20);
}

#[test]
fn set_operations() {
    let a = Bitboard::from_raw(0b1100);
    let b = Bitboard::from_raw(0b1010);
    assert_eq!(a.and(b).raw(), 0b1000);
    assert_eq!(a.or(b).raw(), 0b1110);
    assert_eq!(a.xor(b).raw(), 0b0110);
    assert_eq!(a.cmpl().raw(), 0xf_ffff_ffff & !0b1100);
    assert_eq!(a.cmpl().cmpl(), a);
    assert_eq!(a.popcount(), 2);
    assert_eq!(Bitboard::from_raw(u64::MAX).popcount(), 36);
}

#[test]
fn plain_shifts_mask_on_the_left_only() {
    let top = Bitboard::from_raw(1 << 35);
    assert_eq!(top.shl(1).raw(), 0);
    assert_eq!(top.shr(35).raw(), 1);
    assert_eq!(Bitboard::from_raw(1).shl(35).raw(), 1 << 35);
    assert_eq!(Bitboard::from_raw(0b11).shr(1).raw(), 1);
}

#[test]
fn directional_shifts_do_not_wrap() {
    let a2 = Bitboard::from_square(sq(6));
    assert!(a2.shift(Direction::Left).is_empty());
    assert_eq!(a2.shift(Direction::Right).raw(), 1 << 7);
    assert_eq!(a2.shift(Direction::Up).raw(), 1 << 12);
    assert_eq!(a2.shift(Direction::Down).raw(), 1);
    let f1 = Bitboard::from_square(sq(5));
    assert!(f1.shift(Direction::Right).is_empty());
    assert!(f1.shift(Direction::Down).is_empty());
    let f6 = Bitboard::from_square(sq(35));
    assert!(f6.shift(Direction::Up).is_empty());
    assert_eq!(Bitboard::edge(Direction::Right).shift(Direction::Right).raw(), 0);
    assert_eq!(
        Bitboard::edge(Direction::Left).shift(Direction::Right).raw(),
        0x41041041 << 1
    );
}

#[test]
fn squares_come_out_lowest_first() {
    let mut b = Bitboard::from_raw((1 << 30) | (1 << 2) | (1 << 17));
    assert_eq!(b.lsb(), Some(sq(2)));
    assert_eq!(b.pop_lsb(), Some(sq(2)));
    assert_eq!(b.pop_lsb(), Some(sq(17)));
    assert_eq!(b.pop_lsb(), Some(sq(30)));
    assert_eq!(b.pop_lsb(), None);
    assert_eq!(Bitboard::empty().lsb(), None);
    let mut it = Bitboard::from_raw(0b101).iter();
    assert_eq!(it.next(), Some(sq(0)));
    assert_eq!(it.next(), Some(sq(2)));
    assert_eq!(it.next(), None);
}

#[test]
fn players_pieces_and_directions() {
    assert_eq!(Player::P1.flip(), Player::P2);
    assert_eq!(Player::P2.flip(), Player::P1);
    assert_eq!(Player::P1.sign(), 1);
    assert_eq!(Player::P2.sign(), -1);
    assert_eq!(Player::P1.idx(), 0);
    assert_eq!(Player::P2.idx(), 1);
    assert_eq!(Player::from_raw(1), Some(Player::P2));
    assert_eq!(Player::from_raw(2), None);
    assert_eq!(PieceType::Flat.idx(), 0);
    assert_eq!(PieceType::Wall.idx(), 1);
    assert_eq!(PieceType::Capstone.idx(), 2);
    assert_eq!(PieceType::from_raw(3), None);
    assert_eq!(PieceType::Wall.with_player(Player::P2), Piece::P2Wall);
    assert_eq!(Piece::P2Wall.idx(), 3);
    assert_eq!(Piece::P1Capstone.idx(), 4);
    assert_eq!(Piece::P2Capstone.player(), Player::P2);
    assert_eq!(Piece::P2Capstone.pt(), PieceType::Capstone);
    let dirs = [Direction::Up, Direction::Down, Direction::Left, Direction::Right];
    let offsets = [6, -6, -1, 1];
    for i in 0..4 {
        assert_eq!(dirs[i].idx(), i);
        assert_eq!(dirs[i].offset(), offsets[i]);
        assert_eq!(Direction::from_raw(i as u8), Some(dirs[i]));
    }
    assert_eq!(Direction::from_raw(4), None);
}

#[test]
fn squares_and_their_neighbours() {
    assert_eq!(Square::from_raw(36), None);
    assert_eq!(sq(0).shift_checked(Direction::Down), None);
    assert_eq!(sq(0).shift_checked(Direction::Left), None);
    assert_eq!(sq(0).shift_checked(Direction::Up), Some(sq(6)));
    assert_eq!(sq(0).shift_checked(Direction::Right), Some(sq(1)));
    assert_eq!(sq(35).shift_checked(Direction::Up), None);
    assert_eq!(sq(35).shift_checked(Direction::Right), None);
    assert_eq!(sq(11).shift_checked(Direction::Right), None);
    assert_eq!(sq(12).shift_checked(Direction::Left), None);
    assert_eq!(sq(14).file(), 2);
    assert_eq!(sq(14).rank(), 2);
    assert_eq!(Square::from_file_rank(5, 5), sq(35));
    assert_eq!(sq(9).idx(), 9);
}

#[test]
fn operators_are_the_set_operations() {
    let a = Bitboard::from_raw(0b1100);
    let b = Bitboard::from_raw(0b1010);
    assert_eq!(a & b, a.and(b));
    assert_eq!(a | b, a.or(b));
    assert_eq!(a ^ b, a.xor(b));
    assert_eq!(!a, a.cmpl());
    assert_eq!(a << 2, a.shl(2));
    assert_eq!(a >> 2, a.shr(2));
    assert_eq!((Bitboard::from_raw(1 << 35) << 1).raw(), 0);
    let mut c = a;
    c &= b;
    assert_eq!(c.raw(), 0b1000);
    c |= a;
    assert_eq!(c.raw(), 0b1100);
    c ^= b;
    assert_eq!(c.raw(), 0b0110);
    c <<= 34;
    assert_eq!(c.raw(), 1 << 35);
    c >>= 35;
    assert_eq!(c.raw(), 1);
}
