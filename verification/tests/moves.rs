use syntaks::keys::{p2_key, player_key, top_key, Keys};
use syntaks::prng::{plan_from, thread_seeds, SeedGenerator, Sfc64};
use syntaks::takmove::Move;
use syntaks::types::{Direction, PieceType, Player, Square};

fn sq(raw: u8) -> Square {
    Square::from_raw(raw).unwrap()
}

#[test]
fn placements_are_packed_with_kind_and_square() {
    let mv = Move::placement(PieceType::Flat, sq(0));
    assert_eq!(mv.raw(), 128);
    assert!(!mv.is_spread());
    assert_eq!(mv.pt(), PieceType::Flat);
    assert_eq!(mv.sq(), sq(0));
    let mv = Move::placement(PieceType::Capstone, sq(35));
    assert_eq!(mv.raw(), 35 * 512 + 3 * 128);
    assert_eq!(mv.pt(), PieceType::Capstone);
    assert_eq!(mv.sq(), sq(35));
    assert_eq!(Move::placement(PieceType::Wall, sq(7)).pt(), PieceType::Wall);
}

#[test]
fn spreads_are_packed_with_direction_and_pattern() {
    let mv = Move::spread(sq(14), Direction::Left, 0b100001);
    assert_eq!(mv.raw(), 14 * 512 + 2 * 128 + 33);
    assert!(mv.is_spread());
    assert_eq!(mv.sq(), sq(14));
    assert_eq!(mv.dir(), Direction::Left);
    assert_eq!(mv.pattern(), 33);
    assert_eq!(mv.carry(), 6);
    assert_eq!(mv.drops(), vec![5, 1]);
}

#[test]
fn drop_patterns_give_the_sizes_of_the_drops() {
    let drops = |p: u16| Move::spread(sq(0), Direction::Up, p).drops();
    let carry = |p: u16| Move::spread(sq(0), Direction::Up, p).carry();
    assert_eq!(drops(0b100000), vec![1]);
    assert_eq!(carry(0b100000), 1);
    assert_eq!(drops(0b000001), vec![6]);
    assert_eq!(carry(0b000001), 6);
    assert_eq!(drops(0b111111), vec![1, 1, 1, 1, 1, 1]);
    assert_eq!(drops(0b101000), vec![2, 1]);
    assert_eq!(carry(0b101000), 3);
    assert_eq!(drops(0b010100), vec![2, 2]);
    assert_eq!(carry(0b010100), 4);
    assert_eq!(drops(0b010000), vec![2]);
    for p in 1u16..64 {
        let d = drops(p);
        assert_eq!(d.len() as u32, p.count_ones());
        assert_eq!(d.iter().map(|&x| x as u32).sum::<u32>(), 6 - p.trailing_zeros());
        assert_eq!(carry(p) as u32, 6 - p.trailing_zeros());
    }
}

#[test]
fn only_packed_forms_with_fields_in_range_are_moves() {
    assert_eq!(Move::from_raw(0), None);
    assert_eq!(Move::from_raw(128), Some(Move::placement(PieceType::Flat, sq(0))));
    assert_eq!(Move::from_raw(36 * 512 + 128), None);
    assert_eq!(Move::from_raw(64), None);
    assert_eq!(Move::from_raw(1), Some(Move::spread(sq(0), Direction::Up, 1)));
    assert_eq!(Move::from_raw(u16::MAX), None);
    let mut count = 0;
    for raw in 0..=u16::MAX {
        if Move::from_raw(raw).is_some() {
            count += 1;
        }
    }
    assert_eq!(count, 36 * (3 + 4 * 63));
}

#[test]
fn sfc64_gives_its_known_words() {
    let mut g = Sfc64::new(0x75e83deec533723c);
    assert_eq!(g.next_u64(), 0x7429d521c50142b0);
    assert_eq!(g.next_u64(), 0xeb88f2c1d8df8da5);
    assert_eq!(g.next_u64(), 0xb5425fb7d7010aa9);
    assert_eq!(g.next_u64(), 0xa60a947a9cf87f75);
    let mut g = Sfc64::new(0);
    assert_eq!(g.next_u64(), 0x3acfa029e3cc6041);
    assert_eq!(g.next_u64(), 0xf5b6515bf2ee419c);
    let mut g = Sfc64::new(1);
    assert_eq!(g.next_u32(), 0x3f7fcc2e);
    assert_eq!(g.next_u64(), 0x205a2e2c3eb6a892);
}

#[test]
fn sfc64_fill_draws_one_word_for_each_element() {
    let mut g = Sfc64::new(0x75e83deec533723c);
    let mut values = vec![0u64; 3];
    g.fill(&mut values);
    assert_eq!(values, vec![0x7429d521c50142b0, 0xeb88f2c1d8df8da5, 0xb5425fb7d7010aa9]);
    assert_eq!(g.next_u64(), 0xa60a947a9cf87f75);
    let mut none: Vec<u64> = Vec::new();
    g.fill(&mut none);
    assert!(none.is_empty());
}

#[test]
fn seed_generator_mixes_its_state() {
    let mut g = SeedGenerator::new(0);
    assert_eq!(g.next(), 0xe220a8397b1dcdaf);
    assert_eq!(g.next(), 0x6e789e6aa1b965f4);
    assert_eq!(g.next(), 0x06c45d188009454f);
    let mut g = SeedGenerator::new(1234567);
    assert_eq!(g.next(), 0x599ed017fb08fc85);
    assert_eq!(thread_seeds(1234567, 3), vec![0x599ed017fb08fc85, 0x2c73f08458540fa5, 0x883ebce5a3f27c77]);
    assert!(thread_seeds(5, 0).is_empty());
}

#[test]
fn keys_are_the_words_of_the_seeded_generator() {
    let keys = Keys::new();
    let mut g = Sfc64::new(0x75e83deec533723c);
    let mut words = vec![0u64; 4717];
    g.fill(&mut words);
    assert_eq!(p2_key(&keys), words[0]);
    assert_eq!(p2_key(&keys), 0x7429d521c50142b0);
    assert_eq!(top_key(&keys, PieceType::Flat, sq(0)), words[1]);
    assert_eq!(top_key(&keys, PieceType::Capstone, sq(35)), words[1 + 35 * 3 + 2]);
    assert_eq!(player_key(&keys, 0, Player::P1, sq(0)), words[109]);
    assert_eq!(player_key(&keys, 63, Player::P2, sq(35)), words[4716]);
    assert_eq!(player_key(&keys, 5, Player::P2, sq(2)), words[109 + 2 * 128 + 5 * 2 + 1]);
}

fn ptn(mv: Move) -> String {
    String::from_utf8(mv.to_ptn()).unwrap()
}

#[test]
fn moves_are_written_as_text() {
    assert_eq!(ptn(Move::placement(PieceType::Flat, sq(13))), "b3");
    assert_eq!(ptn(Move::placement(PieceType::Wall, sq(13))), "Sb3");
    assert_eq!(ptn(Move::placement(PieceType::Capstone, sq(0))), "Ca1");
    assert_eq!(ptn(Move::placement(PieceType::Flat, sq(35))), "f6");
    assert_eq!(ptn(Move::spread(sq(14), Direction::Left, 0b100001)), "6c3<51");
    assert_eq!(ptn(Move::spread(sq(0), Direction::Up, 0b100000)), "1a1+1");
    assert_eq!(ptn(Move::spread(sq(35), Direction::Down, 0b010100)), "4f6-22");
    assert_eq!(ptn(Move::spread(sq(6), Direction::Right, 0b111000)), "3a2>111");
}

#[test]
fn moves_are_read_from_text() {
    assert_eq!(Move::from_ptn(b"b3"), Some(Move::placement(PieceType::Flat, sq(13))));
    assert_eq!(Move::from_ptn(b"Sb3"), Some(Move::placement(PieceType::Wall, sq(13))));
    assert_eq!(Move::from_ptn(b"Ca1"), Some(Move::placement(PieceType::Capstone, sq(0))));
    assert_eq!(Move::from_ptn(b"6c3<51"), Some(Move::spread(sq(14), Direction::Left, 0b100001)));
    assert_eq!(Move::from_ptn(b"6c3<51*"), Some(Move::spread(sq(14), Direction::Left, 0b100001)));
    assert_eq!(Move::from_ptn(b"1a1+1"), Some(Move::spread(sq(0), Direction::Up, 32)));
    for text in ["", "b", "b7", "g1", "Fb3", "Sb3*", "b3*", "1a1+", "1a1+2", "2a1+1", "7a1+7", "1a1?1", "1a1+1**", "3a2>11", "0a1+1", "1a1+10", "Cb33"] {
        assert_eq!(Move::from_ptn(text.as_bytes()), None, "{}", text);
    }
    for raw in 0..=u16::MAX {
        if let Some(mv) = Move::from_raw(raw) {
            assert_eq!(Move::from_ptn(&mv.to_ptn()), Some(mv));
        }
    }
}

#[test]
fn a_seed_plan_follows_what_the_system_gave() {
    let plan = match plan_from(Ok(1234567), 3) {
        Ok(plan) => plan,
        Err(_) => panic!("a seed was given"),
    };
    assert_eq!(plan.base_seed, 1234567);
    assert_eq!(plan.seeds, vec![0x599ed017fb08fc85, 0x2c73f08458540fa5, 0x883ebce5a3f27c77]);
    match plan_from(Err(getrandom::Error::UNSUPPORTED), 3) {
        Ok(_) => panic!("no seed was given"),
        Err(err) => assert_eq!(err.cause, getrandom::Error::UNSUPPORTED),
    }
}

#[test]
fn the_generator_serves_the_crate_rand() {
    let mut g = Sfc64::new(0x75e83deec533723c);
    assert_eq!(rand::RngCore::next_u64(&mut g), 0x7429d521c50142b0);
    assert_eq!(rand::RngCore::next_u32(&mut g), 0xeb88f2c1);
    assert_eq!(rand::RngCore::next_u64(&mut g), 0xb5425fb7d7010aa9);
    let mut bytes = [0u8; 8];
    rand::RngCore::fill_bytes(&mut g, &mut bytes);
    assert_eq!(u64::from_le_bytes(bytes), 0xa60a947a9cf87f75);
}
