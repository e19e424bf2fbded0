use chess_engine::bitboard::BitBoard;
use chess_engine::bits::count_ones;
use chess_engine::movegen::magic::{
    is_magic, magic_slot, occupancy, random_magic, sparse_candidate, BISHOP_MAGIC, ROOK_MAGIC,
};
use chess_engine::movegen::precalc::{
    bishop_attack, bishop_attack_blocker, calc_bishop, calc_bishop_magic, calc_king, calc_knight,
    calc_pawns, calc_rook, calc_rook_magic, king_attack, knight_attack, pawn_attack, rook_attack,
    rook_attack_blocker, Precalc,
};
use chess_engine::piece::Color;
use chess_engine::square::Square;

fn tables() -> Precalc {
    Precalc::new().expect("the built-in multipliers suit their squares")
}

#[test]
fn pawn_attacks_go_one_rank_ahead_and_one_file_aside() {
    assert_eq!(pawn_attack(12, Color::White), BitBoard(0x28_0000));
    assert_eq!(pawn_attack(8, Color::White), BitBoard(0x2_0000));
    assert_eq!(pawn_attack(52, Color::Black), BitBoard(0x2800_0000_0000));
    assert_eq!(pawn_attack(55, Color::White), BitBoard(0x4000_0000_0000_0000));
    assert_eq!(pawn_attack(0, Color::Black), BitBoard(0));
    assert_eq!(pawn_attack(60, Color::White), BitBoard(0));
}

#[test]
fn knight_attacks_do_not_wrap_round_the_board() {
    assert_eq!(knight_attack(0), BitBoard(0x2_0400));
    assert_eq!(knight_attack(27), BitBoard(0x1422_0022_1400));
    assert_eq!(knight_attack(63), BitBoard(0x20_4000_0000_0000));
    for s in 0..64u64 {
        let a = knight_attack(s);
        for t in 0..64u64 {
            let df = (s % 8).abs_diff(t % 8);
            let dr = (s / 8).abs_diff(t / 8);
            assert_eq!(a.get(t), (df == 1 && dr == 2) || (df == 2 && dr == 1));
        }
    }
}

#[test]
fn king_attacks_are_the_neighbours() {
    assert_eq!(king_attack(0), BitBoard(0x302));
    assert_eq!(king_attack(4), BitBoard(0x3828));
    assert_eq!(king_attack(27), BitBoard(0x1C_141C_0000));
    for s in 0..64u64 {
        let a = king_attack(s);
        for t in 0..64u64 {
            let df = (s % 8).abs_diff(t % 8);
            let dr = (s / 8).abs_diff(t / 8);
            assert_eq!(a.get(t), s != t && df <= 1 && dr <= 1);
        }
    }
}

#[test]
fn slider_masks_leave_out_the_rim() {
    assert_eq!(rook_attack(0), BitBoard(0x0001_0101_0101_017E));
    assert_eq!(rook_attack(27), BitBoard(0x0008_0808_7608_0800));
    assert_eq!(bishop_attack(0), BitBoard(0x0040_2010_0804_0200));
    assert_eq!(bishop_attack(27), BitBoard(0x0040_2214_0014_2200));
    for s in 0..64u64 {
        let r = count_ones(rook_attack(s).0);
        let b = count_ones(bishop_attack(s).0);
        assert!((10..=12).contains(&r));
        assert!((5..=9).contains(&b));
    }
}

#[test]
fn rays_stop_at_the_first_blocker_and_include_it() {
    let occ = BitBoard(0x0008_2000_4200_0A00);
    assert_eq!(rook_attack_blocker(27, occ), BitBoard(0x0008_0808_7608_0800));
    assert_eq!(bishop_attack_blocker(27, occ), BitBoard(0x0001_2214_0014_2240));
    assert_eq!(rook_attack_blocker(0, BitBoard(0)), BitBoard(0x0101_0101_0101_01FE));
    assert_eq!(bishop_attack_blocker(7, BitBoard(0)), BitBoard(0x0102_0408_1020_4000));
    assert_eq!(rook_attack_blocker(0, BitBoard(0x0000_0000_0000_0102)), BitBoard(0x102));
}

#[test]
fn the_unblocked_square_itself_is_never_attacked() {
    for s in 0..64u64 {
        assert!(!rook_attack_blocker(s, BitBoard(u64::MAX)).get(s));
        assert!(!bishop_attack_blocker(s, BitBoard(u64::MAX)).get(s));
        assert!(!rook_attack_blocker(s, BitBoard(0)).get(s));
        assert!(!bishop_attack_blocker(s, BitBoard(0)).get(s));
    }
}

#[test]
fn occupancy_selects_the_squares_of_the_mask_by_the_bits_of_the_number() {
    assert_eq!(occupancy(0, BitBoard(0xF0F0)), BitBoard(0));
    assert_eq!(occupancy(0b1011, BitBoard(0xF0F0)), BitBoard(0xB0));
    assert_eq!(occupancy(0xFF, BitBoard(0xF0F0)), BitBoard(0xF0F0));
    assert_eq!(occupancy(0x1FF, BitBoard(0xF0F0)), BitBoard(0xF0F0));
    assert_eq!(occupancy(5, BitBoard(0x0001_0101_0101_017E)), BitBoard(0xA));
    assert_eq!(occupancy(7, BitBoard(0)), BitBoard(0));
}

#[test]
fn occupancy_runs_through_every_subset_once() {
    let mask = bishop_attack(27);
    let n = 1u64 << count_ones(mask.0);
    let mut seen = std::collections::HashSet::new();
    for idx in 0..n {
        let occ = occupancy(idx, mask);
        assert_eq!(occ.0 & !mask.0, 0);
        assert!(seen.insert(occ.0));
    }
    assert_eq!(seen.len() as u64, n);
}

#[test]
fn magic_slot_is_the_top_bits_of_the_wrapped_product() {
    assert_eq!(magic_slot(0x0123_4567_89AB_CDEF, 0x9E37_79B9_7F4A_7C15, 10), 50);
    assert_eq!(magic_slot(0xA, ROOK_MAGIC[0], 12), 2128);
    assert_eq!(magic_slot(0, 0xFFFF_FFFF_FFFF_FFFF, 12), 0);
    assert_eq!(magic_slot(1, 0xFFFF_FFFF_FFFF_FFFF, 12), 4095);
    assert_eq!(magic_slot(1, 0x8000_0000_0000_0000, 1), 1);
}

#[test]
fn the_built_in_multipliers_hash_without_collision() {
    for s in 0..64usize {
        assert!(is_magic(BISHOP_MAGIC[s], bishop_attack(s as u64)));
        assert!(is_magic(ROOK_MAGIC[s], rook_attack(s as u64)));
    }
}

#[test]
fn a_multiplier_with_collisions_is_told_apart() {
    assert!(!is_magic(0, rook_attack(0)));
    assert!(!is_magic(1, rook_attack(0)));
    assert!(!is_magic(0, bishop_attack(27)));
    assert!(!is_magic(BISHOP_MAGIC[0], rook_attack(0)));
}

#[test]
fn a_candidate_keeps_the_shared_bits_of_three_joined_words() {
    let words = [
        0x1111_2222_3333_4444,
        0x1212_2323_3434_4545,
        0x1313_2424_3535_4646,
        0x1414_2525_3636_4747,
        0x1515_2626_3737_4848,
        0x1616_2727_3838_4949,
        0x1717_2828_3939_4A4A,
        0x1818_2929_3A3A_4B4B,
        0x1919_2A2A_3B3B_4C4C,
        0x1A1A_2B2B_3C3C_4D4D,
        0x1B1B_2C2C_3D3D_4E4E,
        0x1C1C_2D2D_3E3E_4F4F,
    ];
    assert_eq!(sparse_candidate(&words), 0x4343_4242_4141_4040);
    let words = [
        0xFFFF, 0xABCD, 0x1234, 0x8001, 0xFF0F, 0xFFFF, 0xFFFF, 0xFFFF, 0xF0FF, 0xFFFF, 0xFF00,
        0xFFFF,
    ];
    assert_eq!(sparse_candidate(&words), 0x8001_1200_ABCD_F00F);
    assert_eq!(sparse_candidate(&[u64::MAX; 12]), u64::MAX);
    assert_eq!(sparse_candidate(&[0; 12]), 0);
}

#[test]
fn random_candidates_differ() {
    let mut seen = std::collections::HashSet::new();
    for _ in 0..64 {
        seen.insert(random_magic());
    }
    assert!(seen.len() > 1);
}

#[test]
fn tables_have_one_entry_for_each_square() {
    assert_eq!(calc_knight().len(), 64);
    assert_eq!(calc_king().len(), 64);
    assert_eq!(calc_pawns().len(), 64);
    assert_eq!(calc_bishop().len(), 64);
    assert_eq!(calc_rook().len(), 64);
    let knights = calc_knight();
    let kings = calc_king();
    let pawns = calc_pawns();
    let bishops = calc_bishop();
    let rooks = calc_rook();
    for s in 0..64usize {
        assert_eq!(knights[s], knight_attack(s as u64));
        assert_eq!(kings[s], king_attack(s as u64));
        assert_eq!(pawns[s][0], pawn_attack(s as u64, Color::White));
        assert_eq!(pawns[s][1], pawn_attack(s as u64, Color::Black));
        assert_eq!(bishops[s].0, bishop_attack(s as u64));
        assert_eq!(bishops[s].1, bishop_attack(s as u64).0.count_ones());
        assert_eq!(rooks[s].0, rook_attack(s as u64));
        assert_eq!(rooks[s].1, rook_attack(s as u64).0.count_ones());
    }
}

#[test]
fn slider_tables_have_rows_of_512_and_4096() {
    let bishops = calc_bishop_magic(&BISHOP_MAGIC).expect("bishop multipliers");
    let rooks = calc_rook_magic(&ROOK_MAGIC).expect("rook multipliers");
    assert_eq!(bishops.len(), 64);
    assert_eq!(rooks.len(), 64);
    for s in 0..64 {
        assert_eq!(bishops[s].len(), 512);
        assert_eq!(rooks[s].len(), 4096);
    }
}

#[test]
fn every_lookup_gives_the_reach_that_walking_the_rays_gives() {
    let pre = tables();
    for s in 0..64u64 {
        let mask = bishop_attack(s);
        for idx in 0..(1u64 << count_ones(mask.0)) {
            let occ = occupancy(idx, mask);
            assert_eq!(pre.bishop_attack(s, occ), bishop_attack_blocker(s, occ));
        }
        let mask = rook_attack(s);
        for idx in 0..(1u64 << count_ones(mask.0)) {
            let occ = occupancy(idx, mask);
            assert_eq!(pre.rook_attack(s, occ), rook_attack_blocker(s, occ));
        }
    }
}

#[test]
fn lookups_ignore_what_stands_outside_the_mask() {
    let pre = tables();
    let mut word: u64 = 0x9E37_79B9_7F4A_7C15;
    for _ in 0..2000 {
        word ^= word << 13;
        word ^= word >> 7;
        word ^= word << 17;
        let occ = BitBoard(word & (word >> 3));
        let s = word % 64;
        assert_eq!(pre.bishop_attack(s, occ), bishop_attack_blocker(s, occ));
        assert_eq!(pre.rook_attack(s, occ), rook_attack_blocker(s, occ));
        assert_eq!(
            pre.queen_attack(s, occ),
            BitBoard(bishop_attack_blocker(s, occ).0 | rook_attack_blocker(s, occ).0)
        );
    }
}

#[test]
fn lookups_take_every_kind_of_index() {
    let pre = tables();
    let occ = BitBoard(0x0008_2000_4200_0A00);
    assert_eq!(pre.rook_attack(Square::D4, occ), BitBoard(0x0008_0808_7608_0800));
    assert_eq!(pre.rook_attack(27usize, occ), BitBoard(0x0008_0808_7608_0800));
    assert_eq!(pre.bishop_attack((3u64, 3u64), occ), BitBoard(0x0001_2214_0014_2240));
    assert_eq!(pre.queen_attack(27i32, occ), BitBoard(0x0009_2A1C_761C_2A40));
}

#[test]
fn unsuitable_multipliers_are_refused() {
    assert!(Precalc::with_magics(&[0; 64], &ROOK_MAGIC).is_none());
    assert!(Precalc::with_magics(&BISHOP_MAGIC, &[0; 64]).is_none());
    assert!(calc_bishop_magic(&[1; 64]).is_none());
    assert!(calc_rook_magic(&[1; 64]).is_none());
    let mut one_bad = ROOK_MAGIC;
    one_bad[63] = 0;
    assert!(calc_rook_magic(&one_bad).is_none());
}

#[test]
fn suitable_multipliers_are_kept_with_the_tables() {
    let pre = Precalc::with_magics(&BISHOP_MAGIC, &ROOK_MAGIC).expect("built-in multipliers");
    assert_eq!(pre.bishop_multiplier, BISHOP_MAGIC);
    assert_eq!(pre.rook_multiplier, ROOK_MAGIC);
    assert_eq!(pre.knight.len(), 64);
    assert_eq!(pre.king.len(), 64);
    assert_eq!(pre.pawns.len(), 64);
}
