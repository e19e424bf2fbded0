use chess_engine::bitboard::{
    BitBoard, FILE_A, FILE_AB, FILE_GH, FILE_H, RANK_1, RANK_12, RANK_78, RANK_8,
};
use chess_engine::bitboardindex::BitBoardIdx;
use chess_engine::bits::count_ones;
use chess_engine::square::Square;

#[test]
fn set_adds_one_square() {
    let mut b = BitBoard(0);
    b.set(0u64);
    assert_eq!(b, BitBoard(1));
    b.set(63u64);
    assert_eq!(b, BitBoard(0x8000_0000_0000_0001));
    b.set(63u64);
    assert_eq!(b, BitBoard(0x8000_0000_0000_0001));
}

#[test]
fn get_reads_one_square() {
    let b = BitBoard(0x0000_0000_0001_0400);
    assert!(b.get(10u64));
    assert!(b.get(16u64));
    assert!(!b.get(11u64));
    assert!(!b.get(0u64));
    assert!(!b.get(63u64));
}

#[test]
fn clear_removes_one_square() {
    let mut b = BitBoard(0xFF);
    b.clear(3u64);
    assert_eq!(b, BitBoard(0xF7));
    b.clear(3u64);
    assert_eq!(b, BitBoard(0xF7));
    b.clear(40u64);
    assert_eq!(b, BitBoard(0xF7));
}

#[test]
fn every_kind_of_index_names_the_same_square() {
    let mut a = BitBoard(0);
    a.set(Square::E4);
    let mut b = BitBoard(0);
    b.set(28u64);
    let mut c = BitBoard(0);
    c.set(28usize);
    let mut d = BitBoard(0);
    d.set(28i32);
    let mut e = BitBoard(0);
    e.set((3u64, 4u64));
    let mut f = BitBoard(0);
    f.set((3usize, 4usize));
    assert_eq!(a, BitBoard(1 << 28));
    assert_eq!(b, a);
    assert_eq!(c, a);
    assert_eq!(d, a);
    assert_eq!(e, a);
    assert_eq!(f, a);
}

#[test]
fn idx_of_each_kind_of_index() {
    assert_eq!((7u64, 7u64).idx(), 63);
    assert_eq!((2usize, 5usize).idx(), 21);
    assert_eq!(17u64.idx(), 17);
    assert_eq!(17usize.idx(), 17);
    assert_eq!(17i32.idx(), 17);
    assert_eq!(Square::H8.idx(), 63);
    assert_eq!(Square::A1.idx(), 0);
    assert_eq!(Square::B1.idx_usize(), 1);
    assert_eq!((1u64, 0u64).idx_usize(), 8);
}

#[test]
fn default_bitboard_is_empty() {
    assert_eq!(BitBoard::default(), BitBoard(0));
}

#[test]
fn operators_act_on_the_word() {
    let a = BitBoard(0b1100);
    let b = BitBoard(0b1010);
    assert_eq!(a | b, BitBoard(0b1110));
    assert_eq!(a | 1u64, BitBoard(0b1101));
    assert_eq!(a & b, BitBoard(0b1000));
    assert_eq!(a & 0b0100u64, BitBoard(0b0100));
    assert_eq!(!a, BitBoard(0xFFFF_FFFF_FFFF_FFF3));
    assert_eq!(a << 8u64, BitBoard(0b1100_0000_0000));
    assert_eq!(a >> 2u64, BitBoard(0b11));
    assert_eq!(BitBoard(1 << 63) << 1u64, BitBoard(0));
    assert_eq!(a - b, BitBoard(2));
    assert_eq!(a - 1u64, BitBoard(0b1011));
    assert_eq!(-a, BitBoard(0xFFFF_FFFF_FFFF_FFF4));
    assert_eq!(-BitBoard(0), BitBoard(0));
    assert!(a == 12u64);
    assert!(a != 13u64);
}

#[test]
fn assigning_operators_act_on_the_word() {
    let mut a = BitBoard(0b1100);
    a |= BitBoard(0b0011);
    assert_eq!(a, BitBoard(0b1111));
    a &= BitBoard(0b0110);
    assert_eq!(a, BitBoard(0b0110));
    a |= 0b1000u64;
    assert_eq!(a, BitBoard(0b1110));
    a &= 0b1100u64;
    assert_eq!(a, BitBoard(0b1100));
}

#[test]
fn lowest_square_is_cleared_by_and_with_predecessor() {
    let a = BitBoard(0b1011_0000);
    assert_eq!(a & (a - 1u64), BitBoard(0b1010_0000));
}

#[test]
fn file_and_rank_masks() {
    assert_eq!(FILE_A, 0x0101_0101_0101_0101);
    assert_eq!(FILE_H, 0x8080_8080_8080_8080);
    assert_eq!(FILE_AB, 0x0303_0303_0303_0303);
    assert_eq!(FILE_GH, 0xC0C0_C0C0_C0C0_C0C0);
    assert_eq!(RANK_1, 0xFF);
    assert_eq!(RANK_8, 0xFF00_0000_0000_0000);
    assert_eq!(RANK_12, 0xFFFF);
    assert_eq!(RANK_78, 0xFFFF_0000_0000_0000);
    for s in 0..64u64 {
        assert_eq!((1u64 << s) & FILE_A != 0, s % 8 == 0);
        assert_eq!((1u64 << s) & FILE_H != 0, s % 8 == 7);
        assert_eq!((1u64 << s) & RANK_1 != 0, s / 8 == 0);
        assert_eq!((1u64 << s) & RANK_8 != 0, s / 8 == 7);
    }
}

#[test]
fn count_ones_counts_the_squares() {
    assert_eq!(count_ones(0), 0);
    assert_eq!(count_ones(1), 1);
    assert_eq!(count_ones(0xFF00), 8);
    assert_eq!(count_ones(u64::MAX), 64);
    assert_eq!(count_ones(0x8000_0000_0000_0001), 2);
}

#[test]
fn bitboard_text_is_a_grid_with_the_eighth_rank_on_top() {
    let mut b = BitBoard(0);
    b.set(Square::A1);
    b.set(Square::H8);
    b.set(Square::E4);
    let expected = "  8  . . . . . . . 1 \n\
                    \x20 7  . . . . . . . . \n\
                    \x20 6  . . . . . . . . \n\
                    \x20 5  . . . . . . . . \n\
                    \x20 4  . . . . 1 . . . \n\
                    \x20 3  . . . . . . . . \n\
                    \x20 2  . . . . . . . . \n\
                    \x20 1  1 . . . . . . . \n\
                    \n\
                    \x20    a b c d e f g h\n";
    assert_eq!(b.to_text(), expected);
}
