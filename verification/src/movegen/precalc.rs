//! The attack tables and the functions that fill them.
use crate::bitboard::{
    lemma_square_off_masks, BitBoard, FILE_A, FILE_AB, FILE_GH, FILE_H, RANK_1, RANK_12, RANK_78,
    RANK_8,
};
use crate::bitboardindex::BitBoardIdx;
use crate::bits::{
    count_ones, lemma_bit_and, lemma_bit_or, lemma_bit_zero, lemma_popcount_insert,
    lemma_popcount_len, lemma_squares_equal, popcount, squares,
};
use crate::movegen::geometry::{
    bishop_mask, bishop_mask_part, bishop_ray, bishop_reach, bishop_segment,
    king_reach, knight_reach, lemma_bishop_end, lemma_bishop_mask_end, lemma_bishop_mask_parts,
    lemma_bishop_mask_step, lemma_bishop_rays, lemma_bishop_reach_relevant, lemma_bishop_step,
    lemma_king_reach, lemma_knight_reach, lemma_pawn_reach, lemma_rook_end,
    lemma_rook_mask_parts, lemma_rook_rays, lemma_rook_reach_relevant, lemma_rook_step,
    lemma_segment_start, pawn_reach, queen_reach, rook_mask, rook_mask_file_part,
    rook_mask_rank_part, rook_ray, rook_reach, rook_segment, unoccupied,
};
use crate::movegen::magic::{
    deposit, extract, lemma_extract, lemma_subset_and, magic_index, magic_slot, occupancy,
    BISHOP_MAGIC, ROOK_MAGIC,
};
use crate::piece::Color;
use vstd::prelude::*;

verus! {

/// The squares a pawn of `color` on `square` attacks.
pub fn pawn_attack(square: u64, color: Color) -> (attacks: BitBoard)
    requires
        square < 64,
    ensures
        attacks@ == pawn_reach(color, square as int),
{
    let mut attacks = BitBoard(0);
    proof {
        lemma_square_off_masks(square);
        lemma_bit_zero();
        lemma_pawn_reach(color, square as int);
    }
    match color {
        Color::White => {
            if (1u64 << square) & FILE_A == 0 && square <= 56 {
                attacks.set(square + 7);
            }
            if (1u64 << square) & FILE_H == 0 && square <= 54 {
                attacks.set(square + 9);
            }
        },
        Color::Black => {
            if (1u64 << square) & FILE_A == 0 && square >= 9 {
                attacks.set(square - 9);
            }
            if (1u64 << square) & FILE_H == 0 && square >= 7 {
                attacks.set(square - 7);
            }
        },
    };
    assert(attacks@ =~= pawn_reach(color, square as int));
    attacks
}

/// The squares a knight on `square` attacks.
pub fn knight_attack(square: u64) -> (attacks: BitBoard)
    requires
        square < 64,
    ensures
        attacks@ == knight_reach(square as int),
{
    let mut attacks = BitBoard(0);
    let sqb = 1u64 << square;
    proof {
        lemma_square_off_masks(square);
        lemma_bit_zero();
        lemma_knight_reach(square as int);
    }
    if sqb & FILE_A == 0 && sqb & RANK_78 == 0 {
        attacks.set(square + 15);
    }
    if sqb & FILE_H == 0 && sqb & RANK_78 == 0 {
        attacks.set(square + 17);
    }
    if sqb & FILE_AB == 0 && sqb & RANK_8 == 0 {
        attacks.set(square + 6);
    }
    if sqb & FILE_GH == 0 && sqb & RANK_8 == 0 {
        attacks.set(square + 10);
    }
    if sqb & FILE_H == 0 && sqb & RANK_12 == 0 {
        attacks.set(square - 15);
    }
    if sqb & FILE_A == 0 && sqb & RANK_12 == 0 {
        attacks.set(square - 17);
    }
    if sqb & FILE_GH == 0 && sqb & RANK_1 == 0 {
        attacks.set(square - 6);
    }
    if sqb & FILE_AB == 0 && sqb & RANK_1 == 0 {
        attacks.set(square - 10);
    }
    assert(attacks@ =~= knight_reach(square as int));
    attacks
}

/// The squares a king on `square` attacks.
pub fn king_attack(square: u64) -> (attacks: BitBoard)
    requires
        square < 64,
    ensures
        attacks@ == king_reach(square as int),
{
    let mut attacks = BitBoard(0);
    let sqb = 1u64 << square;
    proof {
        lemma_square_off_masks(square);
        lemma_bit_zero();
        lemma_king_reach(square as int);
    }
    let file_a = sqb & FILE_A != 0;
    let file_h = sqb & FILE_H != 0;
    let rank_1 = sqb & RANK_1 != 0;
    let rank_8 = sqb & RANK_8 != 0;

    if !file_a {
        attacks.set(square - 1);
        if !rank_1 {
            attacks.set(square - 9);
        }
        if !rank_8 {
            attacks.set(square + 7);
        }
    }
    if !file_h {
        attacks.set(square + 1);
        if !rank_1 {
            attacks.set(square - 7);
        }
        if !rank_8 {
            attacks.set(square + 9);
        }
    }
    if !rank_1 {
        attacks.set(square - 8);
    }
    if !rank_8 {
        attacks.set(square + 8);
    }
    assert(attacks@ =~= king_reach(square as int));
    attacks
}

/// The four diagonals through a square hold at most nine inner squares.
proof fn lemma_diagonal_count(i: int, j: int, n1: int, n2: int, n3: int, n4: int)
    requires
        0 <= i < 8,
        0 <= j < 8,
        n1 <= 0 || (n1 <= 6 - i && n1 <= 6 - j),
        n2 <= 0 || (n2 <= i - 1 && n2 <= 6 - j),
        n3 <= 0 || (n3 <= 6 - i && n3 <= j - 1),
        n4 <= 0 || (n4 <= i - 1 && n4 <= j - 1),
        n1 >= 0,
        n2 >= 0,
        n3 >= 0,
        n4 >= 0,
    ensures
        n1 + n2 + n3 + n4 <= 9,
{
}

/// The squares whose occupancy matters to a bishop on `square`: its diagonals
/// without the rim of the board.
pub fn bishop_attack(square: u64) -> (attacks: BitBoard)
    requires
        square < 64,
    ensures
        attacks@ == bishop_mask(square as int),
        1 <= popcount(attacks.0) <= 9,
{
    let mut attacks = BitBoard(0);
    let ghost s = square as int;
    proof {
        lemma_bit_zero();
    }

    let (i, j) = (square / 8, square % 8);
    let ghost base = attacks@;
    let ghost count = popcount(attacks.0);
    let ghost mut n1: int = 0;
    proof {
        assert(bishop_mask_part(s, 1, 1, 1) =~= Set::<int>::empty());
        assert(attacks@ =~= base.union(bishop_mask_part(s, 1, 1, 1)));
    }
    let (mut x, mut y) = (i + 1, j + 1);
    let ghost mut k: int = 1;
    while x < 7 && y < 7
        invariant
            s == square,
            square < 64,
            i == square / 8,
            j == square % 8,
            x == i + k,
            y == j + k,
            1 <= k <= 7,
            x <= 8,
            y <= 8,
            k == 1 || (i + k <= 7 && j + k <= 7),
            attacks@ == base.union(bishop_mask_part(s, 1, 1, k)),
            popcount(attacks.0) <= count + (k - 1),
        decreases 8 - k,
    {
        let idx = x * 8 + y;
        proof {
            lemma_bishop_mask_step(s, 1, 1, k);
            lemma_popcount_insert(attacks.0, idx);
        }
        attacks.set(idx);
        assert(attacks@ =~= base.union(bishop_mask_part(s, 1, 1, k + 1)));
        x += 1;
        y += 1;
        proof {
            k = k + 1;
        }
    }
    proof {
        lemma_bishop_mask_end(s, 1, 1, k);
        n1 = k - 1;
    }
    let ghost base = attacks@;
    let ghost count = popcount(attacks.0);
    let ghost mut n2: int = 0;
    proof {
        assert(bishop_mask_part(s, 1, -1, 1) =~= Set::<int>::empty());
        assert(attacks@ =~= base.union(bishop_mask_part(s, 1, -1, 1)));
    }
    if i > 0 {
        let (mut x, mut y) = (i - 1, j + 1);
        let ghost mut k: int = 1;
        while x > 0 && y < 7
            invariant
                s == square,
                square < 64,
                i == square / 8,
                j == square % 8,
                x == i - k,
                y == j + k,
                1 <= k <= 7,
                x <= 8,
                y <= 8,
                k == 1 || (k <= i && j + k <= 7),
                attacks@ == base.union(bishop_mask_part(s, 1, -1, k)),
                popcount(attacks.0) <= count + (k - 1),
            decreases 8 - k,
        {
            let idx = x * 8 + y;
            proof {
                lemma_bishop_mask_step(s, 1, -1, k);
                lemma_popcount_insert(attacks.0, idx);
            }
            attacks.set(idx);
            assert(attacks@ =~= base.union(bishop_mask_part(s, 1, -1, k + 1)));
            x -= 1;
            y += 1;
            proof {
                k = k + 1;
            }
        }
        proof {
            lemma_bishop_mask_end(s, 1, -1, k);
            n2 = k - 1;
        }
    } else {
        proof {
            lemma_bishop_mask_end(s, 1, -1, 1);
        }
    }
    let ghost base = attacks@;
    let ghost count = popcount(attacks.0);
    let ghost mut n3: int = 0;
    proof {
        assert(bishop_mask_part(s, -1, 1, 1) =~= Set::<int>::empty());
        assert(attacks@ =~= base.union(bishop_mask_part(s, -1, 1, 1)));
    }
    if j > 0 {
        let (mut x, mut y) = (i + 1, j - 1);
        let ghost mut k: int = 1;
        while x < 7 && y > 0
            invariant
                s == square,
                square < 64,
                i == square / 8,
                j == square % 8,
                x == i + k,
                y == j - k,
                1 <= k <= 7,
                x <= 8,
                y <= 8,
                k == 1 || (i + k <= 7 && k <= j),
                attacks@ == base.union(bishop_mask_part(s, -1, 1, k)),
                popcount(attacks.0) <= count + (k - 1),
            decreases 8 - k,
        {
            let idx = x * 8 + y;
            proof {
                lemma_bishop_mask_step(s, -1, 1, k);
                lemma_popcount_insert(attacks.0, idx);
            }
            attacks.set(idx);
            assert(attacks@ =~= base.union(bishop_mask_part(s, -1, 1, k + 1)));
            x += 1;
            y -= 1;
            proof {
                k = k + 1;
            }
        }
        proof {
            lemma_bishop_mask_end(s, -1, 1, k);
            n3 = k - 1;
        }
    } else {
        proof {
            lemma_bishop_mask_end(s, -1, 1, 1);
        }
    }
    let ghost base = attacks@;
    let ghost count = popcount(attacks.0);
    let ghost mut n4: int = 0;
    proof {
        assert(bishop_mask_part(s, -1, -1, 1) =~= Set::<int>::empty());
        assert(attacks@ =~= base.union(bishop_mask_part(s, -1, -1, 1)));
    }
    if i > 0 && j > 0 {
        let (mut x, mut y) = (i - 1, j - 1);
        let ghost mut k: int = 1;
        while x > 0 && y > 0
            invariant
                s == square,
                square < 64,
                i == square / 8,
                j == square % 8,
                x == i - k,
                y == j - k,
                1 <= k <= 7,
                x <= 8,
                y <= 8,
                k == 1 || (k <= i && k <= j),
                attacks@ == base.union(bishop_mask_part(s, -1, -1, k)),
                popcount(attacks.0) <= count + (k - 1),
            decreases 8 - k,
        {
            let idx = x * 8 + y;
            proof {
                lemma_bishop_mask_step(s, -1, -1, k);
                lemma_popcount_insert(attacks.0, idx);
            }
            attacks.set(idx);
            assert(attacks@ =~= base.union(bishop_mask_part(s, -1, -1, k + 1)));
            x -= 1;
            y -= 1;
            proof {
                k = k + 1;
            }
        }
        proof {
            lemma_bishop_mask_end(s, -1, -1, k);
            n4 = k - 1;
        }
    } else {
        proof {
            lemma_bishop_mask_end(s, -1, -1, 1);
        }
    }
    proof {
        lemma_bishop_mask_parts(s);
        lemma_diagonal_count(i as int, j as int, n1, n2, n3, n4);
        lemma_popcount_len(attacks.0);
        assert(attacks@ =~= bishop_mask(s));
    }

    attacks
}

/// The squares whose occupancy matters to a rook on `square`: its rank and
/// file without their last squares.
pub fn rook_attack(square: u64) -> (attacks: BitBoard)
    requires
        square < 64,
    ensures
        attacks@ == rook_mask(square as int),
        1 <= popcount(attacks.0) <= 12,
{
    let mut attacks = BitBoard(0);
    let ghost s = square as int;
    proof {
        lemma_bit_zero();
        lemma_rook_mask_parts(s, 1);
    }

    let (i, j) = (square / 8, square % 8);
    let (x, mut y) = (i, 1u64);
    while y < 7
        invariant
            s == square,
            square < 64,
            i == square / 8,
            j == square % 8,
            x == i,
            1 <= y <= 7,
            attacks@ == rook_mask_rank_part(s, y as int),
            popcount(attacks.0) <= y - 1,
        decreases 7 - y,
    {
        let idx = x * 8 + y;
        proof {
            lemma_rook_mask_parts(s, y as int);
        }
        if y != j {
            proof {
                lemma_popcount_insert(attacks.0, idx);
            }
            attacks.set(idx);
        }
        y += 1;
    }
    let ghost base = attacks@;
    let (mut x, y) = (1u64, j);
    assert(attacks@ =~= base.union(rook_mask_file_part(s, 1)));
    while x < 7
        invariant
            s == square,
            square < 64,
            i == square / 8,
            j == square % 8,
            y == j,
            1 <= x <= 7,
            attacks@ == base.union(rook_mask_file_part(s, x as int)),
            popcount(attacks.0) <= 6 + (x - 1),
        decreases 7 - x,
    {
        let idx = x * 8 + y;
        proof {
            lemma_rook_mask_parts(s, x as int);
        }
        if x != i {
            proof {
                lemma_popcount_insert(attacks.0, idx);
            }
            attacks.set(idx);
            assert(attacks@ =~= base.union(rook_mask_file_part(s, x + 1)));
        }
        x += 1;
    }
    proof {
        lemma_popcount_len(attacks.0);
    }
    attacks
}

/// The squares a bishop on `square` attacks when the squares of `blockers` are
/// occupied: each diagonal is walked up to and including the first blocker.
pub fn bishop_attack_blocker(square: u64, blockers: BitBoard) -> (attacks: BitBoard)
    requires
        square < 64,
    ensures
        attacks@ == bishop_reach(square as int, blockers@),
{
    let mut attacks = BitBoard(0);
    let ghost s = square as int;
    let ghost occ = blockers@;
    proof {
        lemma_bit_zero();
    }

    let (i, j) = (square / 8, square % 8);
    let ghost base = attacks@;
    proof {
        lemma_segment_start(s, 1, 1, occ);
        assert(attacks@ =~= base.union(bishop_segment(s, 1, 1, 1)));
        if i == 7 || j == 7 {
            lemma_bishop_end(s, occ, 1, 1, 1);
        }
    }
    let (mut x, mut y) = (i + 1, j + 1);
    let ghost mut k: int = 1;
    while x <= 7 && y <= 7
        invariant_except_break
            x == i + k,
            y == j + k,
            k >= 1,
            x <= 8,
            y <= 8,
            attacks@ == base.union(bishop_segment(s, 1, 1, k)),
            unoccupied(bishop_segment(s, 1, 1, k), occ),
        invariant
            s == square,
            square < 64,
            i == square / 8,
            j == square % 8,
            occ == blockers@,
        ensures
            attacks@ == base.union(bishop_ray(s, occ, 1, 1)),
        decreases 8 - k,
    {
        let idx = x * 8 + y;
        proof {
            lemma_bishop_step(s, occ, 1, 1, k);
        }
        attacks.set(idx);
        assert(attacks@ =~= base.union(bishop_segment(s, 1, 1, k + 1)));
        if blockers.get(idx) {
            break ;
        }
        x += 1;
        y += 1;
        proof {
            k = k + 1;
            if !(x <= 7 && y <= 7) {
                lemma_bishop_end(s, occ, 1, 1, k);
            }
        }
    }
    let ghost base = attacks@;
    proof {
        lemma_segment_start(s, 1, -1, occ);
        assert(attacks@ =~= base.union(bishop_segment(s, 1, -1, 1)));
        if j == 7 {
            lemma_bishop_end(s, occ, 1, -1, 1);
        }
    }
    if i > 0 {
        let (mut x, mut y) = (i - 1, j + 1);
        let ghost mut k: int = 1;
        while y <= 7
            invariant_except_break
                x == i - k,
                y == j + k,
                k >= 1,
                x <= 8,
                y <= 8,
                attacks@ == base.union(bishop_segment(s, 1, -1, k)),
                unoccupied(bishop_segment(s, 1, -1, k), occ),
            invariant
                s == square,
                square < 64,
                i == square / 8,
                j == square % 8,
                occ == blockers@,
            ensures
                attacks@ == base.union(bishop_ray(s, occ, 1, -1)),
            decreases 8 - k,
        {
            let idx = x * 8 + y;
            proof {
                lemma_bishop_step(s, occ, 1, -1, k);
            }
            attacks.set(idx);
            assert(attacks@ =~= base.union(bishop_segment(s, 1, -1, k + 1)));
            if blockers.get(idx) {
                break ;
            }
            if x == 0 {
                proof {
                    lemma_bishop_end(s, occ, 1, -1, k + 1);
                }
                break ;
            }
            x -= 1;
            y += 1;
            proof {
                k = k + 1;
                if !(y <= 7) {
                    lemma_bishop_end(s, occ, 1, -1, k);
                }
            }
        }
    } else {
        proof {
            lemma_bishop_end(s, occ, 1, -1, 1);
        }
    }
    let ghost base = attacks@;
    proof {
        lemma_segment_start(s, -1, 1, occ);
        assert(attacks@ =~= base.union(bishop_segment(s, -1, 1, 1)));
        if i == 7 {
            lemma_bishop_end(s, occ, -1, 1, 1);
        }
    }
    if j > 0 {
        let (mut x, mut y) = (i + 1, j - 1);
        let ghost mut k: int = 1;
        while x <= 7
            invariant_except_break
                x == i + k,
                y == j - k,
                k >= 1,
                x <= 8,
                y <= 8,
                attacks@ == base.union(bishop_segment(s, -1, 1, k)),
                unoccupied(bishop_segment(s, -1, 1, k), occ),
            invariant
                s == square,
                square < 64,
                i == square / 8,
                j == square % 8,
                occ == blockers@,
            ensures
                attacks@ == base.union(bishop_ray(s, occ, -1, 1)),
            decreases 8 - k,
        {
            let idx = x * 8 + y;
            proof {
                lemma_bishop_step(s, occ, -1, 1, k);
            }
            attacks.set(idx);
            assert(attacks@ =~= base.union(bishop_segment(s, -1, 1, k + 1)));
            if blockers.get(idx) {
                break ;
            }
            if y == 0 {
                proof {
                    lemma_bishop_end(s, occ, -1, 1, k + 1);
                }
                break ;
            }
            x += 1;
            y -= 1;
            proof {
                k = k + 1;
                if !(x <= 7) {
                    lemma_bishop_end(s, occ, -1, 1, k);
                }
            }
        }
    } else {
        proof {
            lemma_bishop_end(s, occ, -1, 1, 1);
        }
    }
    let ghost base = attacks@;
    proof {
        lemma_segment_start(s, -1, -1, occ);
        assert(attacks@ =~= base.union(bishop_segment(s, -1, -1, 1)));
    }
    if i > 0 && j > 0 {
        let (mut x, mut y) = (i - 1, j - 1);
        let ghost mut k: int = 1;
        loop
            invariant_except_break
                x == i - k,
                y == j - k,
                k >= 1,
                x <= 8,
                y <= 8,
                attacks@ == base.union(bishop_segment(s, -1, -1, k)),
                unoccupied(bishop_segment(s, -1, -1, k), occ),
            invariant
                s == square,
                square < 64,
                i == square / 8,
                j == square % 8,
                occ == blockers@,
            ensures
                attacks@ == base.union(bishop_ray(s, occ, -1, -1)),
            decreases 8 - k,
        {
            let idx = x * 8 + y;
            proof {
                lemma_bishop_step(s, occ, -1, -1, k);
            }
            attacks.set(idx);
            assert(attacks@ =~= base.union(bishop_segment(s, -1, -1, k + 1)));
            if blockers.get(idx) {
                break ;
            }
            if x == 0 || y == 0 {
                proof {
                    lemma_bishop_end(s, occ, -1, -1, k + 1);
                }
                break ;
            }
            x -= 1;
            y -= 1;
            proof {
                k = k + 1;
            }
        }
    } else {
        proof {
            lemma_bishop_end(s, occ, -1, -1, 1);
        }
    }
    proof {
        lemma_bishop_rays(s, occ);
        assert(attacks@ =~= bishop_reach(s, occ));
    }

    attacks
}

/// The squares a rook on `square` attacks when the squares of `blockers` are
/// occupied: each direction is walked up to and including the first blocker.
pub fn rook_attack_blocker(square: u64, blockers: BitBoard) -> (attacks: BitBoard)
    requires
        square < 64,
    ensures
        attacks@ == rook_reach(square as int, blockers@),
{
    let mut attacks = BitBoard(0);
    let ghost s = square as int;
    let ghost occ = blockers@;
    proof {
        lemma_bit_zero();
    }

    let (i, j) = (square / 8, square % 8);
    let ghost base = attacks@;
    proof {
        lemma_segment_start(s, 0, 1, occ);
        assert(attacks@ =~= base.union(rook_segment(s, 0, 1, 1)));
        if i == 7 {
            lemma_rook_end(s, occ, 0, 1, 1);
        }
    }
    let (mut x, y) = (i + 1, j);
    let ghost mut k: int = 1;
    while x <= 7
        invariant_except_break
            x == i + k,
            y == j,
            k >= 1,
            x <= 8,
            y <= 8,
            attacks@ == base.union(rook_segment(s, 0, 1, k)),
            unoccupied(rook_segment(s, 0, 1, k), occ),
        invariant
            s == square,
            square < 64,
            i == square / 8,
            j == square % 8,
            occ == blockers@,
        ensures
            attacks@ == base.union(rook_ray(s, occ, 0, 1)),
        decreases 8 - k,
    {
        let idx = x * 8 + y;
        proof {
            lemma_rook_step(s, occ, 0, 1, k);
        }
        attacks.set(idx);
        assert(attacks@ =~= base.union(rook_segment(s, 0, 1, k + 1)));
        if blockers.get(idx) {
            break ;
        }
        x += 1;
        proof {
            k = k + 1;
            if !(x <= 7) {
                lemma_rook_end(s, occ, 0, 1, k);
            }
        }
    }
    let ghost base = attacks@;
    proof {
        lemma_segment_start(s, 0, -1, occ);
        assert(attacks@ =~= base.union(rook_segment(s, 0, -1, 1)));
    }
    if i > 0 {
        let (mut x, y) = (i - 1, j);
        let ghost mut k: int = 1;
        loop
            invariant_except_break
                x == i - k,
                y == j,
                k >= 1,
                x <= 8,
                y <= 8,
                attacks@ == base.union(rook_segment(s, 0, -1, k)),
                unoccupied(rook_segment(s, 0, -1, k), occ),
            invariant
                s == square,
                square < 64,
                i == square / 8,
                j == square % 8,
                occ == blockers@,
            ensures
                attacks@ == base.union(rook_ray(s, occ, 0, -1)),
            decreases 8 - k,
        {
            let idx = x * 8 + y;
            proof {
                lemma_rook_step(s, occ, 0, -1, k);
            }
            attacks.set(idx);
            assert(attacks@ =~= base.union(rook_segment(s, 0, -1, k + 1)));
            if blockers.get(idx) {
                break ;
            }
            if x == 0 {
                proof {
                    lemma_rook_end(s, occ, 0, -1, k + 1);
                }
                break ;
            }
            x -= 1;
            proof {
                k = k + 1;
            }
        }
    } else {
        proof {
            lemma_rook_end(s, occ, 0, -1, 1);
        }
    }
    let ghost base = attacks@;
    proof {
        lemma_segment_start(s, 1, 0, occ);
        assert(attacks@ =~= base.union(rook_segment(s, 1, 0, 1)));
        if j == 7 {
            lemma_rook_end(s, occ, 1, 0, 1);
        }
    }
    let (x, mut y) = (i, j + 1);
    let ghost mut k: int = 1;
    while y <= 7
        invariant_except_break
            x == i,
            y == j + k,
            k >= 1,
            x <= 8,
            y <= 8,
            attacks@ == base.union(rook_segment(s, 1, 0, k)),
            unoccupied(rook_segment(s, 1, 0, k), occ),
        invariant
            s == square,
            square < 64,
            i == square / 8,
            j == square % 8,
            occ == blockers@,
        ensures
            attacks@ == base.union(rook_ray(s, occ, 1, 0)),
        decreases 8 - k,
    {
        let idx = x * 8 + y;
        proof {
            lemma_rook_step(s, occ, 1, 0, k);
        }
        attacks.set(idx);
        assert(attacks@ =~= base.union(rook_segment(s, 1, 0, k + 1)));
        if blockers.get(idx) {
            break ;
        }
        y += 1;
        proof {
            k = k + 1;
            if !(y <= 7) {
                lemma_rook_end(s, occ, 1, 0, k);
            }
        }
    }
    let ghost base = attacks@;
    proof {
        lemma_segment_start(s, -1, 0, occ);
        assert(attacks@ =~= base.union(rook_segment(s, -1, 0, 1)));
    }
    if j > 0 {
        let (x, mut y) = (i, j - 1);
        let ghost mut k: int = 1;
        loop
            invariant_except_break
                x == i,
                y == j - k,
                k >= 1,
                x <= 8,
                y <= 8,
                attacks@ == base.union(rook_segment(s, -1, 0, k)),
                unoccupied(rook_segment(s, -1, 0, k), occ),
            invariant
                s == square,
                square < 64,
                i == square / 8,
                j == square % 8,
                occ == blockers@,
            ensures
                attacks@ == base.union(rook_ray(s, occ, -1, 0)),
            decreases 8 - k,
        {
            let idx = x * 8 + y;
            proof {
                lemma_rook_step(s, occ, -1, 0, k);
            }
            attacks.set(idx);
            assert(attacks@ =~= base.union(rook_segment(s, -1, 0, k + 1)));
            if blockers.get(idx) {
                break ;
            }
            if y == 0 {
                proof {
                    lemma_rook_end(s, occ, -1, 0, k + 1);
                }
                break ;
            }
            y -= 1;
            proof {
                k = k + 1;
            }
        }
    } else {
        proof {
            lemma_rook_end(s, occ, -1, 0, 1);
        }
    }
    proof {
        lemma_rook_rays(s, occ);
        assert(attacks@ =~= rook_reach(s, occ));
    }

    attacks
}

/// The mask of a slider: a rook's for `rook`, else a bishop's.
pub open spec fn slider_mask(rook: bool, s: int) -> Set<int> {
    if rook {
        rook_mask(s)
    } else {
        bishop_mask(s)
    }
}

/// The reach of a slider: a rook's for `rook`, else a bishop's.
pub open spec fn slider_reach(rook: bool, s: int, occ: Set<int>) -> Set<int> {
    if rook {
        rook_reach(s, occ)
    } else {
        bishop_reach(s, occ)
    }
}

/// Number of mask squares of a slider on `s`: the width of its hash in bits.
pub open spec fn mask_bits(rook: bool, s: int) -> u32 {
    slider_mask(rook, s).len() as u32
}

/// Number of slots in one square's row of a slider's table.
pub open spec fn table_width(rook: bool) -> int {
    if rook {
        4096
    } else {
        512
    }
}

/// The multiplier `magic` suits the slider on `s`: two occupancies of its mask
/// share a slot only when they give the same reach.
pub open spec fn magic_fits(rook: bool, s: int, magic: u64) -> bool {
    forall|a: u64, b: u64|
        #![trigger magic_index(a, magic, mask_bits(rook, s)), magic_index(b, magic, mask_bits(rook, s))]
        squares(a).subset_of(slider_mask(rook, s)) && squares(b).subset_of(slider_mask(rook, s))
            && magic_index(a, magic, mask_bits(rook, s)) == magic_index(
            b,
            magic,
            mask_bits(rook, s),
        ) ==> slider_reach(rook, s, squares(a)) == slider_reach(rook, s, squares(b))
}

/// The row answers every occupancy of the mask with the slider's exact reach.
pub open spec fn row_holds(row: Seq<BitBoard>, rook: bool, s: int, magic: u64) -> bool {
    &&& row.len() == table_width(rook)
    &&& forall|sub: u64|
        squares(sub).subset_of(slider_mask(rook, s)) ==> 0 <= #[trigger] magic_index(
            sub,
            magic,
            mask_bits(rook, s),
        ) < row.len() && row[magic_index(sub, magic, mask_bits(rook, s))]@ == slider_reach(
            rook,
            s,
            squares(sub),
        )
}

/// Mask and bit count of a slider on `square`.
fn slider_key(rook: bool, square: u64) -> (key: (BitBoard, u32))
    requires
        square < 64,
    ensures
        key.0@ == slider_mask(rook, square as int),
        key.1 == mask_bits(rook, square as int),
        key.1 == popcount(key.0.0),
        1 <= key.1 <= 12,
        !rook ==> key.1 <= 9,
{
    let mask = if rook {
        rook_attack(square)
    } else {
        bishop_attack(square)
    };
    proof {
        lemma_popcount_len(mask.0);
    }
    (mask, count_ones(mask.0))
}

/// A slider's reach under an occupancy, by walking its rays.
fn slider_trace(rook: bool, square: u64, blockers: BitBoard) -> (attacks: BitBoard)
    requires
        square < 64,
    ensures
        attacks@ == slider_reach(rook, square as int, blockers@),
{
    if rook {
        rook_attack_blocker(square, blockers)
    } else {
        bishop_attack_blocker(square, blockers)
    }
}

/// One square's row of a slider's table: every occupancy of the mask is traced
/// and stored at its slot. `None` when two occupancies with different reach
/// meet in one slot.
fn fill_row(rook: bool, square: u64, magic: u64) -> (row: Option<Vec<BitBoard>>)
    requires
        square < 64,
    ensures
        row is Some <==> magic_fits(rook, square as int, magic),
        row is Some ==> row_holds(row->0@, rook, square as int, magic),
{
    let ghost s = square as int;
    let (mask, bits) = slider_key(rook, square);
    let width: usize = if rook {
        4096
    } else {
        512
    };
    let mut row: Vec<BitBoard> = Vec::new();
    let mut filled: Vec<bool> = Vec::new();
    let mut k: usize = 0;
    while k < width
        invariant
            k <= width,
            row.len() == k,
            filled.len() == k,
            forall|i: int| 0 <= i < k ==> !filled[i],
        decreases width - k,
    {
        row.push(BitBoard(0));
        filled.push(false);
        k += 1;
    }
    let ghost mut witness: Seq<u64> = Seq::new(width as nat, |i: int| 0u64);
    let max_idx: u64 = 1u64 << bits;
    assert(max_idx <= 4096 && (bits <= 9 ==> max_idx <= 512)) by (bit_vector)
        requires
            1 <= bits <= 12,
            max_idx == 1u64 << bits,
    ;
    let mut idx: u64 = 0;
    while idx < max_idx
        invariant
            s == square,
            square < 64,
            mask@ == slider_mask(rook, s),
            bits == mask_bits(rook, s),
            bits == popcount(mask.0),
            1 <= bits <= 12,
            !rook ==> bits <= 9,
            max_idx == 1u64 << bits,
            idx <= max_idx,
            width == table_width(rook),
            row.len() == width,
            filled.len() == width,
            witness.len() == width,
            forall|i: int|
                0 <= i < width && #[trigger] filled[i] ==> squares(witness[i]).subset_of(mask@)
                    && magic_index(witness[i], magic, bits) == i && row[i]@ == slider_reach(
                    rook,
                    s,
                    squares(witness[i]),
                ),
            forall|e: u64|
                e < idx ==> 0 <= #[trigger] magic_index(deposit(e, mask.0), magic, bits) < width
                    && filled[magic_index(deposit(e, mask.0), magic, bits)] && row[magic_index(
                    deposit(e, mask.0),
                    magic,
                    bits,
                )]@ == slider_reach(rook, s, squares(deposit(e, mask.0))),
        decreases max_idx - idx,
    {
        let occ = occupancy(idx, mask);
        let slot = magic_slot(occ.0, magic, bits);
        let attack = slider_trace(rook, square, occ);
        if filled[slot] {
            if row[slot].0 != attack.0 {
                proof {
                    let a = witness[slot as int];
                    let b = occ.0;
                    assert(squares(a).subset_of(slider_mask(rook, s)));
                    assert(squares(b).subset_of(slider_mask(rook, s)));
                    assert(magic_index(a, magic, mask_bits(rook, s)) == magic_index(
                        b,
                        magic,
                        mask_bits(rook, s),
                    ));
                    if slider_reach(rook, s, squares(a)) == slider_reach(rook, s, squares(b)) {
                        lemma_squares_equal(row[slot as int].0, attack.0);
                    }
                }
                return None;
            }
        } else {
            row.set(slot, attack);
            filled.set(slot, true);
            proof {
                witness = witness.update(slot as int, occ.0);
            }
        }
        idx += 1;
    }
    proof {
        assert forall|sub: u64| squares(sub).subset_of(slider_mask(rook, s)) implies 0
            <= #[trigger] magic_index(sub, magic, mask_bits(rook, s)) < row@.len() && row@[magic_index(
            sub,
            magic,
            mask_bits(rook, s),
        )]@ == slider_reach(rook, s, squares(sub)) by {
            lemma_extract(sub, mask.0);
            lemma_subset_and(sub, mask.0);
            let e = extract(sub, mask.0) as u64;
            assert(e < idx);
            assert(deposit(e, mask.0) == sub);
        }
    }
    Some(row)
}

/// The rows of a slider's table for all 64 squares, under the multipliers
/// `magics`. `None` when one of the multipliers does not suit its square.
fn calc_magic(rook: bool, magics: &[u64; 64]) -> (table: Option<Vec<Vec<BitBoard>>>)
    ensures
        table is Some <==> forall|s: int| 0 <= s < 64 ==> magic_fits(rook, s, #[trigger] magics[s]),
        table is Some ==> table->0@.len() == 64 && forall|s: int|
            0 <= s < 64 ==> row_holds(#[trigger] table->0@[s]@, rook, s, magics[s]),
{
    let mut res: Vec<Vec<BitBoard>> = Vec::new();
    let mut square: u64 = 0;
    while square < 64
        invariant
            square <= 64,
            res.len() == square,
            forall|s: int| 0 <= s < square ==> magic_fits(rook, s, #[trigger] magics[s]),
            forall|s: int| 0 <= s < square ==> row_holds(#[trigger] res@[s]@, rook, s, magics[s]),
        decreases 64 - square,
    {
        match fill_row(rook, square, magics[square as usize]) {
            Some(row) => {
                res.push(row);
            },
            None => {
                assert(!magic_fits(rook, square as int, magics[square as int]));
                return None;
            },
        }
        square += 1;
    }
    Some(res)
}

/// The bishop table under the multipliers `magics`; `None` when a multiplier
/// would send two occupancies with different reach to one slot.
pub fn calc_bishop_magic(magics: &[u64; 64]) -> (table: Option<Vec<Vec<BitBoard>>>)
    ensures
        table is Some <==> forall|s: int| 0 <= s < 64 ==> magic_fits(false, s, #[trigger] magics[s]),
        table is Some ==> table->0@.len() == 64 && forall|s: int|
            0 <= s < 64 ==> row_holds(#[trigger] table->0@[s]@, false, s, magics[s]),
{
    calc_magic(false, magics)
}

/// The rook table under the multipliers `magics`; `None` when a multiplier
/// would send two occupancies with different reach to one slot.
pub fn calc_rook_magic(magics: &[u64; 64]) -> (table: Option<Vec<Vec<BitBoard>>>)
    ensures
        table is Some <==> forall|s: int| 0 <= s < 64 ==> magic_fits(true, s, #[trigger] magics[s]),
        table is Some ==> table->0@.len() == 64 && forall|s: int|
            0 <= s < 64 ==> row_holds(#[trigger] table->0@[s]@, true, s, magics[s]),
{
    calc_magic(true, magics)
}

/// Mask and bit count of a slider, for each square.
pub open spec fn keys_hold(keys: Seq<(BitBoard, u32)>, rook: bool) -> bool {
    &&& keys.len() == 64
    &&& forall|s: int|
        0 <= s < 64 ==> (#[trigger] keys[s]).0@ == slider_mask(rook, s) && keys[s].1 == mask_bits(
            rook,
            s,
        ) && 1 <= keys[s].1 <= (if rook {
            12int
        } else {
            9int
        })
}

fn calc_keys(rook: bool) -> (res: Vec<(BitBoard, u32)>)
    ensures
        keys_hold(res@, rook),
{
    let mut res: Vec<(BitBoard, u32)> = Vec::new();
    let mut square: u64 = 0;
    while square < 64
        invariant
            square <= 64,
            res.len() == square,
            forall|s: int|
                0 <= s < square ==> (#[trigger] res@[s]).0@ == slider_mask(rook, s) && res@[s].1
                    == mask_bits(rook, s) && 1 <= res@[s].1 <= (if rook {
                    12int
                } else {
                    9int
                }),
        decreases 64 - square,
    {
        res.push(slider_key(rook, square));
        square += 1;
    }
    res
}

/// For each square, a bishop's mask and the number of its squares.
pub fn calc_bishop() -> (res: Vec<(BitBoard, u32)>)
    ensures
        keys_hold(res@, false),
{
    calc_keys(false)
}

/// For each square, a rook's mask and the number of its squares.
pub fn calc_rook() -> (res: Vec<(BitBoard, u32)>)
    ensures
        keys_hold(res@, true),
{
    calc_keys(true)
}

/// For each square, what a white and what a black pawn on it attacks.
pub fn calc_pawns() -> (res: Vec<[BitBoard; 2]>)
    ensures
        res@.len() == 64,
        forall|s: int|
            0 <= s < 64 ==> (#[trigger] res@[s])@[0]@ == pawn_reach(Color::White, s) && res@[s]@[1]@
                == pawn_reach(Color::Black, s),
{
    let mut res: Vec<[BitBoard; 2]> = Vec::new();
    let mut square: u64 = 0;
    while square < 64
        invariant
            square <= 64,
            res.len() == square,
            forall|s: int|
                0 <= s < square ==> (#[trigger] res@[s])@[0]@ == pawn_reach(Color::White, s)
                    && res@[s]@[1]@ == pawn_reach(Color::Black, s),
        decreases 64 - square,
    {
        res.push([pawn_attack(square, Color::White), pawn_attack(square, Color::Black)]);
        square += 1;
    }
    res
}

/// For each square, what a knight on it attacks.
pub fn calc_knight() -> (res: Vec<BitBoard>)
    ensures
        res@.len() == 64,
        forall|s: int| 0 <= s < 64 ==> (#[trigger] res@[s])@ == knight_reach(s),
{
    let mut res: Vec<BitBoard> = Vec::new();
    let mut square: u64 = 0;
    while square < 64
        invariant
            square <= 64,
            res.len() == square,
            forall|s: int| 0 <= s < square ==> (#[trigger] res@[s])@ == knight_reach(s),
        decreases 64 - square,
    {
        res.push(knight_attack(square));
        square += 1;
    }
    res
}

/// For each square, what a king on it attacks.
pub fn calc_king() -> (res: Vec<BitBoard>)
    ensures
        res@.len() == 64,
        forall|s: int| 0 <= s < 64 ==> (#[trigger] res@[s])@ == king_reach(s),
{
    let mut res: Vec<BitBoard> = Vec::new();
    let mut square: u64 = 0;
    while square < 64
        invariant
            square <= 64,
            res.len() == square,
            forall|s: int| 0 <= s < square ==> (#[trigger] res@[s])@ == king_reach(s),
        decreases 64 - square,
    {
        res.push(king_attack(square));
        square += 1;
    }
    res
}

/// The attack tables: built once, then only read.
#[derive(Debug, Clone)]
pub struct Precalc {
    /// Per square, a bishop's reach at the slot of each occupancy of its mask.
    pub bishop_magic: Vec<Vec<BitBoard>>,
    /// Per square, a rook's reach at the slot of each occupancy of its mask.
    pub rook_magic: Vec<Vec<BitBoard>>,
    /// Per square, a bishop's mask and the number of its squares.
    pub bishop: Vec<(BitBoard, u32)>,
    /// Per square, a rook's mask and the number of its squares.
    pub rook: Vec<(BitBoard, u32)>,
    /// Per square, the attacks of a white pawn and of a black pawn.
    pub pawns: Vec<[BitBoard; 2]>,
    pub knight: Vec<BitBoard>,
    pub king: Vec<BitBoard>,
    /// The multipliers the bishop table was filled under.
    pub bishop_multiplier: [u64; 64],
    /// The multipliers the rook table was filled under.
    pub rook_multiplier: [u64; 64],
}

impl Precalc {
    /// Every table holds, for every square, exactly what the piece reaches.
    pub open spec fn wf(&self) -> bool {
        &&& self.knight@.len() == 64
        &&& forall|s: int| 0 <= s < 64 ==> (#[trigger] self.knight@[s])@ == knight_reach(s)
        &&& self.king@.len() == 64
        &&& forall|s: int| 0 <= s < 64 ==> (#[trigger] self.king@[s])@ == king_reach(s)
        &&& self.pawns@.len() == 64
        &&& forall|s: int|
            0 <= s < 64 ==> (#[trigger] self.pawns@[s])@[0]@ == pawn_reach(Color::White, s)
                && self.pawns@[s]@[1]@ == pawn_reach(Color::Black, s)
        &&& keys_hold(self.bishop@, false)
        &&& keys_hold(self.rook@, true)
        &&& self.bishop_magic@.len() == 64
        &&& forall|s: int|
            0 <= s < 64 ==> row_holds(
                #[trigger] self.bishop_magic@[s]@,
                false,
                s,
                self.bishop_multiplier@[s],
            )
        &&& self.rook_magic@.len() == 64
        &&& forall|s: int|
            0 <= s < 64 ==> row_holds(
                #[trigger] self.rook_magic@[s]@,
                true,
                s,
                self.rook_multiplier@[s],
            )
    }

    /// Builds the tables under the given multipliers. Fails exactly when a
    /// multiplier does not suit its square, so a table that is handed out
    /// answers every lookup with the exact reach.
    pub fn with_magics(bishop_magics: &[u64; 64], rook_magics: &[u64; 64]) -> (pre: Option<Precalc>)
        ensures
            pre is Some <==> (forall|s: int|
                0 <= s < 64 ==> magic_fits(false, s, #[trigger] bishop_magics[s])) && (forall|
                s: int,
            | 0 <= s < 64 ==> magic_fits(true, s, #[trigger] rook_magics[s])),
            pre is Some ==> pre->0.wf() && pre->0.bishop_multiplier == *bishop_magics
                && pre->0.rook_multiplier == *rook_magics,
    {
        let bishop_magic = match calc_bishop_magic(bishop_magics) {
            Some(t) => t,
            None => {
                return None;
            },
        };
        let rook_magic = match calc_rook_magic(rook_magics) {
            Some(t) => t,
            None => {
                return None;
            },
        };
        Some(
            Precalc {
                bishop_magic,
                rook_magic,
                bishop: calc_bishop(),
                rook: calc_rook(),
                pawns: calc_pawns(),
                knight: calc_knight(),
                king: calc_king(),
                bishop_multiplier: *bishop_magics,
                rook_multiplier: *rook_magics,
            },
        )
    }

    /// Builds the tables under [`BISHOP_MAGIC`] and [`ROOK_MAGIC`].
    pub fn new() -> (pre: Option<Precalc>)
        ensures
            pre is Some <==> (forall|s: int|
                0 <= s < 64 ==> magic_fits(false, s, #[trigger] BISHOP_MAGIC[s])) && (forall|
                s: int,
            | 0 <= s < 64 ==> magic_fits(true, s, #[trigger] ROOK_MAGIC[s])),
            pre is Some ==> pre->0.wf(),
    {
        Precalc::with_magics(&BISHOP_MAGIC, &ROOK_MAGIC)
    }

    /// Looks up a slider's reach from `square` under the occupancy `occ`.
    fn slider_attack(&self, rook: bool, square: usize, occ: BitBoard) -> (attacks: BitBoard)
        requires
            self.wf(),
            square < 64,
        ensures
            attacks@ == slider_reach(rook, square as int, occ@),
    {
        let ghost s = square as int;
        let (mask, bits) = if rook {
            self.rook[square]
        } else {
            self.bishop[square]
        };
        let magic = if rook {
            self.rook_multiplier[square]
        } else {
            self.bishop_multiplier[square]
        };
        let relevant = occ.0 & mask.0;
        let slot = magic_slot(relevant, magic, bits);
        proof {
            lemma_bit_and(occ.0, mask.0);
            assert(squares(relevant) =~= occ@.intersect(slider_mask(rook, s)));
            if rook {
                lemma_rook_reach_relevant(s, occ@);
                assert(row_holds(self.rook_magic@[s]@, true, s, magic));
            } else {
                lemma_bishop_reach_relevant(s, occ@);
                assert(row_holds(self.bishop_magic@[s]@, false, s, magic));
            }
        }
        if rook {
            self.rook_magic[square][slot]
        } else {
            self.bishop_magic[square][slot]
        }
    }

    /// What a bishop on `square` attacks when the squares of `occ` are occupied.
    pub fn bishop_attack(&self, square: impl BitBoardIdx, occ: BitBoard) -> (attacks: BitBoard)
        requires
            self.wf(),
            square.representable(),
            0 <= square.index() < 64,
        ensures
            attacks@ == bishop_reach(square.index(), occ@),
    {
        self.slider_attack(false, square.idx_usize(), occ)
    }

    /// What a rook on `square` attacks when the squares of `occ` are occupied.
    pub fn rook_attack(&self, square: impl BitBoardIdx, occ: BitBoard) -> (attacks: BitBoard)
        requires
            self.wf(),
            square.representable(),
            0 <= square.index() < 64,
        ensures
            attacks@ == rook_reach(square.index(), occ@),
    {
        self.slider_attack(true, square.idx_usize(), occ)
    }

    /// What a queen on `square` attacks when the squares of `occ` are occupied.
    pub fn queen_attack(&self, square: impl BitBoardIdx, occ: BitBoard) -> (attacks: BitBoard)
        requires
            self.wf(),
            square.representable(),
            0 <= square.index() < 64,
        ensures
            attacks@ == queen_reach(square.index(), occ@),
    {
        let s = square.idx_usize();
        let b = self.slider_attack(false, s, occ);
        let r = self.slider_attack(true, s, occ);
        proof {
            lemma_bit_or(b.0, r.0);
        }
        BitBoard(b.0 | r.0)
    }
}

/// Every lookup in a well-formed table is exact: for each square and each
/// occupancy of its mask, the entry at the slot of the occupancy is the
/// reach that the rules of movement give for it, and no other.
pub proof fn lemma_lookup_exact(pre: Precalc, rook: bool, s: int, sub: u64)
    requires
        pre.wf(),
        0 <= s < 64,
        squares(sub).subset_of(slider_mask(rook, s)),
    ensures
        ({
            let row = if rook {
                pre.rook_magic@[s]@
            } else {
                pre.bishop_magic@[s]@
            };
            let magic = if rook {
                pre.rook_multiplier@[s]
            } else {
                pre.bishop_multiplier@[s]
            };
            let slot = magic_index(sub, magic, mask_bits(rook, s));
            0 <= slot < row.len() && row[slot]@ == slider_reach(rook, s, squares(sub))
        }),
{
    if rook {
        assert(row_holds(pre.rook_magic@[s]@, true, s, pre.rook_multiplier@[s]));
    } else {
        assert(row_holds(pre.bishop_magic@[s]@, false, s, pre.bishop_multiplier@[s]));
    }
}

/// The multipliers of a well-formed table suit their squares.
pub proof fn lemma_multipliers_fit(pre: Precalc, rook: bool, s: int)
    requires
        pre.wf(),
        0 <= s < 64,
    ensures
        magic_fits(
            rook,
            s,
            if rook {
                pre.rook_multiplier@[s]
            } else {
                pre.bishop_multiplier@[s]
            },
        ),
{
    let magic = if rook {
        pre.rook_multiplier@[s]
    } else {
        pre.bishop_multiplier@[s]
    };
    assert forall|a: u64, b: u64|
        #![trigger magic_index(a, magic, mask_bits(rook, s)), magic_index(b, magic, mask_bits(rook, s))]
        squares(a).subset_of(slider_mask(rook, s)) && squares(b).subset_of(slider_mask(rook, s))
            && magic_index(a, magic, mask_bits(rook, s)) == magic_index(
            b,
            magic,
            mask_bits(rook, s),
        ) implies slider_reach(rook, s, squares(a)) == slider_reach(rook, s, squares(b)) by {
        lemma_lookup_exact(pre, rook, s, a);
        lemma_lookup_exact(pre, rook, s, b);
    }
}

} // verus!
