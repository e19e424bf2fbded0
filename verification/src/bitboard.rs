//! A set of squares held in one 64-bit word.
use crate::bitboardindex::BitBoardIdx;
use crate::bits::{
    bit, lemma_bit_and_not, lemma_bit_or, lemma_bit_single, lemma_squares_equal, squares,
};
use vstd::prelude::*;

verus! {

/// A set of squares: bit `i` of the word is set when square `i` is a member.
#[derive(Debug, Clone, Copy, PartialEq, Eq, Structural)]
pub struct BitBoard(pub u64);

impl View for BitBoard {
    type V = Set<int>;

    /// The squares in the set, as numbers in `0..64`.
    open spec fn view(&self) -> Set<int> {
        squares(self.0)
    }
}

impl Default for BitBoard {
    fn default() -> (b: BitBoard)
        ensures
            b == BitBoard(0),
    {
        BitBoard(0)
    }
}

impl BitBoard {
    /// The set with square `i` added.
    pub open spec fn with(self, i: int) -> BitBoard {
        BitBoard(self.0 | (1u64 << (i as u64)))
    }

    /// The set with square `i` removed.
    pub open spec fn without(self, i: int) -> BitBoard {
        BitBoard(self.0 & !(1u64 << (i as u64)))
    }

    /// The union of two sets.
    pub open spec fn or(self, other: BitBoard) -> BitBoard {
        BitBoard(self.0 | other.0)
    }

    /// Adds a square to the set.
    pub fn set(&mut self, bit: impl BitBoardIdx)
        requires
            bit.representable(),
            0 <= bit.index() < 64,
        ensures
            *final(self) == old(self).with(bit.index()),
            final(self)@ == old(self)@.insert(bit.index()),
    {
        let i = bit.idx();
        proof {
            lemma_with(*self, i as int);
        }
        self.0 |= 1u64 << i;
    }

    /// Whether a square is in the set.
    pub fn get(&self, bit: impl BitBoardIdx) -> (r: bool)
        requires
            bit.representable(),
            0 <= bit.index() < 64,
        ensures
            r == self@.contains(bit.index()),
    {
        let i = bit.idx();
        (self.0 >> i) & 1 == 1
    }

    /// Removes a square from the set.
    pub fn clear(&mut self, bit: impl BitBoardIdx)
        requires
            bit.representable(),
            0 <= bit.index() < 64,
        ensures
            *final(self) == old(self).without(bit.index()),
            final(self)@ == old(self)@.remove(bit.index()),
    {
        let i = bit.idx();
        proof {
            lemma_without(*self, i as int);
        }
        self.0 &= !(1u64 << i);
    }
}

/// Adding a square to a bitboard adds it to the set it stands for.
pub proof fn lemma_with(b: BitBoard, i: int)
    requires
        0 <= i < 64,
    ensures
        b.with(i)@ == b@.insert(i),
{
    lemma_bit_or(b.0, 1u64 << (i as u64));
    lemma_bit_single(i as u64);
    assert(b.with(i)@ =~= b@.insert(i));
}

/// Removing a square from a bitboard removes it from the set it stands for.
pub proof fn lemma_without(b: BitBoard, i: int)
    requires
        0 <= i < 64,
    ensures
        b.without(i)@ == b@.remove(i),
{
    lemma_bit_and_not(b.0, 1u64 << (i as u64));
    lemma_bit_single(i as u64);
    assert(b.without(i)@ =~= b@.remove(i));
}

/// A bitboard is determined by the set it stands for.
pub proof fn lemma_view_injective(a: BitBoard, b: BitBoard)
    requires
        a@ == b@,
    ensures
        a == b,
{
    lemma_squares_equal(a.0, b.0);
}

/// The squares of the a-file; `FILE_B` to `FILE_H` are those of the other files.
pub const FILE_A: u64 = 0x0101010101010101;

pub const FILE_B: u64 = 0x0202020202020202;

pub const FILE_C: u64 = 0x0404040404040404;

pub const FILE_D: u64 = 0x0808080808080808;

pub const FILE_E: u64 = 0x1010101010101010;

pub const FILE_F: u64 = 0x2020202020202020;

pub const FILE_G: u64 = 0x4040404040404040;

pub const FILE_H: u64 = 0x8080808080808080;

/// The squares of the first rank; `RANK_2` to `RANK_8` are those of the other ranks.
pub const RANK_1: u64 = 0x00000000000000FF;

pub const RANK_2: u64 = 0x000000000000FF00;

pub const RANK_3: u64 = 0x0000000000FF0000;

pub const RANK_4: u64 = 0x00000000FF000000;

pub const RANK_5: u64 = 0x000000FF00000000;

pub const RANK_6: u64 = 0x0000FF0000000000;

pub const RANK_7: u64 = 0x00FF000000000000;

pub const RANK_8: u64 = 0xFF00000000000000;

/// The squares of the a-file and the b-file.
pub const FILE_AB: u64 = 0x0303030303030303;

/// The squares of the g-file and the h-file.
pub const FILE_GH: u64 = 0xC0C0C0C0C0C0C0C0;

/// The squares of the first two ranks.
pub const RANK_12: u64 = 0x000000000000FFFF;

/// The squares of the last two ranks.
pub const RANK_78: u64 = 0xFFFF000000000000;

/// Whether a single-square word `1 << s` misses a file or rank mask, in terms
/// of the file `s % 8` and the rank `s / 8` of the square.
pub proof fn lemma_square_off_masks(s: u64)
    requires
        s < 64,
    ensures
        ((1u64 << s) & FILE_A == 0) == (s % 8 != 0),
        ((1u64 << s) & FILE_H == 0) == (s % 8 != 7),
        ((1u64 << s) & FILE_AB == 0) == (s % 8 >= 2),
        ((1u64 << s) & FILE_GH == 0) == (s % 8 <= 5),
        ((1u64 << s) & RANK_1 == 0) == (s / 8 != 0),
        ((1u64 << s) & RANK_8 == 0) == (s / 8 != 7),
        ((1u64 << s) & RANK_12 == 0) == (s / 8 >= 2),
        ((1u64 << s) & RANK_78 == 0) == (s / 8 <= 5),
{
    assert(((1u64 << s) & 0x0101010101010101 == 0) == (s % 8 != 0) && ((1u64 << s)
        & 0x8080808080808080 == 0) == (s % 8 != 7) && ((1u64 << s) & 0x0303030303030303 == 0) == (s
        % 8 >= 2) && ((1u64 << s) & 0xC0C0C0C0C0C0C0C0 == 0) == (s % 8 <= 5) && ((1u64 << s)
        & 0x00000000000000FF == 0) == (s / 8 != 0) && ((1u64 << s) & 0xFF00000000000000 == 0) == (s
        / 8 != 7) && ((1u64 << s) & 0x000000000000FFFF == 0) == (s / 8 >= 2) && ((1u64 << s)
        & 0xFFFF000000000000 == 0) == (s / 8 <= 5)) by (bit_vector)
        requires
            s < 64,
    ;
}

/// The third and the sixth rank as sets of squares.
pub proof fn lemma_rank_3_and_6()
    ensures
        forall|i: int| #[trigger] bit(RANK_3, i) == (16 <= i < 24),
        forall|i: int| #[trigger] bit(RANK_6, i) == (40 <= i < 48),
{
    assert forall|i: int| #[trigger] bit(RANK_3, i) == (16 <= i < 24) by {
        if 0 <= i < 64 {
            let j = i as u64;
            assert(((0x0000000000FF0000u64 >> j) & 1 == 1) == (16 <= j && j < 24)) by (bit_vector)
                requires
                    j < 64,
            ;
        }
    }
    assert forall|i: int| #[trigger] bit(RANK_6, i) == (40 <= i < 48) by {
        if 0 <= i < 64 {
            let j = i as u64;
            assert(((0x0000FF0000000000u64 >> j) & 1 == 1) == (40 <= j && j < 48)) by (bit_vector)
                requires
                    j < 64,
            ;
        }
    }
}

/// Union.
impl core::ops::BitOr for BitBoard {
    type Output = BitBoard;

    fn bitor(self, rhs: BitBoard) -> (r: BitBoard) {
        BitBoard(self.0 | rhs.0)
    }
}

impl vstd::std_specs::ops::BitOrSpecImpl for BitBoard {
    open spec fn obeys_bitor_spec() -> bool {
        true
    }

    open spec fn bitor_req(self, rhs: BitBoard) -> bool {
        true
    }

    open spec fn bitor_spec(self, rhs: BitBoard) -> BitBoard {
        BitBoard(self.0 | rhs.0)
    }
}

impl core::ops::BitOr<u64> for BitBoard {
    type Output = BitBoard;

    fn bitor(self, rhs: u64) -> (r: BitBoard) {
        BitBoard(self.0 | rhs)
    }
}

impl vstd::std_specs::ops::BitOrSpecImpl<u64> for BitBoard {
    open spec fn obeys_bitor_spec() -> bool {
        true
    }

    open spec fn bitor_req(self, rhs: u64) -> bool {
        true
    }

    open spec fn bitor_spec(self, rhs: u64) -> BitBoard {
        BitBoard(self.0 | rhs)
    }
}

impl core::ops::BitOrAssign for BitBoard {
    fn bitor_assign(&mut self, rhs: BitBoard)
        ensures
            final(self).0 == old(self).0 | rhs.0,
    {
        self.0 |= rhs.0;
    }
}

impl core::ops::BitOrAssign<u64> for BitBoard {
    fn bitor_assign(&mut self, rhs: u64)
        ensures
            final(self).0 == old(self).0 | rhs,
    {
        self.0 |= rhs;
    }
}

/// The set moved up by `rhs` squares; squares pushed past the last are lost.
impl core::ops::Shl<u64> for BitBoard {
    type Output = BitBoard;

    fn shl(self, rhs: u64) -> (r: BitBoard) {
        BitBoard(self.0 << rhs)
    }
}

impl vstd::std_specs::ops::ShlSpecImpl<u64> for BitBoard {
    open spec fn obeys_shl_spec() -> bool {
        true
    }

    open spec fn shl_req(self, rhs: u64) -> bool {
        rhs < 64
    }

    open spec fn shl_spec(self, rhs: u64) -> BitBoard {
        BitBoard(self.0 << rhs)
    }
}

/// The set moved down by `rhs` squares; squares pushed below the first are lost.
impl core::ops::Shr<u64> for BitBoard {
    type Output = BitBoard;

    fn shr(self, rhs: u64) -> (r: BitBoard) {
        BitBoard(self.0 >> rhs)
    }
}

impl vstd::std_specs::ops::ShrSpecImpl<u64> for BitBoard {
    open spec fn obeys_shr_spec() -> bool {
        true
    }

    open spec fn shr_req(self, rhs: u64) -> bool {
        rhs < 64
    }

    open spec fn shr_spec(self, rhs: u64) -> BitBoard {
        BitBoard(self.0 >> rhs)
    }
}

/// Intersection.
impl core::ops::BitAnd for BitBoard {
    type Output = BitBoard;

    fn bitand(self, rhs: BitBoard) -> (r: BitBoard) {
        BitBoard(self.0 & rhs.0)
    }
}

impl vstd::std_specs::ops::BitAndSpecImpl for BitBoard {
    open spec fn obeys_bitand_spec() -> bool {
        true
    }

    open spec fn bitand_req(self, rhs: BitBoard) -> bool {
        true
    }

    open spec fn bitand_spec(self, rhs: BitBoard) -> BitBoard {
        BitBoard(self.0 & rhs.0)
    }
}

impl core::ops::BitAnd<u64> for BitBoard {
    type Output = BitBoard;

    fn bitand(self, rhs: u64) -> (r: BitBoard) {
        BitBoard(self.0 & rhs)
    }
}

impl vstd::std_specs::ops::BitAndSpecImpl<u64> for BitBoard {
    open spec fn obeys_bitand_spec() -> bool {
        true
    }

    open spec fn bitand_req(self, rhs: u64) -> bool {
        true
    }

    open spec fn bitand_spec(self, rhs: u64) -> BitBoard {
        BitBoard(self.0 & rhs)
    }
}

impl core::ops::BitAndAssign for BitBoard {
    fn bitand_assign(&mut self, rhs: BitBoard)
        ensures
            final(self).0 == old(self).0 & rhs.0,
    {
        self.0 &= rhs.0;
    }
}

impl core::ops::BitAndAssign<u64> for BitBoard {
    fn bitand_assign(&mut self, rhs: u64)
        ensures
            final(self).0 == old(self).0 & rhs,
    {
        self.0 &= rhs;
    }
}

/// Difference of the two words as numbers. `b - 1` clears the lowest square
/// of `b` and sets all below it.
impl core::ops::Sub for BitBoard {
    type Output = BitBoard;

    fn sub(self, rhs: BitBoard) -> (r: BitBoard) {
        BitBoard(self.0 - rhs.0)
    }
}

impl vstd::std_specs::ops::SubSpecImpl for BitBoard {
    open spec fn obeys_sub_spec() -> bool {
        true
    }

    open spec fn sub_req(self, rhs: BitBoard) -> bool {
        self.0 >= rhs.0
    }

    open spec fn sub_spec(self, rhs: BitBoard) -> BitBoard {
        BitBoard((self.0 - rhs.0) as u64)
    }
}

impl core::ops::Sub<u64> for BitBoard {
    type Output = BitBoard;

    fn sub(self, rhs: u64) -> (r: BitBoard) {
        BitBoard(self.0 - rhs)
    }
}

impl vstd::std_specs::ops::SubSpecImpl<u64> for BitBoard {
    open spec fn obeys_sub_spec() -> bool {
        true
    }

    open spec fn sub_req(self, rhs: u64) -> bool {
        self.0 >= rhs
    }

    open spec fn sub_spec(self, rhs: u64) -> BitBoard {
        BitBoard((self.0 - rhs) as u64)
    }
}

/// Complement.
impl core::ops::Not for BitBoard {
    type Output = BitBoard;

    fn not(self) -> (r: BitBoard) {
        BitBoard(!self.0)
    }
}

impl vstd::std_specs::ops::NotSpecImpl for BitBoard {
    open spec fn obeys_not_spec() -> bool {
        true
    }

    open spec fn not_req(self) -> bool {
        true
    }

    open spec fn not_spec(self) -> BitBoard {
        BitBoard(!self.0)
    }
}

/// The negative of the word as a number, wrapping: `b & -b` is the lowest
/// square of `b`.
impl core::ops::Neg for BitBoard {
    type Output = BitBoard;

    fn neg(self) -> (r: BitBoard) {
        BitBoard(0u64.wrapping_sub(self.0))
    }
}

impl vstd::std_specs::ops::NegSpecImpl for BitBoard {
    open spec fn obeys_neg_spec() -> bool {
        true
    }

    open spec fn neg_req(self) -> bool {
        true
    }

    open spec fn neg_spec(self) -> BitBoard {
        BitBoard(0u64.wrapping_sub(self.0))
    }
}

/// A bitboard equals a word when it holds that word.
impl PartialEq<u64> for BitBoard {
    fn eq(&self, other: &u64) -> (r: bool) {
        self.0 == *other
    }
}

impl vstd::std_specs::cmp::PartialEqSpecImpl<u64> for BitBoard {
    open spec fn obeys_eq_spec() -> bool {
        true
    }

    open spec fn eq_spec(&self, other: &u64) -> bool {
        self.0 == *other
    }
}

} // verus!
