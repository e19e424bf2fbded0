//! The 64 squares of the board.
use crate::bitboardindex::BitBoardIdx;
use vstd::prelude::*;

verus! {

/// A square, numbered rank by rank from A1 = 0 to H8 = 63.
#[derive(Debug, Clone, Copy, PartialEq, Eq, Structural)]
pub enum Square {
    A1, B1, C1, D1, E1, F1, G1, H1,
    A2, B2, C2, D2, E2, F2, G2, H2,
    A3, B3, C3, D3, E3, F3, G3, H3,
    A4, B4, C4, D4, E4, F4, G4, H4,
    A5, B5, C5, D5, E5, F5, G5, H5,
    A6, B6, C6, D6, E6, F6, G6, H6,
    A7, B7, C7, D7, E7, F7, G7, H7,
    A8, B8, C8, D8, E8, F8, G8, H8,
}

impl Square {
    /// The square's number: `rank * 8 + file`.
    pub open spec fn index(self) -> int {
        self as u64 as int
    }

    /// The square with number `i`; H8 for a number outside `0..64`.
    pub open spec fn at(i: int) -> Square {
        if i == 0 {
            Square::A1
        } else if i == 1 {
            Square::B1
        } else if i == 2 {
            Square::C1
        } else if i == 3 {
            Square::D1
        } else if i == 4 {
            Square::E1
        } else if i == 5 {
            Square::F1
        } else if i == 6 {
            Square::G1
        } else if i == 7 {
            Square::H1
        } else if i == 8 {
            Square::A2
        } else if i == 9 {
            Square::B2
        } else if i == 10 {
            Square::C2
        } else if i == 11 {
            Square::D2
        } else if i == 12 {
            Square::E2
        } else if i == 13 {
            Square::F2
        } else if i == 14 {
            Square::G2
        } else if i == 15 {
            Square::H2
        } else if i == 16 {
            Square::A3
        } else if i == 17 {
            Square::B3
        } else if i == 18 {
            Square::C3
        } else if i == 19 {
            Square::D3
        } else if i == 20 {
            Square::E3
        } else if i == 21 {
            Square::F3
        } else if i == 22 {
            Square::G3
        } else if i == 23 {
            Square::H3
        } else if i == 24 {
            Square::A4
        } else if i == 25 {
            Square::B4
        } else if i == 26 {
            Square::C4
        } else if i == 27 {
            Square::D4
        } else if i == 28 {
            Square::E4
        } else if i == 29 {
            Square::F4
        } else if i == 30 {
            Square::G4
        } else if i == 31 {
            Square::H4
        } else if i == 32 {
            Square::A5
        } else if i == 33 {
            Square::B5
        } else if i == 34 {
            Square::C5
        } else if i == 35 {
            Square::D5
        } else if i == 36 {
            Square::E5
        } else if i == 37 {
            Square::F5
        } else if i == 38 {
            Square::G5
        } else if i == 39 {
            Square::H5
        } else if i == 40 {
            Square::A6
        } else if i == 41 {
            Square::B6
        } else if i == 42 {
            Square::C6
        } else if i == 43 {
            Square::D6
        } else if i == 44 {
            Square::E6
        } else if i == 45 {
            Square::F6
        } else if i == 46 {
            Square::G6
        } else if i == 47 {
            Square::H6
        } else if i == 48 {
            Square::A7
        } else if i == 49 {
            Square::B7
        } else if i == 50 {
            Square::C7
        } else if i == 51 {
            Square::D7
        } else if i == 52 {
            Square::E7
        } else if i == 53 {
            Square::F7
        } else if i == 54 {
            Square::G7
        } else if i == 55 {
            Square::H7
        } else if i == 56 {
            Square::A8
        } else if i == 57 {
            Square::B8
        } else if i == 58 {
            Square::C8
        } else if i == 59 {
            Square::D8
        } else if i == 60 {
            Square::E8
        } else if i == 61 {
            Square::F8
        } else if i == 62 {
            Square::G8
        } else {
            Square::H8
        }
    }

    /// File of the square, 0 for the a-file to 7 for the h-file.
    pub fn file(self) -> (r: u64)
        ensures
            r == self.index() % 8,
            r < 8,
    {
        self as u64 % 8
    }

    /// Rank of the square, 0 for the first rank to 7 for the eighth.
    pub fn rank(self) -> (r: u64)
        ensures
            r == self.index() / 8,
            r < 8,
    {
        self as u64 / 8
    }

    /// The square with the given number.
    pub fn from_index(value: u64) -> (s: Square)
        requires
            value < 64,
        ensures
            s == Square::at(value as int),
            s.index() == value,
    {
        match value {
            0 => Square::A1,
            1 => Square::B1,
            2 => Square::C1,
            3 => Square::D1,
            4 => Square::E1,
            5 => Square::F1,
            6 => Square::G1,
            7 => Square::H1,
            8 => Square::A2,
            9 => Square::B2,
            10 => Square::C2,
            11 => Square::D2,
            12 => Square::E2,
            13 => Square::F2,
            14 => Square::G2,
            15 => Square::H2,
            16 => Square::A3,
            17 => Square::B3,
            18 => Square::C3,
            19 => Square::D3,
            20 => Square::E3,
            21 => Square::F3,
            22 => Square::G3,
            23 => Square::H3,
            24 => Square::A4,
            25 => Square::B4,
            26 => Square::C4,
            27 => Square::D4,
            28 => Square::E4,
            29 => Square::F4,
            30 => Square::G4,
            31 => Square::H4,
            32 => Square::A5,
            33 => Square::B5,
            34 => Square::C5,
            35 => Square::D5,
            36 => Square::E5,
            37 => Square::F5,
            38 => Square::G5,
            39 => Square::H5,
            40 => Square::A6,
            41 => Square::B6,
            42 => Square::C6,
            43 => Square::D6,
            44 => Square::E6,
            45 => Square::F6,
            46 => Square::G6,
            47 => Square::H6,
            48 => Square::A7,
            49 => Square::B7,
            50 => Square::C7,
            51 => Square::D7,
            52 => Square::E7,
            53 => Square::F7,
            54 => Square::G7,
            55 => Square::H7,
            56 => Square::A8,
            57 => Square::B8,
            58 => Square::C8,
            59 => Square::D8,
            60 => Square::E8,
            61 => Square::F8,
            62 => Square::G8,
            _ => Square::H8,
        }
    }

    /// The square with the given number, or `None` when there is none.
    pub fn try_from_index(value: u64) -> (s: Option<Square>)
        ensures
            s == (if value < 64 {
                Some(Square::at(value as int))
            } else {
                None
            }),
    {
        if value < 64 {
            Some(Square::from_index(value))
        } else {
            None
        }
    }
}

impl BitBoardIdx for Square {
    open spec fn index(self) -> int {
        self as u64 as int
    }

    open spec fn representable(self) -> bool {
        true
    }

    fn idx(self) -> (r: u64) {
        self as u64
    }
}

/// The square with the given number.
pub fn square_from_num(value: u32) -> (s: Square)
    requires
        value < 64,
    ensures
        s == Square::at(value as int),
{
    Square::from_index(value as u64)
}

/// The number of a square.
pub fn square_to_num(s: Square) -> (n: u32)
    ensures
        n == s.index(),
        n < 64,
{
    s as u32
}

/// A square's file and rank give back its number.
pub proof fn lemma_file_rank_round_trip(s: Square)
    ensures
        0 <= s.index() < 64,
        s.index() % 8 + 8 * (s.index() / 8) == s.index(),
{
}

/// `at` and `index` are inverse to each other on `0..64`.
pub proof fn lemma_square_at_index()
    ensures
        forall|i: int| 0 <= i < 64 ==> (#[trigger] Square::at(i)).index() == i,
        forall|s: Square| #[trigger] Square::at(s.index()) == s,
        forall|s: Square| 0 <= #[trigger] s.index() < 64,
{
}

} // verus!
