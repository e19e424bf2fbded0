//! Squares, moves, bitboards and positions as text.
//!
//! A square is written as its file letter and rank digit, a move as its two
//! squares followed by the letter of the piece a pawn promotes to. Bitboards
//! and positions are drawn as a grid with the eighth rank on top.
use crate::bitboard::BitBoard;
use crate::board::{
    Board, BLACK_KING_SIDE, BLACK_QUEEN_SIDE, WHITE_KING_SIDE, WHITE_QUEEN_SIDE,
};
use crate::movegen::{Move, SpecialMove};
use crate::piece::{Color, Piece, PieceKind};
use crate::square::Square;
use vstd::prelude::*;
use vstd::string::*;

verus! {

/// The letter of a file, `a` to `h`, in upper case for `upper`.
pub open spec fn file_text(file: int, upper: bool) -> Seq<char> {
    if upper {
        if file == 0 {
            "A"@
        } else if file == 1 {
            "B"@
        } else if file == 2 {
            "C"@
        } else if file == 3 {
            "D"@
        } else if file == 4 {
            "E"@
        } else if file == 5 {
            "F"@
        } else if file == 6 {
            "G"@
        } else {
            "H"@
        }
    } else {
        if file == 0 {
            "a"@
        } else if file == 1 {
            "b"@
        } else if file == 2 {
            "c"@
        } else if file == 3 {
            "d"@
        } else if file == 4 {
            "e"@
        } else if file == 5 {
            "f"@
        } else if file == 6 {
            "g"@
        } else {
            "h"@
        }
    }
}

/// The digit of a rank, `1` to `8`, for the ranks numbered from 0.
pub open spec fn rank_text(rank: int) -> Seq<char> {
    if rank == 0 {
        "1"@
    } else if rank == 1 {
        "2"@
    } else if rank == 2 {
        "3"@
    } else if rank == 3 {
        "4"@
    } else if rank == 4 {
        "5"@
    } else if rank == 5 {
        "6"@
    } else if rank == 6 {
        "7"@
    } else {
        "8"@
    }
}

fn file_str(file: u64, upper: bool) -> (s: &'static str)
    ensures
        s@ == file_text(file as int, upper),
{
    if upper {
        if file == 0 {
            "A"
        } else if file == 1 {
            "B"
        } else if file == 2 {
            "C"
        } else if file == 3 {
            "D"
        } else if file == 4 {
            "E"
        } else if file == 5 {
            "F"
        } else if file == 6 {
            "G"
        } else {
            "H"
        }
    } else {
        if file == 0 {
            "a"
        } else if file == 1 {
            "b"
        } else if file == 2 {
            "c"
        } else if file == 3 {
            "d"
        } else if file == 4 {
            "e"
        } else if file == 5 {
            "f"
        } else if file == 6 {
            "g"
        } else {
            "h"
        }
    }
}

fn rank_str(rank: u64) -> (s: &'static str)
    ensures
        s@ == rank_text(rank as int),
{
    if rank == 0 {
        "1"
    } else if rank == 1 {
        "2"
    } else if rank == 2 {
        "3"
    } else if rank == 3 {
        "4"
    } else if rank == 4 {
        "5"
    } else if rank == 5 {
        "6"
    } else if rank == 6 {
        "7"
    } else {
        "8"
    }
}

impl Square {
    /// The square in algebraic notation, such as `e4`.
    pub open spec fn text(self) -> Seq<char> {
        file_text(self.index() % 8, false) + rank_text(self.index() / 8)
    }

    /// The name of the square in upper case, such as `E4`.
    pub open spec fn name(self) -> Seq<char> {
        file_text(self.index() % 8, true) + rank_text(self.index() / 8)
    }

    /// The square in algebraic notation, such as `e4`.
    pub fn to_text(self) -> (s: String)
        ensures
            s@ == self.text(),
    {
        let mut s = String::from_str(file_str(self.file(), false));
        s.append(rank_str(self.rank()));
        s
    }
}

impl Move {
    /// The move in coordinate notation: the square left, the square reached,
    /// and for a promotion the letter of the new piece, as in `e7e8q`.
    pub open spec fn text(self) -> Seq<char> {
        self.from.text() + self.to.text() + (match self.special {
            Some(SpecialMove::Promotion(kind)) => kind.letter_text(),
            _ => Seq::empty(),
        })
    }

    /// The move in coordinate notation.
    pub fn to_text(&self) -> (s: String)
        ensures
            s@ == self.text(),
    {
        let mut s = self.from.to_text();
        let to = self.to.to_text();
        s.append(to.as_str());
        if let Some(SpecialMove::Promotion(p)) = self.special {
            s.append(p.letter());
        } else {
            assert(s@ + Seq::<char>::empty() =~= s@);
        }
        s
    }
}

/// The line of file letters under a grid.
pub open spec fn files_line() -> Seq<char> {
    "\n     a b c d e f g h\n"@
}

/// The beginning of the `row`-th line of a grid, counted from the top: the
/// number of its rank between spaces.
pub open spec fn row_label(row: int) -> Seq<char> {
    "  "@ + rank_text(7 - row) + "  "@
}

impl BitBoard {
    /// How one square of the set is drawn.
    pub open spec fn cell_text(self, idx: int) -> Seq<char> {
        if self@.contains(idx) {
            "1 "@
        } else {
            ". "@
        }
    }

    /// The first `n` squares of the `row`-th line of the grid.
    pub open spec fn cells_text(self, row: int, n: int) -> Seq<char>
        decreases n,
    {
        if n <= 0 {
            Seq::empty()
        } else {
            self.cells_text(row, n - 1) + self.cell_text((7 - row) * 8 + n - 1)
        }
    }

    /// The first `n` lines of the grid.
    pub open spec fn rows_text(self, n: int) -> Seq<char>
        decreases n,
    {
        if n <= 0 {
            Seq::empty()
        } else {
            self.rows_text(n - 1) + row_label(n - 1) + self.cells_text(n - 1, 8) + "\n"@
        }
    }

    /// The set drawn as a grid of eight lines, the eighth rank first, a
    /// member as `1` and any other square as `.`, with the file letters below.
    pub open spec fn text(self) -> Seq<char> {
        self.rows_text(8) + files_line()
    }

    /// The set drawn as a grid.
    pub fn to_text(&self) -> (s: String)
        ensures
            s@ == self.text(),
    {
        let mut s = String::new();
        let mut i: u64 = 0;
        while i < 8
            invariant
                i <= 8,
                s@ == self.rows_text(i as int),
            decreases 8 - i,
        {
            s.append("  ");
            s.append(rank_str(7 - i));
            s.append("  ");
            let ghost label = s@;
            let mut j: u64 = 0;
            while j < 8
                invariant
                    i < 8,
                    j <= 8,
                    s@ == label + self.cells_text(i as int, j as int),
                decreases 8 - j,
            {
                let idx = (7 - i) * 8 + j;
                if self.get(idx) {
                    s.append("1 ");
                } else {
                    s.append(". ");
                }
                j += 1;
                assert(s@ =~= label + self.cells_text(i as int, j as int));
            }
            s.append("\n");
            i += 1;
            assert(s@ =~= self.rows_text(i as int));
        }
        s.append("\n     a b c d e f g h\n");
        s
    }
}

/// The figure of a piece.
pub open spec fn piece_text(piece: Piece) -> Seq<char> {
    match piece.color {
        Color::White => match piece.kind {
            PieceKind::Pawn => "\u{2659} "@,
            PieceKind::Horse => "\u{2658} "@,
            PieceKind::Bishop => "\u{2657} "@,
            PieceKind::Rook => "\u{2656} "@,
            PieceKind::Queen => "\u{2655} "@,
            PieceKind::King => "\u{2654} "@,
        },
        Color::Black => match piece.kind {
            PieceKind::Pawn => "\u{265F} "@,
            PieceKind::Horse => "\u{265E} "@,
            PieceKind::Bishop => "\u{265D} "@,
            PieceKind::Rook => "\u{265C} "@,
            PieceKind::Queen => "\u{265B} "@,
            PieceKind::King => "\u{265A} "@,
        },
    }
}

fn piece_str(piece: Piece) -> (s: &'static str)
    ensures
        s@ == piece_text(piece),
{
    match piece.color {
        Color::White => match piece.kind {
            PieceKind::Pawn => "\u{2659} ",
            PieceKind::Horse => "\u{2658} ",
            PieceKind::Bishop => "\u{2657} ",
            PieceKind::Rook => "\u{2656} ",
            PieceKind::Queen => "\u{2655} ",
            PieceKind::King => "\u{2654} ",
        },
        Color::Black => match piece.kind {
            PieceKind::Pawn => "\u{265F} ",
            PieceKind::Horse => "\u{265E} ",
            PieceKind::Bishop => "\u{265D} ",
            PieceKind::Rook => "\u{265C} ",
            PieceKind::Queen => "\u{265B} ",
            PieceKind::King => "\u{265A} ",
        },
    }
}

impl Board {
    /// How one square of the board is drawn: the figure of its piece, or a dot.
    pub open spec fn cell_text(self, idx: int) -> Seq<char> {
        match self.piece_at(idx) {
            Some(piece) => piece_text(piece),
            None => ". "@,
        }
    }

    /// The first `n` squares of the `row`-th line of the grid.
    pub open spec fn cells_text(self, row: int, n: int) -> Seq<char>
        decreases n,
    {
        if n <= 0 {
            Seq::empty()
        } else {
            self.cells_text(row, n - 1) + self.cell_text((7 - row) * 8 + n - 1)
        }
    }

    /// The first `n` lines of the grid.
    pub open spec fn rows_text(self, n: int) -> Seq<char>
        decreases n,
    {
        if n <= 0 {
            Seq::empty()
        } else {
            self.rows_text(n - 1) + row_label(n - 1) + self.cells_text(n - 1, 8) + "\n"@
        }
    }

    /// The line that names the side to move.
    pub open spec fn side_text(self) -> Seq<char> {
        "  Side to move: "@ + (match self.side_to_move {
            Color::White => "White"@,
            Color::Black => "Black"@,
        }) + "\n"@
    }

    /// The line that names the en-passant square.
    pub open spec fn en_passant_text(self) -> Seq<char> {
        "  En passant: "@ + (match self.en_passant {
            Some(sq) => "Some("@ + sq.name() + ")"@,
            None => "None"@,
        }) + "\n"@
    }

    /// The letter of a castling right that is held, a dash for one that is not.
    pub open spec fn right_text(self, right: u8, letter: Seq<char>) -> Seq<char> {
        if self.can_castle & right != 0 {
            letter
        } else {
            "-"@
        }
    }

    /// The line that lists the castling rights.
    pub open spec fn rights_text(self) -> Seq<char> {
        "  Can castle: "@ + self.right_text(WHITE_KING_SIDE, "K"@) + self.right_text(
            WHITE_QUEEN_SIDE,
            "Q"@,
        ) + self.right_text(BLACK_KING_SIDE, "k"@) + self.right_text(BLACK_QUEEN_SIDE, "q"@)
            + "\n"@
    }

    /// The position drawn as a grid of eight lines, the eighth rank first,
    /// with the file letters below, followed by the side to move, the
    /// en-passant square and the castling rights, a line each.
    pub open spec fn text(self) -> Seq<char> {
        self.rows_text(8) + files_line() + self.side_text() + self.en_passant_text()
            + self.rights_text()
    }

    /// Appends the grid to `s`.
    fn append_grid(&self, s: &mut String)
        ensures
            final(s)@ == old(s)@ + self.rows_text(8),
    {
        let ghost start = s@;
        let mut i: u64 = 0;
        assert(s@ =~= start + self.rows_text(0));
        while i < 8
            invariant
                i <= 8,
                s@ == start + self.rows_text(i as int),
            decreases 8 - i,
        {
            s.append("  ");
            s.append(rank_str(7 - i));
            s.append("  ");
            let ghost label = s@;
            let mut j: u64 = 0;
            assert(s@ =~= label + self.cells_text(i as int, 0));
            while j < 8
                invariant
                    i < 8,
                    j <= 8,
                    s@ == label + self.cells_text(i as int, j as int),
                decreases 8 - j,
            {
                let idx = (7 - i) * 8 + j;
                if self.get(idx) {
                    match self.piece(idx) {
                        Some(piece) => s.append(piece_str(piece)),
                        None => {},
                    }
                } else {
                    s.append(". ");
                }
                j += 1;
                assert(s@ =~= label + self.cells_text(i as int, j as int));
            }
            s.append("\n");
            i += 1;
            assert(s@ =~= start + self.rows_text(i as int));
        }
    }

    /// Appends the letter of a castling right, or a dash.
    fn append_right(&self, s: &mut String, right: u8, letter: &str)
        ensures
            final(s)@ == old(s)@ + self.right_text(right, letter@),
    {
        if self.can_castle & right != 0 {
            s.append(letter);
        } else {
            s.append("-");
        }
    }

    /// Appends the line that names the side to move.
    fn append_side(&self, s: &mut String)
        ensures
            final(s)@ == old(s)@ + self.side_text(),
    {
        let ghost start = s@;
        s.append("  Side to move: ");
        match self.side_to_move {
            Color::White => s.append("White"),
            Color::Black => s.append("Black"),
        }
        s.append("\n");
        assert(s@ =~= start + self.side_text());
    }

    /// Appends the line that names the en-passant square.
    fn append_en_passant(&self, s: &mut String)
        ensures
            final(s)@ == old(s)@ + self.en_passant_text(),
    {
        let ghost start = s@;
        s.append("  En passant: ");
        match self.en_passant {
            Some(sq) => {
                s.append("Some(");
                s.append(file_str(sq.file(), true));
                s.append(rank_str(sq.rank()));
                s.append(")");
            },
            None => s.append("None"),
        }
        s.append("\n");
        assert(s@ =~= start + self.en_passant_text());
    }

    /// Appends the line that lists the castling rights.
    fn append_rights(&self, s: &mut String)
        ensures
            final(s)@ == old(s)@ + self.rights_text(),
    {
        let ghost start = s@;
        s.append("  Can castle: ");
        self.append_right(s, WHITE_KING_SIDE, "K");
        self.append_right(s, WHITE_QUEEN_SIDE, "Q");
        self.append_right(s, BLACK_KING_SIDE, "k");
        self.append_right(s, BLACK_QUEEN_SIDE, "q");
        s.append("\n");
        assert(s@ =~= start + self.rights_text());
    }

    /// The position drawn as text.
    pub fn to_text(&self) -> (s: String)
        ensures
            s@ == self.text(),
    {
        let mut s = String::new();
        self.append_grid(&mut s);
        s.append("\n     a b c d e f g h\n");
        self.append_side(&mut s);
        self.append_en_passant(&mut s);
        self.append_rights(&mut s);
        assert(s@ =~= self.text());
        s
    }
}

} // verus!
