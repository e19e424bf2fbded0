//! Piece kinds, colours and pieces.
use vstd::prelude::*;
use vstd::string::*;

verus! {

/// The six kinds of piece. The knight goes by the name of horse.
#[derive(PartialEq, Eq, Structural, Clone, Copy, Debug)]
pub enum PieceKind {
    Pawn,
    Horse,
    Bishop,
    Rook,
    Queen,
    King,
}

impl PieceKind {
    /// The lower-case letter that stands for the kind in move notation.
    pub open spec fn letter_text(self) -> Seq<char> {
        match self {
            PieceKind::Pawn => seq!['p'],
            PieceKind::Horse => seq!['n'],
            PieceKind::Bishop => seq!['b'],
            PieceKind::Rook => seq!['r'],
            PieceKind::Queen => seq!['q'],
            PieceKind::King => seq!['k'],
        }
    }

    /// The lower-case letter that stands for the kind in move notation.
    pub fn letter(&self) -> (r: &'static str)
        ensures
            r@ == self.letter_text(),
    {
        proof {
            reveal_strlit("p");
            reveal_strlit("n");
            reveal_strlit("b");
            reveal_strlit("r");
            reveal_strlit("q");
            reveal_strlit("k");
        }
        let r = match self {
            PieceKind::Pawn => "p",
            PieceKind::Horse => "n",
            PieceKind::Bishop => "b",
            PieceKind::Rook => "r",
            PieceKind::Queen => "q",
            PieceKind::King => "k",
        };
        assert(r@ =~= self.letter_text());
        r
    }
}

/// The two sides.
#[derive(PartialEq, Eq, Structural, Clone, Copy, Debug)]
pub enum Color {
    White,
    Black,
}

impl Default for Color {
    fn default() -> (c: Color)
        ensures
            c == Color::White,
    {
        Color::White
    }
}

impl Color {
    /// The other side.
    pub open spec fn other(self) -> Color {
        match self {
            Color::White => Color::Black,
            Color::Black => Color::White,
        }
    }

    /// The other side.
    pub fn opposite(&self) -> (c: Color)
        ensures
            c == self.other(),
    {
        match self {
            Color::White => Color::Black,
            Color::Black => Color::White,
        }
    }
}

/// The other side.
pub fn opposite_color(color: Color) -> (c: Color)
    ensures
        c == color.other(),
{
    color.opposite()
}

/// A piece: its kind and its side.
#[derive(PartialEq, Eq, Structural, Clone, Copy, Debug)]
pub struct Piece {
    pub kind: PieceKind,
    pub color: Color,
}

impl Piece {
    /// A piece of the given kind and side.
    pub fn new(kind: PieceKind, color: Color) -> (p: Piece)
        ensures
            p == (Piece { kind, color }),
    {
        Piece { kind, color }
    }
}

} // verus!
