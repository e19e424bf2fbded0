//! The position: where the pieces stand, whose turn it is, and what remains
//! of the castling and en-passant rights.
use crate::bitboard::BitBoard;
use crate::bits::{bit, lemma_and_nonzero, lemma_bit_or, lemma_lowest, lowest, squares};
use crate::movegen::geometry::{
    bishop_reach, king_reach, knight_reach, pawn_reach, queen_reach, rook_reach,
};
use crate::movegen::precalc::Precalc;
use crate::movegen::{attacks_square, legal, legal_moves, square_attacked, Move, SpecialMove};
use crate::piece::{Color, Piece, PieceKind};
use crate::square::Square;
use vstd::prelude::*;

verus! {

/// The starting position as FEN text.
pub const DEFAULT_FEN: &'static str = "rnbqkbnr/pppppppp/8/8/8/8/PPPPPPPP/RNBQKBNR w KQkq - 0 1";

/// Castling right of White on the king's side, as a bit of `can_castle`.
pub const WHITE_KING_SIDE: u8 = 0b0001;

/// Castling right of White on the queen's side.
pub const WHITE_QUEEN_SIDE: u8 = 0b0010;

/// Castling right of Black on the king's side.
pub const BLACK_KING_SIDE: u8 = 0b0100;

/// Castling right of Black on the queen's side.
pub const BLACK_QUEEN_SIDE: u8 = 0b1000;

/// How the game stands.
#[derive(Debug, Clone, Copy, PartialEq, Eq, Structural)]
pub enum GameState {
    InProgress,
    Checkmate,
    Stalemate,
    Draw,
}

impl Default for GameState {
    fn default() -> (s: GameState)
        ensures
            s == GameState::InProgress,
    {
        GameState::InProgress
    }
}

/// One of the four castling rights.
#[derive(Debug, Clone, Copy, PartialEq, Eq, Structural)]
pub enum Castle {
    WhiteKing,
    WhiteQueen,
    BlackKing,
    BlackQueen,
}

impl Castle {
    /// The bit of `can_castle` that stands for the right.
    pub open spec fn mask(self) -> u8 {
        match self {
            Castle::WhiteKing => WHITE_KING_SIDE,
            Castle::WhiteQueen => WHITE_QUEEN_SIDE,
            Castle::BlackKing => BLACK_KING_SIDE,
            Castle::BlackQueen => BLACK_QUEEN_SIDE,
        }
    }

    /// The bit of `can_castle` that stands for the right.
    pub fn bit(self) -> (b: u8)
        ensures
            b == self.mask(),
    {
        match self {
            Castle::WhiteKing => WHITE_KING_SIDE,
            Castle::WhiteQueen => WHITE_QUEEN_SIDE,
            Castle::BlackKing => BLACK_KING_SIDE,
            Castle::BlackQueen => BLACK_QUEEN_SIDE,
        }
    }
}

/// A position.
#[derive(Debug, Clone, Copy, PartialEq, Eq, Structural)]
pub struct Board {
    pub w_pawn: BitBoard,
    pub w_knight: BitBoard,
    pub w_bishop: BitBoard,
    pub w_rook: BitBoard,
    pub w_queen: BitBoard,
    pub w_king: BitBoard,
    pub b_pawn: BitBoard,
    pub b_knight: BitBoard,
    pub b_bishop: BitBoard,
    pub b_rook: BitBoard,
    pub b_queen: BitBoard,
    pub b_king: BitBoard,
    /// All white pieces.
    pub w_occ: BitBoard,
    /// All black pieces.
    pub b_occ: BitBoard,
    /// All pieces.
    pub occ: BitBoard,
    pub side_to_move: Color,
    /// The square a pawn has just passed over in a double push.
    pub en_passant: Option<Square>,
    /// The castling rights still held, one bit each.
    pub can_castle: u8,
    pub game_state: GameState,
}

impl Default for Board {
    /// The empty board, White to move, no rights.
    fn default() -> (b: Board)
        ensures
            b == Board::empty(),
    {
        Board {
            w_pawn: BitBoard(0),
            w_knight: BitBoard(0),
            w_bishop: BitBoard(0),
            w_rook: BitBoard(0),
            w_queen: BitBoard(0),
            w_king: BitBoard(0),
            b_pawn: BitBoard(0),
            b_knight: BitBoard(0),
            b_bishop: BitBoard(0),
            b_rook: BitBoard(0),
            b_queen: BitBoard(0),
            b_king: BitBoard(0),
            w_occ: BitBoard(0),
            b_occ: BitBoard(0),
            occ: BitBoard(0),
            side_to_move: Color::White,
            en_passant: None,
            can_castle: 0,
            game_state: GameState::InProgress,
        }
    }
}

impl Board {
    /// The board without pieces, White to move, no rights.
    pub open spec fn empty() -> Board {
        Board {
            w_pawn: BitBoard(0),
            w_knight: BitBoard(0),
            w_bishop: BitBoard(0),
            w_rook: BitBoard(0),
            w_queen: BitBoard(0),
            w_king: BitBoard(0),
            b_pawn: BitBoard(0),
            b_knight: BitBoard(0),
            b_bishop: BitBoard(0),
            b_rook: BitBoard(0),
            b_queen: BitBoard(0),
            b_king: BitBoard(0),
            w_occ: BitBoard(0),
            b_occ: BitBoard(0),
            occ: BitBoard(0),
            side_to_move: Color::White,
            en_passant: None,
            can_castle: 0,
            game_state: GameState::InProgress,
        }
    }

    /// The bitboard of a piece.
    pub open spec fn bitboard(self, piece: Piece) -> BitBoard {
        match piece.color {
            Color::White => match piece.kind {
                PieceKind::Pawn => self.w_pawn,
                PieceKind::Horse => self.w_knight,
                PieceKind::Bishop => self.w_bishop,
                PieceKind::Rook => self.w_rook,
                PieceKind::Queen => self.w_queen,
                PieceKind::King => self.w_king,
            },
            Color::Black => match piece.kind {
                PieceKind::Pawn => self.b_pawn,
                PieceKind::Horse => self.b_knight,
                PieceKind::Bishop => self.b_bishop,
                PieceKind::Rook => self.b_rook,
                PieceKind::Queen => self.b_queen,
                PieceKind::King => self.b_king,
            },
        }
    }

    /// The board with the bitboard of one piece replaced.
    pub open spec fn with_bitboard(self, piece: Piece, bb: BitBoard) -> Board {
        match piece.color {
            Color::White => match piece.kind {
                PieceKind::Pawn => Board { w_pawn: bb, ..self },
                PieceKind::Horse => Board { w_knight: bb, ..self },
                PieceKind::Bishop => Board { w_bishop: bb, ..self },
                PieceKind::Rook => Board { w_rook: bb, ..self },
                PieceKind::Queen => Board { w_queen: bb, ..self },
                PieceKind::King => Board { w_king: bb, ..self },
            },
            Color::Black => match piece.kind {
                PieceKind::Pawn => Board { b_pawn: bb, ..self },
                PieceKind::Horse => Board { b_knight: bb, ..self },
                PieceKind::Bishop => Board { b_bishop: bb, ..self },
                PieceKind::Rook => Board { b_rook: bb, ..self },
                PieceKind::Queen => Board { b_queen: bb, ..self },
                PieceKind::King => Board { b_king: bb, ..self },
            },
        }
    }

    /// The squares that hold the given kind of piece of the given colour.
    pub open spec fn squares_of(self, kind: PieceKind, color: Color) -> Set<int> {
        self.bitboard(Piece { kind, color })@
    }

    /// The stored occupancy of a colour.
    pub open spec fn occupancy(self, color: Color) -> BitBoard {
        match color {
            Color::White => self.w_occ,
            Color::Black => self.b_occ,
        }
    }

    /// The union of the six piece bitboards of a colour.
    pub open spec fn union_of(self, color: Color) -> BitBoard {
        match color {
            Color::White => self.w_pawn.or(self.w_knight).or(self.w_bishop).or(self.w_rook).or(
                self.w_queen,
            ).or(self.w_king),
            Color::Black => self.b_pawn.or(self.b_knight).or(self.b_bishop).or(self.b_rook).or(
                self.b_queen,
            ).or(self.b_king),
        }
    }

    /// The board with its three occupancy fields recomputed from the twelve
    /// piece bitboards.
    pub open spec fn with_occupancy(self) -> Board {
        Board {
            w_occ: self.union_of(Color::White),
            b_occ: self.union_of(Color::Black),
            occ: self.union_of(Color::White).or(self.union_of(Color::Black)),
            ..self
        }
    }

    /// The occupancy fields are what the piece bitboards add up to.
    pub open spec fn occupancy_consistent(self) -> bool {
        self == self.with_occupancy()
    }

    /// No square holds two pieces.
    pub open spec fn pieces_disjoint(self) -> bool {
        forall|p: Piece, q: Piece| p != q ==> self.bitboard(p)@.disjoint(self.bitboard(q)@)
    }

    /// The invariant of a position: consistent occupancy, at most one piece
    /// on a square, and an en-passant square, if any, that is empty.
    pub open spec fn wf(self) -> bool {
        &&& self.occupancy_consistent()
        &&& self.pieces_disjoint()
        &&& self.en_passant matches Some(ep) ==> !self.occ@.contains(ep.index())
    }

    /// Whether any piece stands on square `i`.
    pub open spec fn occupied(self, i: int) -> bool {
        exists|p: Piece| self.bitboard(p)@.contains(i)
    }

    /// The piece on square `i`: of the pieces there the first in the order
    /// pawn, knight, bishop, rook, queen, king, white before black.
    pub open spec fn piece_at(self, i: int) -> Option<Piece> {
        if self.w_pawn@.contains(i) {
            Some(Piece { kind: PieceKind::Pawn, color: Color::White })
        } else if self.w_knight@.contains(i) {
            Some(Piece { kind: PieceKind::Horse, color: Color::White })
        } else if self.w_bishop@.contains(i) {
            Some(Piece { kind: PieceKind::Bishop, color: Color::White })
        } else if self.w_rook@.contains(i) {
            Some(Piece { kind: PieceKind::Rook, color: Color::White })
        } else if self.w_queen@.contains(i) {
            Some(Piece { kind: PieceKind::Queen, color: Color::White })
        } else if self.w_king@.contains(i) {
            Some(Piece { kind: PieceKind::King, color: Color::White })
        } else if self.b_pawn@.contains(i) {
            Some(Piece { kind: PieceKind::Pawn, color: Color::Black })
        } else if self.b_knight@.contains(i) {
            Some(Piece { kind: PieceKind::Horse, color: Color::Black })
        } else if self.b_bishop@.contains(i) {
            Some(Piece { kind: PieceKind::Bishop, color: Color::Black })
        } else if self.b_rook@.contains(i) {
            Some(Piece { kind: PieceKind::Rook, color: Color::Black })
        } else if self.b_queen@.contains(i) {
            Some(Piece { kind: PieceKind::Queen, color: Color::Black })
        } else if self.b_king@.contains(i) {
            Some(Piece { kind: PieceKind::King, color: Color::Black })
        } else {
            None
        }
    }

    /// Whether any piece stands on square `idx`.
    pub fn get(&self, idx: u64) -> (r: bool)
        requires
            idx < 64,
        ensures
            r == self.occupied(idx as int),
            r == self.piece_at(idx as int).is_some(),
    {
        let r = self.w_pawn.get(idx) || self.w_knight.get(idx) || self.w_bishop.get(idx)
            || self.w_rook.get(idx) || self.w_queen.get(idx) || self.w_king.get(idx)
            || self.b_pawn.get(idx) || self.b_knight.get(idx) || self.b_bishop.get(idx)
            || self.b_rook.get(idx) || self.b_queen.get(idx) || self.b_king.get(idx);
        proof {
            if r {
                let p = self.piece_at(idx as int).unwrap();
                assert(self.bitboard(p)@.contains(idx as int));
            } else {
                assert forall|p: Piece| !self.bitboard(p)@.contains(idx as int) by {}
            }
        }
        r
    }

    /// The piece on square `idx`, if there is one.
    pub fn piece(&self, idx: u64) -> (r: Option<Piece>)
        requires
            idx < 64,
        ensures
            r == self.piece_at(idx as int),
    {
        if self.w_pawn.get(idx) {
            return Some(Piece::new(PieceKind::Pawn, Color::White));
        }
        if self.w_knight.get(idx) {
            return Some(Piece::new(PieceKind::Horse, Color::White));
        }
        if self.w_bishop.get(idx) {
            return Some(Piece::new(PieceKind::Bishop, Color::White));
        }
        if self.w_rook.get(idx) {
            return Some(Piece::new(PieceKind::Rook, Color::White));
        }
        if self.w_queen.get(idx) {
            return Some(Piece::new(PieceKind::Queen, Color::White));
        }
        if self.w_king.get(idx) {
            return Some(Piece::new(PieceKind::King, Color::White));
        }
        if self.b_pawn.get(idx) {
            return Some(Piece::new(PieceKind::Pawn, Color::Black));
        }
        if self.b_knight.get(idx) {
            return Some(Piece::new(PieceKind::Horse, Color::Black));
        }
        if self.b_bishop.get(idx) {
            return Some(Piece::new(PieceKind::Bishop, Color::Black));
        }
        if self.b_rook.get(idx) {
            return Some(Piece::new(PieceKind::Rook, Color::Black));
        }
        if self.b_queen.get(idx) {
            return Some(Piece::new(PieceKind::Queen, Color::Black));
        }
        if self.b_king.get(idx) {
            return Some(Piece::new(PieceKind::King, Color::Black));
        }
        None
    }

    /// The occupied squares with their pieces, in ascending order of square.
    pub fn pieces(&self) -> (list: Vec<(usize, Piece)>)
        ensures
            list@ == self.piece_list(64),
    {
        let mut pieces: Vec<(usize, Piece)> = Vec::new();
        let mut i: usize = 0;
        while i < 64
            invariant
                i <= 64,
                pieces@ == self.piece_list(i as int),
            decreases 64 - i,
        {
            if let Some(p) = self.piece(i as u64) {
                pieces.push((i, p));
            }
            i += 1;
        }
        pieces
    }

    /// The occupied squares below `n` with their pieces, in ascending order.
    pub open spec fn piece_list(self, n: int) -> Seq<(usize, Piece)>
        decreases n,
    {
        if n <= 0 {
            Seq::empty()
        } else {
            match self.piece_at(n - 1) {
                Some(p) => self.piece_list(n - 1).push(((n - 1) as usize, p)),
                None => self.piece_list(n - 1),
            }
        }
    }

    /// Recomputes the three occupancy fields from the piece bitboards.
    pub fn update_occ(&mut self)
        ensures
            *final(self) == old(self).with_occupancy(),
    {
        self.w_occ = BitBoard(
            self.w_pawn.0 | self.w_knight.0 | self.w_bishop.0 | self.w_rook.0 | self.w_queen.0
                | self.w_king.0,
        );
        self.b_occ = BitBoard(
            self.b_pawn.0 | self.b_knight.0 | self.b_bishop.0 | self.b_rook.0 | self.b_queen.0
                | self.b_king.0,
        );
        self.occ = BitBoard(self.w_occ.0 | self.b_occ.0);
    }
}

/// Recomputing the occupancy of a position a second time changes nothing.
pub proof fn lemma_occupancy_rebuild_idempotent(b: Board)
    ensures
        b.with_occupancy().with_occupancy() == b.with_occupancy(),
        b.with_occupancy().occupancy_consistent(),
{
}

impl Board {
    /// Whether `color` has a king on the board.
    pub open spec fn has_king(self, color: Color) -> bool {
        self.bitboard(Piece { kind: PieceKind::King, color }).0 != 0
    }

    /// The square of the king of `color`: the lowest one, should there be several.
    pub open spec fn king_square(self, color: Color) -> int {
        lowest(self.bitboard(Piece { kind: PieceKind::King, color }).0)
    }

    /// Whether the king of `color` is attacked.
    pub open spec fn in_check(self, color: Color) -> bool {
        attacks_square(self, self.king_square(color), color.other())
    }

    /// The kind of the piece of `color` that a capture on `to` removes: of
    /// those standing there the first in the order pawn, knight, bishop, rook,
    /// queen, king.
    pub open spec fn victim(self, color: Color, to: int) -> Option<PieceKind> {
        if self.squares_of(PieceKind::Pawn, color).contains(to) {
            Some(PieceKind::Pawn)
        } else if self.squares_of(PieceKind::Horse, color).contains(to) {
            Some(PieceKind::Horse)
        } else if self.squares_of(PieceKind::Bishop, color).contains(to) {
            Some(PieceKind::Bishop)
        } else if self.squares_of(PieceKind::Rook, color).contains(to) {
            Some(PieceKind::Rook)
        } else if self.squares_of(PieceKind::Queen, color).contains(to) {
            Some(PieceKind::Queen)
        } else if self.squares_of(PieceKind::King, color).contains(to) {
            Some(PieceKind::King)
        } else {
            None
        }
    }

    /// The board with one piece taken off a square.
    pub open spec fn lifted(self, piece: Piece, sq: int) -> Board {
        self.with_bitboard(piece, self.bitboard(piece).without(sq))
    }

    /// The board with one piece put on a square.
    pub open spec fn placed(self, piece: Piece, sq: int) -> Board {
        self.with_bitboard(piece, self.bitboard(piece).with(sq))
    }

    /// The board without the given castling rights.
    pub open spec fn revoked(self, rights: u8) -> Board {
        Board { can_castle: self.can_castle & !rights, ..self }
    }

    /// The castling right that goes when a rook of `color` leaves, or is taken
    /// on, the square `sq`: none unless `sq` is a home corner of that colour.
    pub open spec fn corner_right(color: Color, sq: Square) -> u8 {
        match color {
            Color::White => if sq == Square::H1 {
                WHITE_KING_SIDE
            } else if sq == Square::A1 {
                WHITE_QUEEN_SIDE
            } else {
                0
            },
            Color::Black => if sq == Square::H8 {
                BLACK_KING_SIDE
            } else if sq == Square::A8 {
                BLACK_QUEEN_SIDE
            } else {
                0
            },
        }
    }

    /// The square behind `to` as seen by the side to move: where a pawn that
    /// has just made a double push to `to` has passed, and where the pawn
    /// stands that a capture en passant to `to` takes.
    pub open spec fn behind(self, to: Square) -> int {
        match self.side_to_move {
            Color::White => to.index() - 8,
            Color::Black => to.index() + 8,
        }
    }

    /// First step of a move: the piece leaves `from` and stands on `to`, and
    /// the en-passant square is forgotten.
    pub open spec fn step_shift(self, m: Move) -> Board {
        let b = self.lifted(m.piece, m.from.index()).placed(m.piece, m.to.index());
        Board { en_passant: None, ..b }
    }

    /// Second step: a capturing move takes the opponent's piece off `to`; a
    /// rook taken on its home corner takes its castling right with it.
    pub open spec fn step_capture(self, m: Move) -> Board {
        let opponent = self.side_to_move.other();
        if !m.capture {
            self
        } else {
            match self.victim(opponent, m.to.index()) {
                Some(kind) => {
                    let b = self.lifted(Piece { kind, color: opponent }, m.to.index());
                    if kind == PieceKind::Rook {
                        b.revoked(Self::corner_right(opponent, m.to))
                    } else {
                        b
                    }
                },
                None => self,
            }
        }
    }

    /// Third step: what the special kind of the move adds.
    pub open spec fn step_special(self, m: Move) -> Board {
        let mover = self.side_to_move;
        match m.special {
            Some(SpecialMove::DoublePawnPush) => Board {
                en_passant: Some(Square::at(self.behind(m.to))),
                ..self
            },
            Some(SpecialMove::EnPassant) => self.lifted(
                Piece { kind: PieceKind::Pawn, color: mover.other() },
                self.behind(m.to),
            ),
            Some(SpecialMove::Promotion(kind)) => self.lifted(
                Piece { kind: PieceKind::Pawn, color: mover },
                m.to.index(),
            ).placed(Piece { kind, color: mover }, m.to.index()),
            Some(SpecialMove::Castle) => {
                let rook = Piece {
                    kind: PieceKind::Rook,
                    color: if m.to == Square::G1 || m.to == Square::C1 {
                        Color::White
                    } else {
                        Color::Black
                    },
                };
                let (corner, beside) = if m.to == Square::G1 {
                    (Square::H1, Square::F1)
                } else if m.to == Square::C1 {
                    (Square::A1, Square::D1)
                } else if m.to == Square::G8 {
                    (Square::H8, Square::F8)
                } else {
                    (Square::A8, Square::D8)
                };
                self.lifted(rook, corner.index()).placed(rook, beside.index())
            },
            None => self,
        }
    }

    /// Fourth step: a king's move costs the side to move both castling
    /// rights, a rook's move from a home corner the right of that corner.
    pub open spec fn step_rights(self, m: Move) -> Board {
        let mover = self.side_to_move;
        match m.piece.kind {
            PieceKind::King => self.revoked(
                match mover {
                    Color::White => WHITE_QUEEN_SIDE | WHITE_KING_SIDE,
                    Color::Black => BLACK_QUEEN_SIDE | BLACK_KING_SIDE,
                },
            ),
            PieceKind::Rook => self.revoked(Self::corner_right(mover, m.from)),
            _ => self,
        }
    }

    /// The position after the pieces have moved, before the turn passes.
    #[verifier::opaque]
    pub open spec fn moved(self, m: Move) -> Board {
        self.step_shift(m).step_capture(m).step_special(m).step_rights(m).with_occupancy()
    }

    /// Whether the move leaves the mover's own king out of check.
    pub open spec fn keeps_king_safe(self, m: Move) -> bool {
        !self.moved(m).in_check(self.side_to_move)
    }

    /// The position that `make_move` leaves: the turn passes only when the
    /// mover's king is not left in check.
    pub open spec fn after_move(self, m: Move) -> Board {
        let b = self.moved(m);
        if self.keeps_king_safe(m) {
            Board { side_to_move: self.side_to_move.other(), ..b }
        } else {
            b
        }
    }

    /// What a move must meet to be applied: a promotion names a piece a pawn
    /// can become, a castling move goes to one of the four castling squares,
    /// a double push or a capture en passant has a square behind it, and the
    /// mover has a king once the pieces have moved.
    pub open spec fn playable(self, m: Move) -> bool {
        &&& m.special matches Some(SpecialMove::Promotion(kind)) ==> kind != PieceKind::Pawn
            && kind != PieceKind::King
        &&& m.special == Some(SpecialMove::Castle) ==> m.to == Square::G1 || m.to == Square::C1
            || m.to == Square::G8 || m.to == Square::C8
        &&& m.special == Some(SpecialMove::DoublePawnPush) || m.special == Some(
            SpecialMove::EnPassant,
        ) ==> 0 <= self.behind(m.to) < 64
        &&& self.moved(m).has_king(self.side_to_move)
    }

    /// The bitboard of a piece, for reading and writing.
    pub(crate) fn board(&mut self, piece: Piece) -> (bb: &mut BitBoard)
        ensures
            *bb == old(self).bitboard(piece),
            *final(self) == old(self).with_bitboard(piece, *final(bb)),
    {
        match piece.color {
            Color::White => match piece.kind {
                PieceKind::Pawn => &mut self.w_pawn,
                PieceKind::Horse => &mut self.w_knight,
                PieceKind::Bishop => &mut self.w_bishop,
                PieceKind::Rook => &mut self.w_rook,
                PieceKind::Queen => &mut self.w_queen,
                PieceKind::King => &mut self.w_king,
            },
            Color::Black => match piece.kind {
                PieceKind::Pawn => &mut self.b_pawn,
                PieceKind::Horse => &mut self.b_knight,
                PieceKind::Bishop => &mut self.b_bishop,
                PieceKind::Rook => &mut self.b_rook,
                PieceKind::Queen => &mut self.b_queen,
                PieceKind::King => &mut self.b_king,
            },
        }
    }

    /// The six bitboards of a colour: pawn, knight, bishop, rook, queen, king.
    fn boards_color(&self, color: Color) -> (boards: [BitBoard; 6])
        ensures
            boards@ == seq![
                self.bitboard(Piece { kind: PieceKind::Pawn, color }),
                self.bitboard(Piece { kind: PieceKind::Horse, color }),
                self.bitboard(Piece { kind: PieceKind::Bishop, color }),
                self.bitboard(Piece { kind: PieceKind::Rook, color }),
                self.bitboard(Piece { kind: PieceKind::Queen, color }),
                self.bitboard(Piece { kind: PieceKind::King, color }),
            ],
    {
        let boards = match color {
            Color::White => [
                self.w_pawn,
                self.w_knight,
                self.w_bishop,
                self.w_rook,
                self.w_queen,
                self.w_king,
            ],
            Color::Black => [
                self.b_pawn,
                self.b_knight,
                self.b_bishop,
                self.b_rook,
                self.b_queen,
                self.b_king,
            ],
        };
        assert(boards@ =~= seq![
            self.bitboard(Piece { kind: PieceKind::Pawn, color }),
            self.bitboard(Piece { kind: PieceKind::Horse, color }),
            self.bitboard(Piece { kind: PieceKind::Bishop, color }),
            self.bitboard(Piece { kind: PieceKind::Rook, color }),
            self.bitboard(Piece { kind: PieceKind::Queen, color }),
            self.bitboard(Piece { kind: PieceKind::King, color }),
        ]);
        boards
    }

    /// Computes [`Board::victim`].
    fn find_victim(&self, color: Color, to: Square) -> (kind: Option<PieceKind>)
        ensures
            kind == self.victim(color, to.index()),
    {
        let boards = self.boards_color(color);
        if boards[0].get(to) {
            Some(PieceKind::Pawn)
        } else if boards[1].get(to) {
            Some(PieceKind::Horse)
        } else if boards[2].get(to) {
            Some(PieceKind::Bishop)
        } else if boards[3].get(to) {
            Some(PieceKind::Rook)
        } else if boards[4].get(to) {
            Some(PieceKind::Queen)
        } else if boards[5].get(to) {
            Some(PieceKind::King)
        } else {
            None
        }
    }

    /// Computes [`Board::corner_right`].
    fn corner_right_of(color: Color, sq: Square) -> (right: u8)
        ensures
            right == Self::corner_right(color, sq),
    {
        match color {
            Color::White => if sq == Square::H1 {
                WHITE_KING_SIDE
            } else if sq == Square::A1 {
                WHITE_QUEEN_SIDE
            } else {
                0
            },
            Color::Black => if sq == Square::H8 {
                BLACK_KING_SIDE
            } else if sq == Square::A8 {
                BLACK_QUEEN_SIDE
            } else {
                0
            },
        }
    }

    /// Whether the king of `color` is attacked.
    pub fn king_attacked(&self, color: Color, pre: &Precalc) -> (r: bool)
        requires
            pre.wf(),
            self.has_king(color),
        ensures
            r == self.in_check(color),
    {
        let king_board = self.boards_color(color)[5];
        proof {
            lemma_lowest(king_board.0);
        }
        let king = king_board.0.trailing_zeros() as u64;
        square_attacked(self, king, color.opposite(), pre)
    }

    /// Carries out [`Board::step_shift`].
    fn shift_piece(&mut self, m: Move)
        ensures
            *final(self) == old(self).step_shift(m),
    {
        let bb = self.board(m.piece);
        bb.clear(m.from);
        bb.set(m.to);
        self.en_passant = None;
    }

    /// Carries out [`Board::step_capture`].
    fn take_victim(&mut self, m: Move)
        ensures
            *final(self) == old(self).step_capture(m),
    {
        let opponent = self.side_to_move.opposite();
        if m.capture {
            if let Some(kind) = self.find_victim(opponent, m.to) {
                self.board(Piece::new(kind, opponent)).clear(m.to);
                if kind == PieceKind::Rook {
                    self.can_castle &= !Self::corner_right_of(opponent, m.to);
                }
            }
        }
    }

    /// Carries out [`Board::step_special`].
    fn apply_special(&mut self, m: Move)
        requires
            m.special == Some(SpecialMove::DoublePawnPush) || m.special == Some(
                SpecialMove::EnPassant,
            ) ==> 0 <= old(self).behind(m.to) < 64,
            m.special == Some(SpecialMove::Castle) ==> m.to == Square::G1 || m.to == Square::C1
                || m.to == Square::G8 || m.to == Square::C8,
        ensures
            *final(self) == old(self).step_special(m),
    {
        let mover = self.side_to_move;
        match m.special {
            Some(SpecialMove::DoublePawnPush) => {
                self.en_passant = Some(
                    if mover == Color::White {
                        Square::from_index(m.to as u64 - 8)
                    } else {
                        Square::from_index(m.to as u64 + 8)
                    },
                )
            },
            Some(SpecialMove::EnPassant) => {
                if mover == Color::White {
                    self.b_pawn.clear(m.to as u64 - 8)
                } else {
                    self.w_pawn.clear(m.to as u64 + 8)
                }
            },
            Some(SpecialMove::Promotion(p)) => {
                self.board(Piece::new(PieceKind::Pawn, mover)).clear(m.to);
                self.board(Piece::new(p, mover)).set(m.to);
            },
            Some(SpecialMove::Castle) => match m.to {
                Square::G1 => {
                    self.w_rook.clear(Square::H1);
                    self.w_rook.set(Square::F1);
                },
                Square::C1 => {
                    self.w_rook.clear(Square::A1);
                    self.w_rook.set(Square::D1);
                },
                Square::G8 => {
                    self.b_rook.clear(Square::H8);
                    self.b_rook.set(Square::F8);
                },
                _ => {
                    self.b_rook.clear(Square::A8);
                    self.b_rook.set(Square::D8);
                },
            },
            None => (),
        }
    }

    /// Carries out [`Board::step_rights`].
    fn drop_rights(&mut self, m: Move)
        ensures
            *final(self) == old(self).step_rights(m),
    {
        let mover = self.side_to_move;
        if m.piece.kind == PieceKind::King {
            match mover {
                Color::White => { self.can_castle &= !(WHITE_QUEEN_SIDE | WHITE_KING_SIDE) },
                Color::Black => { self.can_castle &= !(BLACK_QUEEN_SIDE | BLACK_KING_SIDE) },
            }
        }
        if m.piece.kind == PieceKind::Rook {
            self.can_castle &= !Self::corner_right_of(mover, m.from);
        }
    }

    /// Whether `color` has a king on the board.
    pub fn king_present(&self, color: Color) -> (r: bool)
        ensures
            r == self.has_king(color),
    {
        match color {
            Color::White => self.w_king.0 != 0,
            Color::Black => self.b_king.0 != 0,
        }
    }

    /// Whether the move can be applied to the position.
    pub fn can_play(&self, m: Move) -> (r: bool)
        ensures
            r == self.playable(m),
    {
        proof {
            reveal(Board::moved);
        }
        if let Some(SpecialMove::Promotion(kind)) = m.special {
            if kind == PieceKind::Pawn || kind == PieceKind::King {
                return false;
            }
        }
        if let Some(SpecialMove::Castle) = m.special {
            if !(m.to == Square::G1 || m.to == Square::C1 || m.to == Square::G8 || m.to
                == Square::C8) {
                return false;
            }
        }
        let needs_square_behind = match m.special {
            Some(SpecialMove::DoublePawnPush) => true,
            Some(SpecialMove::EnPassant) => true,
            _ => false,
        };
        if needs_square_behind {
            let behind_on_board = match self.side_to_move {
                Color::White => m.to as u64 >= 8,
                Color::Black => (m.to as u64) < 56,
            };
            if !behind_on_board {
                return false;
            }
        }
        let mut after = *self;
        after.shift_piece(m);
        after.take_victim(m);
        after.apply_special(m);
        after.drop_rights(m);
        after.update_occ();
        after.king_present(self.side_to_move)
    }

    /// Applies a move that is pseudo-legal for the side to move. Returns
    /// whether the mover's king is safe afterwards; only then has the turn
    /// passed. The pieces have moved in either case, so that after a
    /// failure the position is of no further use.
    ///
    /// Every move that `generate_moves` gives can be applied when the side
    /// to move has a king: see `lemma_pseudo_legal_playable`. For any other
    /// move, `can_play` tells.
    pub fn make_move(&mut self, m: Move, pre: &Precalc) -> (ok: bool)
        requires
            pre.wf(),
            old(self).playable(m),
        ensures
            ok == old(self).keeps_king_safe(m),
            *final(self) == old(self).after_move(m),
            final(self).occupancy_consistent(),
            final(self).en_passant is Some <==> m.special == Some(SpecialMove::DoublePawnPush),
    {
        proof {
            reveal(Board::moved);
        }
        let mover = self.side_to_move;
        self.shift_piece(m);
        self.take_victim(m);
        self.apply_special(m);
        self.drop_rights(m);
        self.update_occ();
        if self.king_attacked(mover, pre) {
            return false;
        }
        self.side_to_move = mover.opposite();
        true
    }
}

impl Board {
    /// The state of the game as the legal moves show it: with no legal move
    /// it is checkmate when the side to move is in check and stalemate when
    /// it is not; with a legal move the state stays what it is.
    pub open spec fn outcome(self) -> GameState {
        if legal(self).len() == 0 {
            if self.in_check(self.side_to_move) {
                GameState::Checkmate
            } else {
                GameState::Stalemate
            }
        } else {
            self.game_state
        }
    }

    /// Brings `game_state` up to date; nothing else changes.
    pub fn update_state(&mut self, pre: &Precalc)
        requires
            pre.wf(),
            old(self).has_king(old(self).side_to_move),
        ensures
            *final(self) == (Board { game_state: old(self).outcome(), ..*old(self) }),
    {
        let moves = legal_moves(self, pre);
        if moves.len() == 0 {
            if self.king_attacked(self.side_to_move, pre) {
                self.game_state = GameState::Checkmate;
            } else {
                self.game_state = GameState::Stalemate;
            }
        }
    }
}

/// The en-passant square lives for one move: after a move it is set exactly
/// when the move was a double pawn push, and then to the square passed over.
pub proof fn lemma_en_passant_lifetime(board: Board, m: Move)
    ensures
        board.after_move(m).en_passant == (if m.special == Some(SpecialMove::DoublePawnPush) {
            Some(Square::at(board.behind(m.to)))
        } else {
            None
        }),
{
    reveal(Board::moved);
}

/// After any move the three occupancy fields are those of the pieces: all
/// pieces are the white and the black ones together.
pub proof fn lemma_move_rebuilds_occupancy(board: Board, m: Move)
    ensures
        board.after_move(m).occupancy_consistent(),
        board.after_move(m).occ.0 == board.after_move(m).w_occ.0 | board.after_move(m).b_occ.0,
{
    reveal(Board::moved);
    lemma_occupancy_rebuild_idempotent(
        board.step_shift(m).step_capture(m).step_special(m).step_rights(m),
    );
}

impl Board {
    /// The position from which a game starts.
    pub open spec fn initial() -> Board {
        Board {
            w_pawn: BitBoard(0x0000_0000_0000_FF00),
            w_knight: BitBoard(0x0000_0000_0000_0042),
            w_bishop: BitBoard(0x0000_0000_0000_0024),
            w_rook: BitBoard(0x0000_0000_0000_0081),
            w_queen: BitBoard(0x0000_0000_0000_0008),
            w_king: BitBoard(0x0000_0000_0000_0010),
            b_pawn: BitBoard(0x00FF_0000_0000_0000),
            b_knight: BitBoard(0x4200_0000_0000_0000),
            b_bishop: BitBoard(0x2400_0000_0000_0000),
            b_rook: BitBoard(0x8100_0000_0000_0000),
            b_queen: BitBoard(0x0800_0000_0000_0000),
            b_king: BitBoard(0x1000_0000_0000_0000),
            w_occ: BitBoard(0x0000_0000_0000_FFFF),
            b_occ: BitBoard(0xFFFF_0000_0000_0000),
            occ: BitBoard(0xFFFF_0000_0000_FFFF),
            side_to_move: Color::White,
            en_passant: None,
            can_castle: 0b1111,
            game_state: GameState::InProgress,
        }
    }

    /// The position from which a game starts.
    pub fn start_pos() -> (board: Board)
        ensures
            board == Board::initial(),
            board.regular(),
    {
        proof {
            lemma_initial_regular();
        }
        Board {
            w_pawn: BitBoard(0x0000_0000_0000_FF00),
            w_knight: BitBoard(0x0000_0000_0000_0042),
            w_bishop: BitBoard(0x0000_0000_0000_0024),
            w_rook: BitBoard(0x0000_0000_0000_0081),
            w_queen: BitBoard(0x0000_0000_0000_0008),
            w_king: BitBoard(0x0000_0000_0000_0010),
            b_pawn: BitBoard(0x00FF_0000_0000_0000),
            b_knight: BitBoard(0x4200_0000_0000_0000),
            b_bishop: BitBoard(0x2400_0000_0000_0000),
            b_rook: BitBoard(0x8100_0000_0000_0000),
            b_queen: BitBoard(0x0800_0000_0000_0000),
            b_king: BitBoard(0x1000_0000_0000_0000),
            w_occ: BitBoard(0x0000_0000_0000_FFFF),
            b_occ: BitBoard(0xFFFF_0000_0000_0000),
            occ: BitBoard(0xFFFF_0000_0000_FFFF),
            side_to_move: Color::White,
            en_passant: None,
            can_castle: 0b1111,
            game_state: GameState::InProgress,
        }
    }
}

/// Which pieces stand on square `i` in the starting position.
proof fn lemma_initial_squares(b: Board, i: int)
    requires
        b == Board::initial(),
    ensures
        bit(b.w_pawn.0, i) == (8 <= i < 16),
        bit(b.w_knight.0, i) == (i == 1 || i == 6),
        bit(b.w_bishop.0, i) == (i == 2 || i == 5),
        bit(b.w_rook.0, i) == (i == 0 || i == 7),
        bit(b.w_queen.0, i) == (i == 3),
        bit(b.w_king.0, i) == (i == 4),
        bit(b.b_pawn.0, i) == (48 <= i < 56),
        bit(b.b_knight.0, i) == (i == 57 || i == 62),
        bit(b.b_bishop.0, i) == (i == 58 || i == 61),
        bit(b.b_rook.0, i) == (i == 56 || i == 63),
        bit(b.b_queen.0, i) == (i == 59),
        bit(b.b_king.0, i) == (i == 60),
{
    if 0 <= i < 64 {
        let j = i as u64;
        assert(((0x0000_0000_0000_FF00u64 >> j) & 1 == 1) == (8 <= j && j < 16) && ((0x42u64 >> j)
            & 1 == 1) == (j == 1 || j == 6) && ((0x24u64 >> j) & 1 == 1) == (j == 2 || j == 5) && ((
        0x81u64 >> j) & 1 == 1) == (j == 0 || j == 7) && ((0x08u64 >> j) & 1 == 1) == (j == 3) && ((
        0x10u64 >> j) & 1 == 1) == (j == 4) && ((0x00FF_0000_0000_0000u64 >> j) & 1 == 1) == (48
            <= j && j < 56) && ((0x4200_0000_0000_0000u64 >> j) & 1 == 1) == (j == 57 || j == 62)
            && ((0x2400_0000_0000_0000u64 >> j) & 1 == 1) == (j == 58 || j == 61) && ((
        0x8100_0000_0000_0000u64 >> j) & 1 == 1) == (j == 56 || j == 63) && ((
        0x0800_0000_0000_0000u64 >> j) & 1 == 1) == (j == 59) && ((0x1000_0000_0000_0000u64 >> j)
            & 1 == 1) == (j == 60)) by (bit_vector)
            requires
                j < 64,
        ;
    }
}

/// The starting position is well formed, and both sides have their king.
pub proof fn lemma_initial_wf()
    ensures
        Board::initial().wf(),
        Board::initial().has_king(Color::White),
        Board::initial().has_king(Color::Black),
{
    let b = Board::initial();
    assert(0x0000_0000_0000_FF00u64 | 0x42 | 0x24 | 0x81 | 0x08 | 0x10 == 0xFFFF
        && 0x00FF_0000_0000_0000u64 | 0x4200_0000_0000_0000 | 0x2400_0000_0000_0000
        | 0x8100_0000_0000_0000 | 0x0800_0000_0000_0000 | 0x1000_0000_0000_0000
        == 0xFFFF_0000_0000_0000 && 0x0000_0000_0000_FFFFu64 | 0xFFFF_0000_0000_0000
        == 0xFFFF_0000_0000_FFFF) by (bit_vector);
    assert(b.occupancy_consistent());
    assert forall|p: Piece, q: Piece| p != q implies b.bitboard(p)@.disjoint(b.bitboard(q)@) by {
        assert forall|i: int| !(b.bitboard(p)@.contains(i) && b.bitboard(q)@.contains(i)) by {
            lemma_initial_squares(b, i);
        }
    }
}

/// The starting position is regular: Black, who has not moved yet, is not
/// in check.
pub proof fn lemma_initial_regular()
    ensures
        Board::initial().regular(),
{
    let b = Board::initial();
    lemma_initial_wf();
    lemma_lowest(b.b_king.0);
    lemma_initial_squares(b, b.king_square(Color::Black));
    assert(b.king_square(Color::Black) == 60);
    assert forall|t: int|
        !(b.squares_of(PieceKind::Pawn, Color::White).contains(t) && pawn_reach(
            Color::White,
            t,
        ).contains(60)) by {
        lemma_initial_squares(b, t);
    }
    assert forall|t: int|
        !(b.squares_of(PieceKind::Horse, Color::White).contains(t) && knight_reach(t).contains(
            60,
        )) by {
        lemma_initial_squares(b, t);
    }
    assert forall|t: int|
        !(b.squares_of(PieceKind::King, Color::White).contains(t) && king_reach(t).contains(
            60,
        )) by {
        lemma_initial_squares(b, t);
    }
    assert forall|t: int|
        !(b.squares_of(PieceKind::Bishop, Color::White).contains(t) && bishop_reach(
            t,
            b.occ@,
        ).contains(60)) by {
        lemma_initial_squares(b, t);
    }
    assert forall|t: int|
        !(b.squares_of(PieceKind::Rook, Color::White).contains(t) && rook_reach(
            t,
            b.occ@,
        ).contains(60)) by {
        lemma_initial_squares(b, t);
    }
    assert forall|t: int|
        !(b.squares_of(PieceKind::Queen, Color::White).contains(t) && queen_reach(
            t,
            b.occ@,
        ).contains(60)) by {
        lemma_initial_squares(b, t);
    }
}

/// The position after a run of moves, each applied to the position that the
/// one before it left.
pub open spec fn played(board: Board, moves: Seq<Move>) -> Board
    decreases moves.len(),
{
    if moves.len() == 0 {
        board
    } else {
        played(board, moves.drop_last()).after_move(moves.last())
    }
}

/// Computes [`shares_square`].
fn overlaps(a: BitBoard, seen: u64) -> (r: bool)
    ensures
        r == shares_square(a, seen),
{
    proof {
        lemma_and_nonzero(a.0, seen);
    }
    a.0 & seen != 0
}

impl Board {
    /// A position as it arises in a game: it is well formed, both sides
    /// have a king, and the side that has just moved is not in check.
    pub open spec fn regular(self) -> bool {
        &&& self.wf()
        &&& self.has_king(Color::White)
        &&& self.has_king(Color::Black)
        &&& !self.in_check(self.side_to_move.other())
    }

    /// Whether no square holds two pieces.
    fn disjoint_pieces(&self) -> (r: bool)
        ensures
            r == self.pieces_disjoint(),
    {
        let s1 = self.w_pawn.0;
        let s2 = s1 | self.w_knight.0;
        let s3 = s2 | self.w_bishop.0;
        let s4 = s3 | self.w_rook.0;
        let s5 = s4 | self.w_queen.0;
        let s6 = s5 | self.w_king.0;
        let s7 = s6 | self.b_pawn.0;
        let s8 = s7 | self.b_knight.0;
        let s9 = s8 | self.b_bishop.0;
        let s10 = s9 | self.b_rook.0;
        let s11 = s10 | self.b_queen.0;
        proof {
            lemma_bit_or(s1, self.w_knight.0);
            lemma_bit_or(s2, self.w_bishop.0);
            lemma_bit_or(s3, self.w_rook.0);
            lemma_bit_or(s4, self.w_queen.0);
            lemma_bit_or(s5, self.w_king.0);
            lemma_bit_or(s6, self.b_pawn.0);
            lemma_bit_or(s7, self.b_knight.0);
            lemma_bit_or(s8, self.b_bishop.0);
            lemma_bit_or(s9, self.b_rook.0);
            lemma_bit_or(s10, self.b_queen.0);
        }
        let r = !(overlaps(self.w_knight, s1) || overlaps(self.w_bishop, s2) || overlaps(
            self.w_rook,
            s3,
        ) || overlaps(self.w_queen, s4) || overlaps(self.w_king, s5) || overlaps(self.b_pawn, s6)
            || overlaps(self.b_knight, s7) || overlaps(self.b_bishop, s8) || overlaps(
            self.b_rook,
            s9,
        ) || overlaps(self.b_queen, s10) || overlaps(self.b_king, s11));
        proof {
            let white = |kind: PieceKind| Piece { kind, color: Color::White };
            let black = |kind: PieceKind| Piece { kind, color: Color::Black };
            if r {
                assert forall|p: Piece, q: Piece| p != q implies self.bitboard(p)@.disjoint(
                    self.bitboard(q)@,
                ) by {
                    assert forall|i: int|
                        !(self.bitboard(p)@.contains(i) && self.bitboard(q)@.contains(i)) by {
                        if self.bitboard(p)@.contains(i) && self.bitboard(q)@.contains(i) {
                            assert(squares(s1).contains(i) || squares(s2).contains(i) || squares(
                                s3,
                            ).contains(i) || squares(s4).contains(i) || squares(s5).contains(i)
                                || squares(s6).contains(i) || squares(s7).contains(i) || squares(
                                s8,
                            ).contains(i) || squares(s9).contains(i) || squares(s10).contains(i)
                                || squares(s11).contains(i) || self.b_king@.contains(i));
                        }
                    }
                }
            } else {
                let (later, seen) = if shares_square(self.w_knight, s1) {
                    (white(PieceKind::Horse), s1)
                } else if shares_square(self.w_bishop, s2) {
                    (white(PieceKind::Bishop), s2)
                } else if shares_square(self.w_rook, s3) {
                    (white(PieceKind::Rook), s3)
                } else if shares_square(self.w_queen, s4) {
                    (white(PieceKind::Queen), s4)
                } else if shares_square(self.w_king, s5) {
                    (white(PieceKind::King), s5)
                } else if shares_square(self.b_pawn, s6) {
                    (black(PieceKind::Pawn), s6)
                } else if shares_square(self.b_knight, s7) {
                    (black(PieceKind::Horse), s7)
                } else if shares_square(self.b_bishop, s8) {
                    (black(PieceKind::Bishop), s8)
                } else if shares_square(self.b_rook, s9) {
                    (black(PieceKind::Rook), s9)
                } else if shares_square(self.b_queen, s10) {
                    (black(PieceKind::Queen), s10)
                } else {
                    (black(PieceKind::King), s11)
                };
                let i = choose|i: int|
                    self.bitboard(later)@.contains(i) && squares(seen).contains(i);
                let earlier = if self.w_pawn@.contains(i) {
                    white(PieceKind::Pawn)
                } else if self.w_knight@.contains(i) {
                    white(PieceKind::Horse)
                } else if self.w_bishop@.contains(i) {
                    white(PieceKind::Bishop)
                } else if self.w_rook@.contains(i) {
                    white(PieceKind::Rook)
                } else if self.w_queen@.contains(i) {
                    white(PieceKind::Queen)
                } else if self.w_king@.contains(i) {
                    white(PieceKind::King)
                } else if self.b_pawn@.contains(i) {
                    black(PieceKind::Pawn)
                } else if self.b_knight@.contains(i) {
                    black(PieceKind::Horse)
                } else if self.b_bishop@.contains(i) {
                    black(PieceKind::Bishop)
                } else if self.b_rook@.contains(i) {
                    black(PieceKind::Rook)
                } else {
                    black(PieceKind::Queen)
                };
                assert(self.bitboard(earlier)@.contains(i) && self.bitboard(later)@.contains(i));
                assert(earlier != later);
                assert(!self.bitboard(earlier)@.disjoint(self.bitboard(later)@));
            }
        }
        r
    }

    /// Whether the position is one as it arises in a game.
    pub fn is_regular(&self, pre: &Precalc) -> (r: bool)
        requires
            pre.wf(),
        ensures
            r == self.regular(),
    {
        let mut rebuilt = *self;
        rebuilt.update_occ();
        if rebuilt.w_occ.0 != self.w_occ.0 || rebuilt.b_occ.0 != self.b_occ.0 || rebuilt.occ.0
            != self.occ.0 {
            return false;
        }
        assert(*self == self.with_occupancy());
        if !self.disjoint_pieces() {
            return false;
        }
        if let Some(ep) = self.en_passant {
            if self.occ.get(ep) {
                return false;
            }
        }
        if self.w_king.0 == 0 || self.b_king.0 == 0 {
            return false;
        }
        !self.king_attacked(self.side_to_move.opposite(), pre)
    }
}

/// Whether a square of `a` is among the squares of the word `seen`.
pub open spec fn shares_square(a: BitBoard, seen: u64) -> bool {
    !a@.disjoint(squares(seen))
}

} // verus!
