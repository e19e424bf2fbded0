//! Reading a position from its FEN text.
//!
//! The text is made of fields separated by white space. The first four are
//! read: the placement of the pieces, the side to move, the castling rights
//! and the en-passant square. What follows them is not looked at.
use crate::bitboard::lemma_with;
use crate::bits::lemma_bit_zero;
use crate::board::{
    lemma_occupancy_rebuild_idempotent, Board, BLACK_KING_SIDE, BLACK_QUEEN_SIDE,
    WHITE_KING_SIDE, WHITE_QUEEN_SIDE,
};
use crate::movegen::geometry::{file_of, rank_of};
use crate::piece::{Color, Piece, PieceKind};
use crate::square::Square;
use vstd::prelude::*;
use vstd::string::*;

verus! {

/// Whether a character is white space, as Unicode defines it.
pub open spec fn is_space(c: char) -> bool {
    let n = c as u32;
    (0x09 <= n <= 0x0D) || n == 0x20 || n == 0x85 || n == 0xA0 || n == 0x1680 || (0x2000 <= n
        <= 0x200A) || n == 0x2028 || n == 0x2029 || n == 0x202F || n == 0x205F || n == 0x3000
}

/// The first position from `i` on that holds no white space, or the length
/// of the text.
pub open spec fn skip_space(s: Seq<char>, i: int) -> int
    decreases s.len() - i,
{
    if 0 <= i < s.len() && is_space(s[i]) {
        skip_space(s, i + 1)
    } else {
        i
    }
}

/// The first position from `i` on that holds white space, or the length of
/// the text.
pub open spec fn skip_word(s: Seq<char>, i: int) -> int
    decreases s.len() - i,
{
    if 0 <= i < s.len() && !is_space(s[i]) {
        skip_word(s, i + 1)
    } else {
        i
    }
}

/// Where the `k`-th field of the text begins; the length of the text when
/// it has no such field.
pub open spec fn field_start(s: Seq<char>, k: nat) -> int
    decreases k,
{
    if k == 0 {
        skip_space(s, 0)
    } else {
        skip_space(s, skip_word(s, field_start(s, (k - 1) as nat)))
    }
}

/// Where the `k`-th field of the text ends.
pub open spec fn field_end(s: Seq<char>, k: nat) -> int {
    skip_word(s, field_start(s, k))
}

/// The `k`-th field of the text, empty when it has no such field.
pub open spec fn field(s: Seq<char>, k: nat) -> Seq<char> {
    s.subrange(field_start(s, k), field_end(s, k))
}

/// The piece that a letter of the placement field stands for: upper case
/// for White, lower case for Black.
pub open spec fn piece_of_letter(c: char) -> Option<Piece> {
    if c == 'p' {
        Some(Piece { kind: PieceKind::Pawn, color: Color::Black })
    } else if c == 'n' {
        Some(Piece { kind: PieceKind::Horse, color: Color::Black })
    } else if c == 'b' {
        Some(Piece { kind: PieceKind::Bishop, color: Color::Black })
    } else if c == 'r' {
        Some(Piece { kind: PieceKind::Rook, color: Color::Black })
    } else if c == 'q' {
        Some(Piece { kind: PieceKind::Queen, color: Color::Black })
    } else if c == 'k' {
        Some(Piece { kind: PieceKind::King, color: Color::Black })
    } else if c == 'P' {
        Some(Piece { kind: PieceKind::Pawn, color: Color::White })
    } else if c == 'N' {
        Some(Piece { kind: PieceKind::Horse, color: Color::White })
    } else if c == 'B' {
        Some(Piece { kind: PieceKind::Bishop, color: Color::White })
    } else if c == 'R' {
        Some(Piece { kind: PieceKind::Rook, color: Color::White })
    } else if c == 'Q' {
        Some(Piece { kind: PieceKind::Queen, color: Color::White })
    } else if c == 'K' {
        Some(Piece { kind: PieceKind::King, color: Color::White })
    } else {
        None
    }
}

/// How far the placement field has been read: the pieces put on the board,
/// and the row and file that come next. Row 0 is the eighth rank.
pub struct Placement {
    pub board: Board,
    pub row: int,
    pub file: int,
}

/// One character of the placement field: `/` begins the next of at most
/// eight rows, a digit from 1 to 8 leaves that many files empty, a piece
/// letter puts a piece on the next file. A row holds no more than eight
/// files; anything else is an error.
pub open spec fn place_one(st: Placement, c: char) -> Option<Placement> {
    if c == '/' {
        if st.row < 7 {
            Some(Placement { board: st.board, row: st.row + 1, file: 0 })
        } else {
            None
        }
    } else if '1' <= c <= '8' {
        let skip = (c as u32) - ('0' as u32);
        if st.file + skip <= 8 {
            Some(Placement { file: st.file + skip, ..st })
        } else {
            None
        }
    } else {
        match piece_of_letter(c) {
            Some(piece) => if st.file < 8 {
                Some(
                    Placement {
                        board: st.board.placed(piece, (7 - st.row) * 8 + st.file),
                        row: st.row,
                        file: st.file + 1,
                    },
                )
            } else {
                None
            },
            None => None,
        }
    }
}

/// The placement after the first `n` characters of the field.
pub open spec fn place(p: Seq<char>, n: int) -> Option<Placement>
    decreases n,
{
    if n <= 0 {
        Some(Placement { board: Board::empty(), row: 0, file: 0 })
    } else {
        match place(p, n - 1) {
            Some(st) => place_one(st, p[n - 1]),
            None => None,
        }
    }
}

/// The side that the second field names.
pub open spec fn side_of(f: Seq<char>) -> Option<Color> {
    if f == seq!['w'] {
        Some(Color::White)
    } else if f == seq!['b'] {
        Some(Color::Black)
    } else {
        None
    }
}

/// The castling right that a letter of the third field grants; `-` grants none.
pub open spec fn right_of_letter(c: char) -> Option<u8> {
    if c == 'K' {
        Some(WHITE_KING_SIDE)
    } else if c == 'Q' {
        Some(WHITE_QUEEN_SIDE)
    } else if c == 'k' {
        Some(BLACK_KING_SIDE)
    } else if c == 'q' {
        Some(BLACK_QUEEN_SIDE)
    } else if c == '-' {
        Some(0u8)
    } else {
        None
    }
}

/// The castling rights that the first `n` characters of the third field grant.
pub open spec fn rights_of(f: Seq<char>, n: int) -> Option<u8>
    decreases n,
{
    if n <= 0 {
        Some(0u8)
    } else {
        match (rights_of(f, n - 1), right_of_letter(f[n - 1])) {
            (Some(rights), Some(right)) => Some(rights | right),
            _ => None,
        }
    }
}

/// The en-passant square that the fourth field names: none for `-`, else
/// the square of the file letter and rank digit that the field begins with.
/// The outer `None` is an error.
pub open spec fn en_passant_of(f: Seq<char>) -> Option<Option<Square>> {
    if f == seq!['-'] {
        Some(None)
    } else if f.len() >= 2 && 'a' <= f[0] <= 'h' && '1' <= f[1] <= '8' {
        Some(Some(Square::at(((f[1] as u32) - ('1' as u32)) * 8 + ((f[0] as u32) - ('a' as u32)))))
    } else {
        None
    }
}

/// The position that a FEN text describes, or `None` when the text is
/// malformed: when it has fewer than four fields or one of them is in error.
pub open spec fn fen_board(s: Seq<char>) -> Option<Board> {
    if field_start(s, 3) >= s.len() {
        None
    } else {
        match (
            place(field(s, 0), field(s, 0).len() as int),
            side_of(field(s, 1)),
            rights_of(field(s, 2), field(s, 2).len() as int),
            en_passant_of(field(s, 3)),
        ) {
            (Some(st), Some(side), Some(rights), Some(ep)) => Some(
                Board {
                    side_to_move: side,
                    can_castle: rights,
                    en_passant: ep,
                    ..st.board
                }.with_occupancy(),
            ),
            _ => None,
        }
    }
}

/// Whether a character is white space.
fn space(c: char) -> (r: bool)
    ensures
        r == is_space(c),
{
    let n = c as u32;
    (0x09 <= n && n <= 0x0D) || n == 0x20 || n == 0x85 || n == 0xA0 || n == 0x1680 || (0x2000 <= n
        && n <= 0x200A) || n == 0x2028 || n == 0x2029 || n == 0x202F || n == 0x205F || n == 0x3000
}

/// Computes [`skip_space`] for `spaces` and [`skip_word`] otherwise.
fn skip(fen: &str, len: usize, start: usize, spaces: bool) -> (end: usize)
    requires
        len == fen@.len(),
        start <= len,
    ensures
        start <= end <= len,
        end == (if spaces {
            skip_space(fen@, start as int)
        } else {
            skip_word(fen@, start as int)
        }),
{
    let mut i = start;
    while i < len && space(fen.get_char(i)) == spaces
        invariant
            len == fen@.len(),
            start <= i <= len,
            (if spaces {
                skip_space(fen@, start as int) == skip_space(fen@, i as int)
            } else {
                skip_word(fen@, start as int) == skip_word(fen@, i as int)
            }),
        decreases len - i,
    {
        i += 1;
    }
    i
}

/// Computes [`piece_of_letter`].
fn letter_piece(c: char) -> (p: Option<Piece>)
    ensures
        p == piece_of_letter(c),
{
    if c == 'p' {
        Some(Piece::new(PieceKind::Pawn, Color::Black))
    } else if c == 'n' {
        Some(Piece::new(PieceKind::Horse, Color::Black))
    } else if c == 'b' {
        Some(Piece::new(PieceKind::Bishop, Color::Black))
    } else if c == 'r' {
        Some(Piece::new(PieceKind::Rook, Color::Black))
    } else if c == 'q' {
        Some(Piece::new(PieceKind::Queen, Color::Black))
    } else if c == 'k' {
        Some(Piece::new(PieceKind::King, Color::Black))
    } else if c == 'P' {
        Some(Piece::new(PieceKind::Pawn, Color::White))
    } else if c == 'N' {
        Some(Piece::new(PieceKind::Horse, Color::White))
    } else if c == 'B' {
        Some(Piece::new(PieceKind::Bishop, Color::White))
    } else if c == 'R' {
        Some(Piece::new(PieceKind::Rook, Color::White))
    } else if c == 'Q' {
        Some(Piece::new(PieceKind::Queen, Color::White))
    } else if c == 'K' {
        Some(Piece::new(PieceKind::King, Color::White))
    } else {
        None
    }
}

/// Reads the placement field, which is `fen` from `start` to `end`.
fn read_placement(fen: &str, start: usize, end: usize) -> (board: Option<Board>)
    requires
        start <= end <= fen@.len(),
    ensures
        board == (match place(fen@.subrange(start as int, end as int), end - start) {
            Some(st) => Some(st.board),
            None => None,
        }),
{
    let ghost p = fen@.subrange(start as int, end as int);
    let mut board = Board::default();
    let mut row: u64 = 0;
    let mut file: u64 = 0;
    let mut i = start;
    while i < end
        invariant
            start <= i <= end <= fen@.len(),
            p == fen@.subrange(start as int, end as int),
            row <= 7,
            file <= 8,
            place(p, i - start) == Some(Placement { board, row: row as int, file: file as int }),
        decreases end - i,
    {
        let c = fen.get_char(i);
        assert(p[i - start] == c);
        assert(place(p, i - start + 1) == place_one(place(p, i - start).unwrap(), c));
        if c == '/' {
            if row >= 7 {
                proof {
                    lemma_place_fails(p, i - start + 1, end - start);
                }
                return None;
            }
            row += 1;
            file = 0;
        } else if '1' <= c && c <= '8' {
            let skip = (c as u32 - '0' as u32) as u64;
            if file + skip > 8 {
                proof {
                    lemma_place_fails(p, i - start + 1, end - start);
                }
                return None;
            }
            file += skip;
        } else {
            match letter_piece(c) {
                Some(piece) => {
                    if file >= 8 {
                        proof {
                            lemma_place_fails(p, i - start + 1, end - start);
                        }
                        return None;
                    }
                    board.board(piece).set((7 - row) * 8 + file);
                    file += 1;
                },
                None => {
                    proof {
                        lemma_place_fails(p, i - start + 1, end - start);
                    }
                    return None;
                },
            }
        }
        i += 1;
    }
    Some(board)
}

/// Once the placement is in error it stays so.
proof fn lemma_place_fails(p: Seq<char>, n: int, m: int)
    requires
        place(p, n) is None,
        n <= m,
    ensures
        place(p, m) is None,
    decreases m - n,
{
    if n < m {
        lemma_place_fails(p, n, m - 1);
    }
}

/// Once the castling field is in error it stays so.
proof fn lemma_rights_fail(f: Seq<char>, n: int, m: int)
    requires
        rights_of(f, n) is None,
        n <= m,
    ensures
        rights_of(f, m) is None,
    decreases m - n,
{
    if n < m {
        lemma_rights_fail(f, n, m - 1);
    }
}

/// Reads the castling field, which is `fen` from `start` to `end`.
fn read_rights(fen: &str, start: usize, end: usize) -> (rights: Option<u8>)
    requires
        start <= end <= fen@.len(),
    ensures
        rights == rights_of(fen@.subrange(start as int, end as int), end - start),
{
    let ghost f = fen@.subrange(start as int, end as int);
    let mut rights: u8 = 0;
    let mut i = start;
    while i < end
        invariant
            start <= i <= end <= fen@.len(),
            f == fen@.subrange(start as int, end as int),
            rights_of(f, i - start) == Some(rights),
        decreases end - i,
    {
        let c = fen.get_char(i);
        assert(f[i - start] == c);
        if c == 'K' {
            rights |= WHITE_KING_SIDE;
        } else if c == 'Q' {
            rights |= WHITE_QUEEN_SIDE;
        } else if c == 'k' {
            rights |= BLACK_KING_SIDE;
        } else if c == 'q' {
            rights |= BLACK_QUEEN_SIDE;
        } else if c == '-' {
            assert(rights | 0u8 == rights) by (bit_vector);
        } else {
            proof {
                lemma_rights_fail(f, i - start + 1, end - start);
            }
            return None;
        }
        i += 1;
    }
    Some(rights)
}

/// Reads the en-passant field, which is `fen` from `start` to `end`.
fn read_en_passant(fen: &str, start: usize, end: usize) -> (ep: Option<Option<Square>>)
    requires
        start <= end <= fen@.len(),
    ensures
        ep == en_passant_of(fen@.subrange(start as int, end as int)),
{
    let ghost f = fen@.subrange(start as int, end as int);
    if end - start == 1 {
        assert(f[0] == fen@[start as int]);
        if fen.get_char(start) == '-' {
            assert(f =~= seq!['-']);
            return Some(None);
        }
    }
    if end - start >= 2 {
        let c0 = fen.get_char(start);
        let c1 = fen.get_char(start + 1);
        assert(f[0] == c0 && f[1] == c1);
        if 'a' <= c0 && c0 <= 'h' && '1' <= c1 && c1 <= '8' {
            let file = (c0 as u32 - 'a' as u32) as u64;
            let rank = (c1 as u32 - '1' as u32) as u64;
            return Some(Some(Square::from_index(rank * 8 + file)));
        }
    }
    assert(seq!['-'].len() == 1 && seq!['-'][0] == '-');
    assert(f.len() == end - start);
    None
}

/// Reads the side field, which is `fen` from `start` to `end`.
fn read_side(fen: &str, start: usize, end: usize) -> (side: Option<Color>)
    requires
        start <= end <= fen@.len(),
    ensures
        side == side_of(fen@.subrange(start as int, end as int)),
{
    let ghost f = fen@.subrange(start as int, end as int);
    if end - start == 1 {
        let c = fen.get_char(start);
        assert(f[0] == c);
        if c == 'w' {
            assert(f =~= seq!['w']);
            return Some(Color::White);
        }
        if c == 'b' {
            assert(f =~= seq!['b']);
            return Some(Color::Black);
        }
    }
    assert(seq!['w'].len() == 1 && seq!['w'][0] == 'w');
    assert(seq!['b'].len() == 1 && seq!['b'][0] == 'b');
    None
}

impl Board {
    /// Reads a position from its FEN text; `None` when the text is malformed.
    pub fn parse_fen(fen: &str) -> (board: Option<Board>)
        ensures
            board == fen_board(fen@),
            board matches Some(b) ==> b.occupancy_consistent() && b.pieces_disjoint(),
    {
        proof {
            if fen_board(fen@) is Some {
                lemma_fen_board_wf(fen@);
            }
        }
        let len = fen.unicode_len();
        let a0 = skip(fen, len, 0, true);
        let b0 = skip(fen, len, a0, false);
        let a1 = skip(fen, len, b0, true);
        let b1 = skip(fen, len, a1, false);
        let a2 = skip(fen, len, b1, true);
        let b2 = skip(fen, len, a2, false);
        let a3 = skip(fen, len, b2, true);
        let b3 = skip(fen, len, a3, false);
        proof {
            reveal_with_fuel(field_start, 4);
        }
        if a3 >= len {
            return None;
        }
        let placed = read_placement(fen, a0, b0);
        let side = read_side(fen, a1, b1);
        let rights = read_rights(fen, a2, b2);
        let ep = read_en_passant(fen, a3, b3);
        match (placed, side, rights, ep) {
            (Some(board), Some(side), Some(rights), Some(ep)) => {
                let mut s = board;
                s.side_to_move = side;
                s.can_castle = rights;
                s.en_passant = ep;
                s.update_occ();
                Some(s)
            },
            _ => None,
        }
    }

    /// Reads a position from a well-formed FEN text.
    pub fn from_fen(fen: &str) -> (board: Board)
        requires
            fen_board(fen@) is Some,
        ensures
            Some(board) == fen_board(fen@),
            board.occupancy_consistent(),
            board.pieces_disjoint(),
    {
        match Board::parse_fen(fen) {
            Some(board) => board,
            None => Board::default(),
        }
    }
}

/// What holds while a placement is read: the row and file stay on the
/// board, every piece stands on a square that has been passed, and no
/// square holds two pieces.
pub open spec fn placement_ok(st: Placement) -> bool {
    &&& 0 <= st.row <= 7
    &&& 0 <= st.file <= 8
    &&& st.board.pieces_disjoint()
    &&& forall|q: Piece, i: int|
        #[trigger] st.board.bitboard(q)@.contains(i) ==> rank_of(i) > 7 - st.row || (rank_of(i)
            == 7 - st.row && file_of(i) < st.file)
}

proof fn lemma_place_ok(p: Seq<char>, n: int)
    requires
        place(p, n) is Some,
    ensures
        placement_ok(place(p, n)->0),
    decreases n,
{
    if n <= 0 {
        lemma_bit_zero();
    } else {
        lemma_place_ok(p, n - 1);
        let st = place(p, n - 1)->0;
        let c = p[n - 1];
        let next = place(p, n)->0;
        if c != '/' && !('1' <= c <= '8') {
            let piece = piece_of_letter(c)->0;
            let sq = (7 - st.row) * 8 + st.file;
            lemma_with(st.board.bitboard(piece), sq);
            assert forall|q: Piece|
                #[trigger] next.board.bitboard(q)@ == (if q == piece {
                    st.board.bitboard(q)@.insert(sq)
                } else {
                    st.board.bitboard(q)@
                }) by {}
            assert forall|q: Piece, i: int| #[trigger]
                next.board.bitboard(q)@.contains(i) implies rank_of(i) > 7 - next.row || (rank_of(
                i,
            ) == 7 - next.row && file_of(i) < next.file) by {
                if i != sq {
                    assert(st.board.bitboard(q)@.contains(i));
                }
            }
            assert forall|a: Piece, b: Piece| a != b implies next.board.bitboard(a)@.disjoint(
                next.board.bitboard(b)@,
            ) by {
                assert(st.board.bitboard(a)@.disjoint(st.board.bitboard(b)@));
                assert forall|i: int|
                    !(next.board.bitboard(a)@.contains(i) && next.board.bitboard(b)@.contains(
                        i,
                    )) by {
                    if i == sq {
                        assert(!st.board.bitboard(a)@.contains(sq));
                        assert(!st.board.bitboard(b)@.contains(sq));
                    }
                }
            }
        } else {
            assert forall|q: Piece, i: int| #[trigger]
                next.board.bitboard(q)@.contains(i) implies rank_of(i) > 7 - next.row || (rank_of(
                i,
            ) == 7 - next.row && file_of(i) < next.file) by {
                assert(st.board.bitboard(q)@.contains(i));
            }
        }
    }
}

/// A position read from a FEN text has the occupancy of its pieces and no
/// square with two pieces. It is well formed when, besides, the en-passant
/// square that the text names is empty.
pub proof fn lemma_fen_board_wf(s: Seq<char>)
    requires
        fen_board(s) is Some,
    ensures
        fen_board(s)->0.occupancy_consistent(),
        fen_board(s)->0.pieces_disjoint(),
        fen_board(s)->0.wf() <==> (fen_board(s)->0.en_passant matches Some(ep)
            ==> !fen_board(s)->0.occ@.contains(ep.index())),
{
    let p = field(s, 0);
    lemma_place_ok(p, p.len() as int);
    let st = place(p, p.len() as int)->0;
    let b = fen_board(s)->0;
    assert forall|q: Piece| b.bitboard(q) == st.board.bitboard(q) by {}
    assert forall|a: Piece, c: Piece| a != c implies b.bitboard(a)@.disjoint(b.bitboard(c)@) by {
        assert(st.board.bitboard(a)@.disjoint(st.board.bitboard(c)@));
    }
    lemma_occupancy_rebuild_idempotent(
        Board {
            side_to_move: side_of(field(s, 1))->0,
            can_castle: rights_of(field(s, 2), field(s, 2).len() as int)->0,
            en_passant: en_passant_of(field(s, 3))->0,
            ..st.board
        },
    );
}

} // verus!
