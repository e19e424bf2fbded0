//! What holds of every pseudo-legal move, and what follows for the position
//! after it.
use crate::bitboard::{lemma_with, lemma_without};
use crate::bits::{lemma_bit_or, lemma_lowest, lemma_zero_iff_empty};
use crate::bits::lemma_and_nonzero;
use crate::board::{played, Board, Castle};
use crate::movegen::geometry::{
    bishop_reach, king_reach, knight_reach, lemma_pawn_reach, pawn_reach, queen_reach, rank_of,
    rook_reach,
};
use crate::movegen::precalc::slider_reach;
use crate::movegen::{
    attacks_square, castle_allowed, castle_moves, castle_path, castling_of, en_passant_move,
    forward, gather, home_rank, king_home, king_moves_from, knight_moves_from, last_rank,
    lemma_gather_member, legal, moves_of_kind, pawn_arrival, pawn_moves_from, pawn_pushes,
    piece_moves, plain_move, pseudo_legal, safe_for, slider_moves_from, Move, SpecialMove,
};
use crate::piece::{Color, Piece, PieceKind};
use crate::square::{lemma_square_at_index, Square};
use vstd::prelude::*;

verus! {

/// The shape of a move that the side to move can be given: the piece is its
/// own, and a special move is of the piece and to the square that go with it.
pub open spec fn shaped(board: Board, m: Move) -> bool {
    let side = board.side_to_move;
    &&& m.piece.color == side
    &&& match m.special {
        None => true,
        Some(SpecialMove::Promotion(kind)) => m.piece.kind == PieceKind::Pawn && kind
            != PieceKind::Pawn && kind != PieceKind::King && rank_of(m.to.index()) == last_rank(
            side,
        ),
        Some(SpecialMove::EnPassant) => m.piece.kind == PieceKind::Pawn && m.capture
            && board.en_passant == Some(m.to) && pawn_reach(side, m.from.index()).contains(
            m.to.index(),
        ),
        Some(SpecialMove::DoublePawnPush) => m.piece.kind == PieceKind::Pawn && !m.capture
            && rank_of(m.from.index()) == home_rank(side) && m.to.index() == m.from.index() + 2
            * forward(side),
        Some(SpecialMove::Castle) => m.piece.kind == PieceKind::King && !m.capture && m.from
            == king_home(side) && (match side {
            Color::White => m.to == Square::G1 || m.to == Square::C1,
            Color::Black => m.to == Square::G8 || m.to == Square::C8,
        }),
    }
}

/// The square on which the rook lands in a castling move to `to`.
pub open spec fn rook_landing(to: Square) -> Square {
    if to == Square::G1 {
        Square::F1
    } else if to == Square::C1 {
        Square::D1
    } else if to == Square::G8 {
        Square::F8
    } else {
        Square::D8
    }
}

/// The squares that a piece of the given kind and colour on `from` attacks
/// when the squares of `occ` are occupied.
pub open spec fn kind_reach(kind: PieceKind, color: Color, from: int, occ: Set<int>) -> Set<int> {
    match kind {
        PieceKind::Pawn => pawn_reach(color, from),
        PieceKind::Horse => knight_reach(from),
        PieceKind::King => king_reach(from),
        PieceKind::Bishop => bishop_reach(from, occ),
        PieceKind::Rook => rook_reach(from, occ),
        PieceKind::Queen => queen_reach(from, occ),
    }
}

/// A move in keeping with where the pieces stand: the piece stands on
/// `from`, unless the move is a castling move, which is made by right and
/// not by where the king stands; a capture goes to a square that the piece
/// attacks; a move that is no capture goes to an empty square; a capture
/// other than en passant goes to a square held by the opponent; a double
/// push passes over an empty square; the rook of a castling move lands on an
/// empty square.
pub open spec fn sound(board: Board, m: Move) -> bool {
    let side = board.side_to_move;
    &&& shaped(board, m)
    &&& m.capture ==> kind_reach(m.piece.kind, side, m.from.index(), board.occ@).contains(
        m.to.index(),
    )
    &&& m.special != Some(SpecialMove::Castle) ==> board.bitboard(m.piece)@.contains(
        m.from.index(),
    )
    &&& !m.capture ==> !board.occ@.contains(m.to.index())
    &&& m.capture && m.special != Some(SpecialMove::EnPassant) ==> board.occupancy(
        side.other(),
    )@.contains(m.to.index()) && !board.occupancy(side)@.contains(m.to.index())
    &&& m.special == Some(SpecialMove::DoublePawnPush) ==> !board.occ@.contains(
        m.from.index() + forward(side),
    )
    &&& m.special == Some(SpecialMove::Castle) ==> !board.occ@.contains(
        rook_landing(m.to).index(),
    )
}

/// A move of a concatenation is a move of one of its parts.
pub proof fn lemma_concat_member(a: Seq<Move>, b: Seq<Move>, m: Move)
    requires
        (a + b).contains(m),
    ensures
        a.contains(m) || b.contains(m),
{
    let k = choose|k: int| 0 <= k < (a + b).len() && (a + b)[k] == m;
    if k < a.len() {
        assert(a[k] == m);
    } else {
        assert(b[k - a.len()] == m);
    }
}

/// What is known of an ordinary move that was gathered over a set of squares.
pub proof fn lemma_plain_member(piece: Piece, from: int, capture: bool, set: Set<int>, m: Move)
    requires
        gather(set, plain_move(piece, from, capture), 0).contains(m),
    ensures
        m.piece == piece,
        m.from == Square::at(from),
        m.capture == capture,
        m.special.is_none(),
        set.contains(m.to.index()),
{
    lemma_gather_member(set, plain_move(piece, from, capture), 0, m);
    let to = choose|i: int|
        0 <= i < 64 && set.contains(i) && (#[trigger] plain_move(piece, from, capture)(
            i,
        )).contains(m);
    let one = plain_move(piece, from, capture)(to);
    let k = choose|k: int| 0 <= k < one.len() && one[k] == m;
    assert(one[0] == m);
    lemma_square_at_index();
}

/// What is known of a move among those of a piece that jumps or slides.
pub proof fn lemma_piece_member(
    piece: Piece,
    from: int,
    reach: Set<int>,
    own: Set<int>,
    enemy: Set<int>,
    m: Move,
)
    requires
        piece_moves(piece, from, reach, own, enemy).contains(m),
    ensures
        m.piece == piece,
        m.from == Square::at(from),
        m.special.is_none(),
        reach.contains(m.to.index()),
        !own.contains(m.to.index()),
        m.capture == enemy.contains(m.to.index()),
{
    let quiet = gather(
        reach.difference(own).difference(enemy),
        plain_move(piece, from, false),
        0,
    );
    let takes = gather(reach.difference(own).intersect(enemy), plain_move(piece, from, true), 0);
    lemma_concat_member(quiet, takes, m);
    if quiet.contains(m) {
        lemma_plain_member(piece, from, false, reach.difference(own).difference(enemy), m);
    } else {
        lemma_plain_member(piece, from, true, reach.difference(own).intersect(enemy), m);
    }
}

/// What is known of a move that a pawn's arrival on one of a set of squares gave.
pub proof fn lemma_arrival_member(color: Color, from: int, capture: bool, set: Set<int>, m: Move)
    requires
        gather(set, pawn_arrival(color, from, capture), 0).contains(m),
    ensures
        m.piece == (Piece { kind: PieceKind::Pawn, color }),
        m.from == Square::at(from),
        m.capture == capture,
        set.contains(m.to.index()),
        rank_of(m.to.index()) == last_rank(color) ==> m.special == Some(
            SpecialMove::Promotion(PieceKind::Queen),
        ) || m.special == Some(SpecialMove::Promotion(PieceKind::Rook)) || m.special == Some(
            SpecialMove::Promotion(PieceKind::Bishop),
        ) || m.special == Some(SpecialMove::Promotion(PieceKind::Horse)),
        rank_of(m.to.index()) != last_rank(color) ==> m.special == (if rank_of(from) == home_rank(
            color,
        ) && rank_of(m.to.index()) == home_rank(color) + 2 * (forward(color) / 8) {
            Some(SpecialMove::DoublePawnPush)
        } else {
            None
        }),
{
    lemma_gather_member(set, pawn_arrival(color, from, capture), 0, m);
    let to = choose|i: int|
        0 <= i < 64 && set.contains(i) && (#[trigger] pawn_arrival(color, from, capture)(
            i,
        )).contains(m);
    let some = pawn_arrival(color, from, capture)(to);
    let k = choose|k: int| 0 <= k < some.len() && some[k] == m;
    assert(some[k] == m);
    lemma_square_at_index();
    if rank_of(to) == last_rank(color) {
        assert(k == 0 || k == 1 || k == 2 || k == 3);
    } else {
        assert(k == 0);
    }
}

/// In a position with consistent occupancy, the occupied squares are those
/// of the two colours, and a colour's squares are those of its six kinds.
pub proof fn lemma_occupancy_members(board: Board)
    requires
        board.occupancy_consistent(),
    ensures
        board.occ@ == board.w_occ@.union(board.b_occ@),
        forall|color: Color, i: int|
            #[trigger] board.occupancy(color)@.contains(i) == (exists|kind: PieceKind|
                board.squares_of(kind, color).contains(i)),
{
    lemma_bit_or(board.w_occ.0, board.b_occ.0);
    assert(board.occ@ =~= board.w_occ@.union(board.b_occ@));
    lemma_bit_or(board.w_pawn.0, board.w_knight.0);
    lemma_bit_or(board.w_pawn.0 | board.w_knight.0, board.w_bishop.0);
    lemma_bit_or(board.w_pawn.0 | board.w_knight.0 | board.w_bishop.0, board.w_rook.0);
    lemma_bit_or(
        board.w_pawn.0 | board.w_knight.0 | board.w_bishop.0 | board.w_rook.0,
        board.w_queen.0,
    );
    lemma_bit_or(
        board.w_pawn.0 | board.w_knight.0 | board.w_bishop.0 | board.w_rook.0 | board.w_queen.0,
        board.w_king.0,
    );
    lemma_bit_or(board.b_pawn.0, board.b_knight.0);
    lemma_bit_or(board.b_pawn.0 | board.b_knight.0, board.b_bishop.0);
    lemma_bit_or(board.b_pawn.0 | board.b_knight.0 | board.b_bishop.0, board.b_rook.0);
    lemma_bit_or(
        board.b_pawn.0 | board.b_knight.0 | board.b_bishop.0 | board.b_rook.0,
        board.b_queen.0,
    );
    lemma_bit_or(
        board.b_pawn.0 | board.b_knight.0 | board.b_bishop.0 | board.b_rook.0 | board.b_queen.0,
        board.b_king.0,
    );
    assert forall|color: Color, i: int|
        #[trigger] board.occupancy(color)@.contains(i) == (exists|kind: PieceKind|
            board.squares_of(kind, color).contains(i)) by {
        if board.occupancy(color)@.contains(i) {
            let kind = if board.squares_of(PieceKind::Pawn, color).contains(i) {
                PieceKind::Pawn
            } else if board.squares_of(PieceKind::Horse, color).contains(i) {
                PieceKind::Horse
            } else if board.squares_of(PieceKind::Bishop, color).contains(i) {
                PieceKind::Bishop
            } else if board.squares_of(PieceKind::Rook, color).contains(i) {
                PieceKind::Rook
            } else if board.squares_of(PieceKind::Queen, color).contains(i) {
                PieceKind::Queen
            } else {
                PieceKind::King
            };
            assert(board.squares_of(kind, color).contains(i));
        }
    }
}

/// In a well-formed position no square belongs to both colours.
pub proof fn lemma_colours_disjoint(board: Board)
    requires
        board.wf(),
    ensures
        board.w_occ@.disjoint(board.b_occ@),
        forall|color: Color, i: int|
            board.occupancy(color)@.contains(i) ==> !#[trigger] board.occupancy(
                color.other(),
            )@.contains(i),
{
    lemma_occupancy_members(board);
    assert forall|color: Color, i: int| board.occupancy(color)@.contains(i) implies !#[trigger] board.occupancy(
        color.other(),
    )@.contains(i) by {
        if board.occupancy(color.other())@.contains(i) {
            let k1 = choose|kind: PieceKind| board.squares_of(kind, color).contains(i);
            let k2 = choose|kind: PieceKind| board.squares_of(kind, color.other()).contains(i);
            let p = Piece { kind: k1, color };
            let q = Piece { kind: k2, color: color.other() };
            assert(board.bitboard(p)@.disjoint(board.bitboard(q)@));
        }
    }
    assert forall|i: int| !(board.w_occ@.contains(i) && board.b_occ@.contains(i)) by {
        if board.occupancy(Color::White)@.contains(i) {
            assert(!board.occupancy(Color::White.other())@.contains(i));
        }
    }
}

/// What holds of a move among those of a piece that jumps or slides.
proof fn lemma_piece_sound(board: Board, kind: PieceKind, from: int, reach: Set<int>, m: Move)
    requires
        0 <= from < 64,
        board.squares_of(kind, board.side_to_move).contains(from),
        reach.subset_of(kind_reach(kind, board.side_to_move, from, board.occ@)),
        piece_moves(
            Piece { kind, color: board.side_to_move },
            from,
            reach,
            board.occupancy(board.side_to_move)@,
            board.occupancy(board.side_to_move.other())@,
        ).contains(m),
    ensures
        shaped(board, m),
        board.occupancy_consistent() ==> sound(board, m),
        m.special.is_none(),
{
    let side = board.side_to_move;
    lemma_piece_member(
        Piece { kind, color: side },
        from,
        reach,
        board.occupancy(side)@,
        board.occupancy(side.other())@,
        m,
    );
    lemma_square_at_index();
    if board.occupancy_consistent() {
        lemma_occupancy_members(board);
    }
}

/// What holds of a move of a pawn.
proof fn lemma_pawn_sound(board: Board, from: int, m: Move)
    requires
        0 <= from < 64,
        board.squares_of(PieceKind::Pawn, board.side_to_move).contains(from),
        pawn_moves_from(
            board.side_to_move,
            board.occ@,
            board.occupancy(board.side_to_move.other())@,
            board.en_passant,
        )(from).contains(m),
    ensures
        shaped(board, m),
        board.wf() ==> sound(board, m),
        m.special != Some(SpecialMove::Castle),
{
    let side = board.side_to_move;
    let enemy = board.occupancy(side.other())@;
    let pushes = gather(pawn_pushes(side, from, board.occ@), pawn_arrival(side, from, false), 0);
    let takes = gather(
        pawn_reach(side, from).intersect(enemy),
        pawn_arrival(side, from, true),
        0,
    );
    let passing = en_passant_move(side, from, board.en_passant);
    lemma_square_at_index();
    lemma_pawn_reach(side, from);
    lemma_concat_member(pushes + takes, passing, m);
    if (pushes + takes).contains(m) {
        lemma_concat_member(pushes, takes, m);
        if pushes.contains(m) {
            lemma_arrival_member(side, from, false, pawn_pushes(side, from, board.occ@), m);
        } else {
            lemma_arrival_member(side, from, true, pawn_reach(side, from).intersect(enemy), m);
            if board.wf() {
                lemma_colours_disjoint(board);
                assert(!board.occupancy(side.other().other())@.contains(m.to.index()));
            }
        }
    } else {
        let k = choose|k: int| 0 <= k < passing.len() && passing[k] == m;
        assert(passing[0] == m);
    }
}

/// What holds of a castling move.
proof fn lemma_castle_sound(board: Board, right: Castle, m: Move)
    requires
        castle_moves(board, right, castle_path(right), board.side_to_move).contains(m),
        match board.side_to_move {
            Color::White => right == Castle::WhiteKing || right == Castle::WhiteQueen,
            Color::Black => right == Castle::BlackKing || right == Castle::BlackQueen,
        },
    ensures
        shaped(board, m),
        m.special == Some(SpecialMove::Castle),
        !board.occ@.contains(m.to.index()),
        !board.occ@.contains(rook_landing(m.to).index()),
        board.can_castle & right.mask() != 0,
{
    let side = board.side_to_move;
    let path = castle_path(right);
    let one = castle_moves(board, right, path, side);
    let k = choose|k: int| 0 <= k < one.len() && one[k] == m;
    assert(one[0] == m);
    assert(castle_allowed(board, right, path, side));
    assert(!board.occ@.contains(path[0].index()));
    assert(!board.occ@.contains(path[1].index()));
}

/// What holds of a move among those of the pieces of one kind.
proof fn lemma_kind_sound(board: Board, kind: PieceKind, m: Move)
    requires
        moves_of_kind(board, kind).contains(m),
    ensures
        shaped(board, m),
        board.wf() ==> sound(board, m),
        m.special != Some(SpecialMove::Castle),
{
    let side = board.side_to_move;
    let own = board.occupancy(side)@;
    let enemy = board.occupancy(side.other())@;
    let from_set = board.squares_of(kind, side);
    let piece = Piece { kind, color: side };
    match kind {
        PieceKind::Pawn => {
            let emit = pawn_moves_from(side, board.occ@, enemy, board.en_passant);
            lemma_gather_member(from_set, emit, 0, m);
            let from = choose|i: int|
                0 <= i < 64 && from_set.contains(i) && (#[trigger] emit(i)).contains(m);
            lemma_pawn_sound(board, from, m);
        },
        PieceKind::Horse => {
            let emit = knight_moves_from(piece, own, enemy);
            lemma_gather_member(from_set, emit, 0, m);
            let from = choose|i: int|
                0 <= i < 64 && from_set.contains(i) && (#[trigger] emit(i)).contains(m);
            lemma_piece_sound(board, kind, from, knight_reach(from), m);
        },
        PieceKind::King => {
            let emit = king_moves_from(piece, own, enemy);
            lemma_gather_member(from_set, emit, 0, m);
            let from = choose|i: int|
                0 <= i < 64 && from_set.contains(i) && (#[trigger] emit(i)).contains(m);
            lemma_piece_sound(board, kind, from, king_reach(from), m);
        },
        PieceKind::Bishop => {
            let emit = slider_moves_from(false, piece, board.occ@, own, enemy);
            lemma_gather_member(from_set, emit, 0, m);
            let from = choose|i: int|
                0 <= i < 64 && from_set.contains(i) && (#[trigger] emit(i)).contains(m);
            lemma_piece_sound(board, kind, from, slider_reach(false, from, board.occ@), m);
        },
        PieceKind::Rook => {
            let emit = slider_moves_from(true, piece, board.occ@, own, enemy);
            lemma_gather_member(from_set, emit, 0, m);
            let from = choose|i: int|
                0 <= i < 64 && from_set.contains(i) && (#[trigger] emit(i)).contains(m);
            lemma_piece_sound(board, kind, from, slider_reach(true, from, board.occ@), m);
        },
        PieceKind::Queen => {
            let straight = slider_moves_from(true, piece, board.occ@, own, enemy);
            let diagonal = slider_moves_from(false, piece, board.occ@, own, enemy);
            lemma_concat_member(gather(from_set, straight, 0), gather(from_set, diagonal, 0), m);
            if gather(from_set, straight, 0).contains(m) {
                lemma_gather_member(from_set, straight, 0, m);
                let from = choose|i: int|
                    0 <= i < 64 && from_set.contains(i) && (#[trigger] straight(i)).contains(m);
                lemma_piece_sound(board, kind, from, slider_reach(true, from, board.occ@), m);
            } else {
                lemma_gather_member(from_set, diagonal, 0, m);
                let from = choose|i: int|
                    0 <= i < 64 && from_set.contains(i) && (#[trigger] diagonal(i)).contains(m);
                lemma_piece_sound(board, kind, from, slider_reach(false, from, board.occ@), m);
            }
        },
    }
}

/// Every pseudo-legal move has the shape of a move of the side to move, and
/// in a well-formed position it is in keeping with where the pieces stand.
pub proof fn lemma_pseudo_legal_sound(board: Board, m: Move)
    requires
        pseudo_legal(board).contains(m),
    ensures
        shaped(board, m),
        board.wf() ==> sound(board, m),
{
    reveal(pseudo_legal);
    let side = board.side_to_move;
    let p = moves_of_kind(board, PieceKind::Pawn);
    let c = castling_of(board, side);
    let n = moves_of_kind(board, PieceKind::Horse);
    let k = moves_of_kind(board, PieceKind::King);
    let b = moves_of_kind(board, PieceKind::Bishop);
    let r = moves_of_kind(board, PieceKind::Rook);
    let q = moves_of_kind(board, PieceKind::Queen);
    lemma_concat_member(p + c + n + k + b + r, q, m);
    if q.contains(m) {
        lemma_kind_sound(board, PieceKind::Queen, m);
    } else {
        lemma_concat_member(p + c + n + k + b, r, m);
        if r.contains(m) {
            lemma_kind_sound(board, PieceKind::Rook, m);
        } else {
            lemma_concat_member(p + c + n + k, b, m);
            if b.contains(m) {
                lemma_kind_sound(board, PieceKind::Bishop, m);
            } else {
                lemma_concat_member(p + c + n, k, m);
                if k.contains(m) {
                    lemma_kind_sound(board, PieceKind::King, m);
                } else {
                    lemma_concat_member(p + c, n, m);
                    if n.contains(m) {
                        lemma_kind_sound(board, PieceKind::Horse, m);
                    } else {
                        lemma_concat_member(p, c, m);
                        if p.contains(m) {
                            lemma_kind_sound(board, PieceKind::Pawn, m);
                        } else {
                            lemma_castling_sound(board, m);
                        }
                    }
                }
            }
        }
    }
}

/// What holds of a castling move of the side to move.
proof fn lemma_castling_sound(board: Board, m: Move)
    requires
        castling_of(board, board.side_to_move).contains(m),
    ensures
        shaped(board, m),
        m.special == Some(SpecialMove::Castle),
        !board.occ@.contains(m.to.index()),
        !board.occ@.contains(rook_landing(m.to).index()),
{
    let side = board.side_to_move;
    match side {
        Color::White => {
            let a = castle_moves(board, Castle::WhiteKing, castle_path(Castle::WhiteKing), side);
            let b = castle_moves(board, Castle::WhiteQueen, castle_path(Castle::WhiteQueen), side);
            lemma_concat_member(a, b, m);
            if a.contains(m) {
                lemma_castle_sound(board, Castle::WhiteKing, m);
            } else {
                lemma_castle_sound(board, Castle::WhiteQueen, m);
            }
        },
        Color::Black => {
            let a = castle_moves(board, Castle::BlackKing, castle_path(Castle::BlackKing), side);
            let b = castle_moves(board, Castle::BlackQueen, castle_path(Castle::BlackQueen), side);
            lemma_concat_member(a, b, m);
            if a.contains(m) {
                lemma_castle_sound(board, Castle::BlackKing, m);
            } else {
                lemma_castle_sound(board, Castle::BlackQueen, m);
            }
        },
    }
}

/// A move of the right shape can be applied in any position in which the
/// side to move has a king.
pub proof fn lemma_shaped_playable(board: Board, m: Move)
    requires
        shaped(board, m),
        board.has_king(board.side_to_move),
    ensures
        board.playable(m),
{
    reveal(Board::moved);
    let side = board.side_to_move;
    let king = Piece { kind: PieceKind::King, color: side };
    lemma_pawn_reach(side, m.from.index());
    lemma_square_at_index();
    let shifted = board.step_shift(m);
    if m.piece == king {
        lemma_with(board.bitboard(king).without(m.from.index()), m.to.index());
        lemma_zero_iff_empty(shifted.bitboard(king).0);
        assert(shifted.bitboard(king)@.contains(m.to.index()));
    }
    assert(shifted.bitboard(king).0 != 0);
    let taken = shifted.step_capture(m);
    assert(taken.bitboard(king) == shifted.bitboard(king));
    let done = taken.step_special(m);
    assert(done.bitboard(king) == taken.bitboard(king));
    assert(board.moved(m).bitboard(king) == done.bitboard(king));
}

/// Every pseudo-legal move can be applied when the side to move has a king.
pub proof fn lemma_pseudo_legal_playable(board: Board, m: Move)
    requires
        pseudo_legal(board).contains(m),
        board.has_king(board.side_to_move),
    ensures
        board.playable(m),
{
    lemma_pseudo_legal_sound(board, m);
    lemma_shaped_playable(board, m);
}

/// The legal moves are among the pseudo-legal moves: those that leave the
/// mover's king safe.
pub proof fn lemma_legal_subset(board: Board, m: Move)
    ensures
        legal(board).contains(m) <==> pseudo_legal(board).contains(m) && board.keeps_king_safe(m),
{
    let all = pseudo_legal(board);
    let keep = safe_for(board);
    if legal(board).contains(m) {
        all.lemma_filter_contains_rev(keep, m);
        let k = choose|k: int| 0 <= k < all.filter(keep).len() && all.filter(keep)[k] == m;
        all.lemma_filter_pred(keep, k);
    }
    if all.contains(m) && board.keeps_king_safe(m) {
        let k = choose|k: int| 0 <= k < all.len() && all[k] == m;
        all.lemma_filter_contains(keep, k);
    }
}

/// Taking a piece off a square changes the squares of that piece alone.
pub proof fn lemma_lifted(board: Board, piece: Piece, sq: int)
    requires
        0 <= sq < 64,
    ensures
        forall|q: Piece|
            #[trigger] board.lifted(piece, sq).bitboard(q)@ == (if q == piece {
                board.bitboard(q)@.remove(sq)
            } else {
                board.bitboard(q)@
            }),
{
    lemma_without(board.bitboard(piece), sq);
}

/// Putting a piece on a square changes the squares of that piece alone.
pub proof fn lemma_placed(board: Board, piece: Piece, sq: int)
    requires
        0 <= sq < 64,
    ensures
        forall|q: Piece|
            #[trigger] board.placed(piece, sq).bitboard(q)@ == (if q == piece {
                board.bitboard(q)@.insert(sq)
            } else {
                board.bitboard(q)@
            }),
{
    lemma_with(board.bitboard(piece), sq);
}

/// Where the pieces stand after the first step of a move.
pub proof fn lemma_step_shift(board: Board, m: Move)
    ensures
        forall|q: Piece|
            #[trigger] board.step_shift(m).bitboard(q)@ == (if q == m.piece {
                board.bitboard(q)@.remove(m.from.index()).insert(m.to.index())
            } else {
                board.bitboard(q)@
            }),
{
    lemma_square_at_index();
    let b1 = board.lifted(m.piece, m.from.index());
    let b2 = b1.placed(m.piece, m.to.index());
    lemma_lifted(board, m.piece, m.from.index());
    lemma_placed(b1, m.piece, m.to.index());
    assert forall|q: Piece|
        #[trigger] board.step_shift(m).bitboard(q)@ == (if q == m.piece {
            board.bitboard(q)@.remove(m.from.index()).insert(m.to.index())
        } else {
            board.bitboard(q)@
        }) by {
        assert(board.step_shift(m).bitboard(q) == b2.bitboard(q));
        assert(b2.bitboard(q)@ == (if q == m.piece {
            b1.bitboard(q)@.insert(m.to.index())
        } else {
            b1.bitboard(q)@
        }));
    }
}

/// Where the pieces stand after the second step of a move, in a position
/// in which no square holds two pieces of the opponent: a capture clears the
/// square moved to of the opponent's pieces.
pub proof fn lemma_step_capture(board: Board, m: Move)
    requires
        forall|p: Piece, q: Piece|
            p != q && p.color == q.color ==> board.bitboard(p)@.disjoint(board.bitboard(q)@),
    ensures
        forall|q: Piece|
            #[trigger] board.step_capture(m).bitboard(q)@ == (if m.capture && q.color
                == board.side_to_move.other() {
                board.bitboard(q)@.remove(m.to.index())
            } else {
                board.bitboard(q)@
            }),
{
    lemma_square_at_index();
    let opponent = board.side_to_move.other();
    let to = m.to.index();
    if m.capture {
        match board.victim(opponent, to) {
            Some(kind) => {
                let v = Piece { kind, color: opponent };
                lemma_lifted(board, v, to);
                assert forall|q: Piece|
                    #[trigger] board.step_capture(m).bitboard(q)@ == (if q.color == opponent {
                        board.bitboard(q)@.remove(to)
                    } else {
                        board.bitboard(q)@
                    }) by {
                    let b1 = board.lifted(v, to);
                    assert(board.step_capture(m).bitboard(q) == b1.bitboard(q));
                    assert(b1.bitboard(q)@ == (if q == v {
                        board.bitboard(q)@.remove(to)
                    } else {
                        board.bitboard(q)@
                    }));
                    if q.color == opponent && q != v {
                        assert(board.bitboard(v)@.disjoint(board.bitboard(q)@));
                        assert(board.bitboard(v)@.contains(to));
                        assert(board.bitboard(q)@.remove(to) =~= board.bitboard(q)@);
                    }
                }
            },
            None => {
                assert forall|q: Piece|
                    #[trigger] board.step_capture(m).bitboard(q)@ == (if q.color == opponent {
                        board.bitboard(q)@.remove(to)
                    } else {
                        board.bitboard(q)@
                    }) by {
                    if q.color == opponent {
                        assert(!board.squares_of(q.kind, opponent).contains(to));
                        assert(board.bitboard(q)@.remove(to) =~= board.bitboard(q)@);
                    }
                }
            },
        }
    }
}

/// Where the pieces stand after the third step of a move of the right shape.
pub proof fn lemma_step_special(board: Board, m: Move)
    requires
        m.special == Some(SpecialMove::EnPassant) ==> 0 <= board.behind(m.to) < 64,
        m.special != Some(SpecialMove::Promotion(PieceKind::Pawn)),
        m.special == Some(SpecialMove::Castle) ==> (match board.side_to_move {
            Color::White => m.to == Square::G1 || m.to == Square::C1,
            Color::Black => m.to == Square::G8 || m.to == Square::C8,
        }),
    ensures
        forall|q: Piece|
            #[trigger] board.step_special(m).bitboard(q)@ == (match m.special {
                Some(SpecialMove::EnPassant) => if q == (Piece {
                    kind: PieceKind::Pawn,
                    color: board.side_to_move.other(),
                }) {
                    board.bitboard(q)@.remove(board.behind(m.to))
                } else {
                    board.bitboard(q)@
                },
                Some(SpecialMove::Promotion(kind)) => if q == (Piece {
                    kind: PieceKind::Pawn,
                    color: board.side_to_move,
                }) {
                    board.bitboard(q)@.remove(m.to.index())
                } else if q == (Piece { kind, color: board.side_to_move }) {
                    board.bitboard(q)@.insert(m.to.index())
                } else {
                    board.bitboard(q)@
                },
                Some(SpecialMove::Castle) => if q == (Piece {
                    kind: PieceKind::Rook,
                    color: board.side_to_move,
                }) {
                    board.bitboard(q)@.remove(rook_corner(m.to).index()).insert(
                        rook_landing(m.to).index(),
                    )
                } else {
                    board.bitboard(q)@
                },
                _ => board.bitboard(q)@,
            }),
        board.step_special(m).en_passant == (if m.special == Some(SpecialMove::DoublePawnPush) {
            Some(Square::at(board.behind(m.to)))
        } else {
            board.en_passant
        }),
{
    lemma_square_at_index();
    let side = board.side_to_move;
    let after = board.step_special(m);
    match m.special {
        Some(SpecialMove::EnPassant) => {
            let pawn = Piece { kind: PieceKind::Pawn, color: side.other() };
            lemma_lifted(board, pawn, board.behind(m.to));
            assert forall|q: Piece|
                #[trigger] after.bitboard(q)@ == (if q == pawn {
                    board.bitboard(q)@.remove(board.behind(m.to))
                } else {
                    board.bitboard(q)@
                }) by {
                assert(after.bitboard(q) == board.lifted(pawn, board.behind(m.to)).bitboard(q));
            }
        },
        Some(SpecialMove::Promotion(kind)) => {
            let pawn = Piece { kind: PieceKind::Pawn, color: side };
            let grown = Piece { kind, color: side };
            let b1 = board.lifted(pawn, m.to.index());
            let b2 = b1.placed(grown, m.to.index());
            lemma_lifted(board, pawn, m.to.index());
            lemma_placed(b1, grown, m.to.index());
            assert forall|q: Piece|
                #[trigger] after.bitboard(q)@ == (if q == pawn {
                    board.bitboard(q)@.remove(m.to.index())
                } else if q == grown {
                    board.bitboard(q)@.insert(m.to.index())
                } else {
                    board.bitboard(q)@
                }) by {
                assert(after.bitboard(q) == b2.bitboard(q));
                assert(b2.bitboard(q)@ == (if q == grown {
                    b1.bitboard(q)@.insert(m.to.index())
                } else {
                    b1.bitboard(q)@
                }));
            }
        },
        Some(SpecialMove::Castle) => {
            let rook = Piece { kind: PieceKind::Rook, color: side };
            let b1 = board.lifted(rook, rook_corner(m.to).index());
            let b2 = b1.placed(rook, rook_landing(m.to).index());
            lemma_lifted(board, rook, rook_corner(m.to).index());
            lemma_placed(b1, rook, rook_landing(m.to).index());
            assert forall|q: Piece|
                #[trigger] after.bitboard(q)@ == (if q == rook {
                    board.bitboard(q)@.remove(rook_corner(m.to).index()).insert(
                        rook_landing(m.to).index(),
                    )
                } else {
                    board.bitboard(q)@
                }) by {
                assert(after.bitboard(q) == b2.bitboard(q));
                assert(b2.bitboard(q)@ == (if q == rook {
                    b1.bitboard(q)@.insert(rook_landing(m.to).index())
                } else {
                    b1.bitboard(q)@
                }));
            }
        },
        _ => {},
    }
}

/// The corner from which the rook comes in a castling move to `to`.
pub open spec fn rook_corner(to: Square) -> Square {
    if to == Square::G1 {
        Square::H1
    } else if to == Square::C1 {
        Square::A1
    } else if to == Square::G8 {
        Square::H8
    } else {
        Square::A8
    }
}

/// The squares of the piece `q` after a move: the moved piece has changed
/// squares, a capture has cleared the square moved to of the opponent's
/// pieces, and the special kind of the move has done the rest.
pub open spec fn after_squares(board: Board, m: Move, q: Piece) -> Set<int> {
    let side = board.side_to_move;
    let from = m.from.index();
    let to = m.to.index();
    let shifted = if q == m.piece {
        board.bitboard(q)@.remove(from).insert(to)
    } else {
        board.bitboard(q)@
    };
    let taken = if m.capture && q.color == side.other() {
        shifted.remove(to)
    } else {
        shifted
    };
    match m.special {
        Some(SpecialMove::EnPassant) => if q == (Piece {
            kind: PieceKind::Pawn,
            color: side.other(),
        }) {
            taken.remove(board.behind(m.to))
        } else {
            taken
        },
        Some(SpecialMove::Promotion(kind)) => if q == (Piece {
            kind: PieceKind::Pawn,
            color: side,
        }) {
            taken.remove(to)
        } else if q == (Piece { kind, color: side }) {
            taken.insert(to)
        } else {
            taken
        },
        Some(SpecialMove::Castle) => if q == (Piece { kind: PieceKind::Rook, color: side }) {
            taken.remove(rook_corner(m.to).index()).insert(rook_landing(m.to).index())
        } else {
            taken
        },
        _ => taken,
    }
}

/// In a well-formed position no piece but the one that moves, and the one
/// that is taken, stands on the square that a sound move goes to; nor does
/// any stand on the square passed in a double push or on the square where
/// the rook lands in castling.
proof fn lemma_target_free(board: Board, m: Move, q: Piece)
    requires
        board.wf(),
        sound(board, m),
    ensures
        q.color == board.side_to_move ==> !board.bitboard(q)@.contains(m.to.index()),
        !m.capture || m.special == Some(SpecialMove::EnPassant) ==> !board.bitboard(q)@.contains(
            m.to.index(),
        ),
        m.special == Some(SpecialMove::DoublePawnPush) ==> !board.bitboard(q)@.contains(
            m.from.index() + forward(board.side_to_move),
        ),
        m.special == Some(SpecialMove::Castle) ==> !board.bitboard(q)@.contains(
            rook_landing(m.to).index(),
        ),
{
    lemma_occupancy_members(board);
    lemma_colours_disjoint(board);
    lemma_square_at_index();
    let side = board.side_to_move;
    let to = m.to.index();
    if board.bitboard(q)@.contains(to) {
        assert(board.squares_of(q.kind, q.color).contains(to));
        assert(board.occupancy(q.color)@.contains(to));
        if m.capture && m.special != Some(SpecialMove::EnPassant) && q.color == side {
            assert(!board.occupancy(side)@.contains(to));
        }
    }
    let over = m.from.index() + forward(side);
    if board.bitboard(q)@.contains(over) {
        assert(board.squares_of(q.kind, q.color).contains(over));
        assert(board.occupancy(q.color)@.contains(over));
    }
    let landing = rook_landing(m.to).index();
    if board.bitboard(q)@.contains(landing) {
        assert(board.squares_of(q.kind, q.color).contains(landing));
        assert(board.occupancy(q.color)@.contains(landing));
    }
}

/// Where the pieces stand after a sound move in a well-formed position.
pub proof fn lemma_moved_squares(board: Board, m: Move)
    requires
        board.wf(),
        sound(board, m),
    ensures
        forall|q: Piece| #[trigger] board.moved(m).bitboard(q)@ == after_squares(board, m, q),
        board.moved(m).occupancy_consistent(),
        board.moved(m).en_passant == (if m.special == Some(SpecialMove::DoublePawnPush) {
            Some(Square::at(m.from.index() + forward(board.side_to_move)))
        } else {
            None
        }),
{
    reveal(Board::moved);
    let side = board.side_to_move;
    lemma_square_at_index();
    lemma_pawn_reach(side, m.from.index());
    let b1 = board.step_shift(m);
    let b2 = b1.step_capture(m);
    let b3 = b2.step_special(m);
    lemma_step_shift(board, m);
    assert forall|p: Piece, q: Piece| p != q && p.color == q.color implies b1.bitboard(
        p,
    )@.disjoint(b1.bitboard(q)@) by {
        assert(board.bitboard(p)@.disjoint(board.bitboard(q)@));
        lemma_target_free(board, m, p);
        lemma_target_free(board, m, q);
    }
    lemma_step_capture(b1, m);
    lemma_step_special(b2, m);
    assert forall|q: Piece| #[trigger] board.moved(m).bitboard(q)@ == after_squares(
        board,
        m,
        q,
    ) by {
        assert(board.moved(m).bitboard(q) == b3.bitboard(q));
    }
    crate::board::lemma_occupancy_rebuild_idempotent(b3.step_rights(m));
}

/// After a sound move in a well-formed position no square holds two pieces.
proof fn lemma_after_squares_disjoint(board: Board, m: Move, p: Piece, q: Piece)
    requires
        board.wf(),
        sound(board, m),
        p != q,
    ensures
        after_squares(board, m, p).disjoint(after_squares(board, m, q)),
{
    assert(board.bitboard(p)@.disjoint(board.bitboard(q)@));
    lemma_target_free(board, m, p);
    lemma_target_free(board, m, q);
    lemma_square_at_index();
    assert forall|i: int|
        !(after_squares(board, m, p).contains(i) && after_squares(board, m, q).contains(i)) by {
        assert(!(board.bitboard(p)@.contains(i) && board.bitboard(q)@.contains(i)));
    }
}

/// A move in keeping with a well-formed position leaves a well-formed
/// position: the occupancy is that of the pieces, no square holds two
/// pieces, so none belongs to both colours, and the en-passant square, set
/// by a double push alone, is empty.
pub proof fn lemma_move_keeps_wf(board: Board, m: Move)
    requires
        board.wf(),
        sound(board, m),
    ensures
        board.moved(m).wf(),
        board.after_move(m).wf(),
        board.after_move(m).w_occ@.disjoint(board.after_move(m).b_occ@),
{
    let side = board.side_to_move;
    let nb = board.moved(m);
    lemma_moved_squares(board, m);
    assert forall|p: Piece, q: Piece| p != q implies nb.bitboard(p)@.disjoint(
        nb.bitboard(q)@,
    ) by {
        lemma_after_squares_disjoint(board, m, p, q);
    }
    lemma_occupancy_members(nb);
    lemma_square_at_index();
    if nb.en_passant is Some {
        let e = m.from.index() + forward(side);
        if nb.occ@.contains(e) {
            let c = if nb.w_occ@.contains(e) {
                Color::White
            } else {
                Color::Black
            };
            assert(nb.occupancy(c)@.contains(e));
            let kind = choose|kind: PieceKind| nb.squares_of(kind, c).contains(e);
            let q = Piece { kind, color: c };
            assert(nb.bitboard(q)@.contains(e));
            lemma_target_free(board, m, q);
        }
    }
    let ab = board.after_move(m);
    assert forall|q: Piece| ab.bitboard(q) == nb.bitboard(q) by {}
    assert(ab.wf());
    lemma_colours_disjoint(ab);
}

/// Every move of the run is pseudo-legal where it is made and leaves the
/// mover's king safe, so that `make_move` applies it with success.
pub open spec fn all_succeed(board: Board, moves: Seq<Move>) -> bool
    decreases moves.len(),
{
    moves.len() == 0 || {
        let before = played(board, moves.drop_last());
        &&& all_succeed(board, moves.drop_last())
        &&& pseudo_legal(before).contains(moves.last())
        &&& before.keeps_king_safe(moves.last())
    }
}

/// After any run of successful moves from a well-formed position the
/// position is well formed: all pieces are the white and the black ones
/// together, and no square belongs to both colours.
pub proof fn lemma_play_keeps_wf(board: Board, moves: Seq<Move>)
    requires
        board.wf(),
        all_succeed(board, moves),
    ensures
        played(board, moves).wf(),
        played(board, moves).occ.0 == played(board, moves).w_occ.0 | played(board, moves).b_occ.0,
        played(board, moves).w_occ.0 & played(board, moves).b_occ.0 == 0,
    decreases moves.len(),
{
    if moves.len() > 0 {
        let before = played(board, moves.drop_last());
        lemma_play_keeps_wf(board, moves.drop_last());
        lemma_pseudo_legal_sound(before, moves.last());
        lemma_move_keeps_wf(before, moves.last());
    }
    let after = played(board, moves);
    lemma_colours_disjoint(after);
    lemma_and_nonzero(after.w_occ.0, after.b_occ.0);
}

/// A capture other than a castling move goes to a square that the side to
/// move attacks.
pub proof fn lemma_capture_attacks(board: Board, m: Move)
    requires
        sound(board, m),
        m.capture,
    ensures
        attacks_square(board, m.to.index(), board.side_to_move),
{
    let side = board.side_to_move;
    let from = m.from.index();
    assert(board.squares_of(m.piece.kind, side).contains(from));
    assert(kind_reach(m.piece.kind, side, from, board.occ@).contains(m.to.index()));
}

/// Whose turn it is does not matter to which squares are attacked.
pub proof fn lemma_attacks_ignore_turn(board: Board, turn: Color, sq: int, by: Color)
    ensures
        attacks_square(Board { side_to_move: turn, ..board }, sq, by) == attacks_square(
            board,
            sq,
            by,
        ),
{
    let other = Board { side_to_move: turn, ..board };
    assert forall|kind: PieceKind| other.squares_of(kind, by) == board.squares_of(kind, by) by {}
    assert(other.occ == board.occ);
}

/// A legal move in a regular position leaves a regular position: a game
/// stays among the positions in which both sides have a king and the side
/// that has moved is not in check.
pub proof fn lemma_legal_keeps_regular(board: Board, m: Move)
    requires
        board.regular(),
        legal(board).contains(m),
    ensures
        board.playable(m),
        board.after_move(m).regular(),
        board.after_move(m).side_to_move == board.side_to_move.other(),
{
    let side = board.side_to_move;
    let foe = side.other();
    lemma_legal_subset(board, m);
    lemma_pseudo_legal_sound(board, m);
    lemma_shaped_playable(board, m);
    lemma_move_keeps_wf(board, m);
    let nb = board.moved(m);
    let ab = board.after_move(m);
    lemma_attacks_ignore_turn(nb, foe, nb.king_square(side), foe);
    assert(ab.bitboard(Piece { kind: PieceKind::King, color: side }) == nb.bitboard(
        Piece { kind: PieceKind::King, color: side },
    ));
    let king = Piece { kind: PieceKind::King, color: foe };
    let home = board.king_square(foe);
    lemma_lowest(board.bitboard(king).0);
    lemma_moved_squares(board, m);
    assert(ab.bitboard(king) == nb.bitboard(king));
    if m.capture && m.to.index() == home {
        lemma_capture_attacks(board, m);
    }
    assert(nb.bitboard(king)@ == after_squares(board, m, king));
    assert(ab.bitboard(king)@.contains(home));
    lemma_zero_iff_empty(ab.bitboard(king).0);
}

/// The side that a castling right belongs to.
pub open spec fn castle_side(right: Castle) -> Color {
    match right {
        Castle::WhiteKing | Castle::WhiteQueen => Color::White,
        Castle::BlackKing | Castle::BlackQueen => Color::Black,
    }
}

/// The castling move by a right: the king goes from its home to the second
/// square of the path.
pub open spec fn castle_move(right: Castle) -> Move {
    Move {
        from: king_home(castle_side(right)),
        to: castle_path(right)[1],
        piece: Piece { kind: PieceKind::King, color: castle_side(right) },
        capture: false,
        special: Some(SpecialMove::Castle),
    }
}

/// A move of one of two lists is a move of the two put together.
pub proof fn lemma_member_concat(a: Seq<Move>, b: Seq<Move>, m: Move)
    requires
        a.contains(m) || b.contains(m),
    ensures
        (a + b).contains(m),
{
    if a.contains(m) {
        let k = choose|k: int| 0 <= k < a.len() && a[k] == m;
        assert((a + b)[k] == m);
    } else {
        let k = choose|k: int| 0 <= k < b.len() && b[k] == m;
        assert((a + b)[a.len() + k] == m);
    }
}

/// Castling is among the pseudo-legal moves exactly when it is allowed:
/// when the right is held, the king's square and the two squares it passes
/// over are not attacked, and the squares between king and rook are empty.
/// It is among the legal moves when, besides, it leaves the king safe.
pub proof fn lemma_castling_listed(board: Board, right: Castle)
    requires
        board.side_to_move == castle_side(right),
    ensures
        pseudo_legal(board).contains(castle_move(right)) <==> castle_allowed(
            board,
            right,
            castle_path(right),
            castle_side(right),
        ),
        legal(board).contains(castle_move(right)) <==> castle_allowed(
            board,
            right,
            castle_path(right),
            castle_side(right),
        ) && board.keeps_king_safe(castle_move(right)),
{
    reveal(pseudo_legal);
    let side = board.side_to_move;
    let mv = castle_move(right);
    let p = moves_of_kind(board, PieceKind::Pawn);
    let c = castling_of(board, side);
    let n = moves_of_kind(board, PieceKind::Horse);
    let k = moves_of_kind(board, PieceKind::King);
    let b = moves_of_kind(board, PieceKind::Bishop);
    let r = moves_of_kind(board, PieceKind::Rook);
    let q = moves_of_kind(board, PieceKind::Queen);
    let (near, far) = match side {
        Color::White => (Castle::WhiteKing, Castle::WhiteQueen),
        Color::Black => (Castle::BlackKing, Castle::BlackQueen),
    };
    let a1 = castle_moves(board, near, castle_path(near), side);
    let a2 = castle_moves(board, far, castle_path(far), side);
    assert(c == a1 + a2);
    if castle_allowed(board, right, castle_path(right), side) {
        let one = castle_moves(board, right, castle_path(right), side);
        assert(one[0] == mv);
        assert(one.contains(mv));
        lemma_member_concat(a1, a2, mv);
        lemma_member_concat(p, c, mv);
        lemma_member_concat(p + c, n, mv);
        lemma_member_concat(p + c + n, k, mv);
        lemma_member_concat(p + c + n + k, b, mv);
        lemma_member_concat(p + c + n + k + b, r, mv);
        lemma_member_concat(p + c + n + k + b + r, q, mv);
    }
    if pseudo_legal(board).contains(mv) {
        lemma_concat_member(p + c + n + k + b + r, q, mv);
        if q.contains(mv) {
            lemma_kind_sound(board, PieceKind::Queen, mv);
        }
        lemma_concat_member(p + c + n + k + b, r, mv);
        if r.contains(mv) {
            lemma_kind_sound(board, PieceKind::Rook, mv);
        }
        lemma_concat_member(p + c + n + k, b, mv);
        if b.contains(mv) {
            lemma_kind_sound(board, PieceKind::Bishop, mv);
        }
        lemma_concat_member(p + c + n, k, mv);
        if k.contains(mv) {
            lemma_kind_sound(board, PieceKind::King, mv);
        }
        lemma_concat_member(p + c, n, mv);
        if n.contains(mv) {
            lemma_kind_sound(board, PieceKind::Horse, mv);
        }
        lemma_concat_member(p, c, mv);
        if p.contains(mv) {
            lemma_kind_sound(board, PieceKind::Pawn, mv);
        }
        assert(c.contains(mv));
        lemma_concat_member(a1, a2, mv);
        if a1.contains(mv) {
            let i = choose|i: int| 0 <= i < a1.len() && a1[i] == mv;
            assert(a1[0] == mv);
        }
        if a2.contains(mv) {
            let i = choose|i: int| 0 <= i < a2.len() && a2[i] == mv;
            assert(a2[0] == mv);
        }
    }
    lemma_legal_subset(board, mv);
}

} // verus!
