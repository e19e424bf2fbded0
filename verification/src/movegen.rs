//! Moves, the squares a side attacks, and the generation of moves.
use crate::bitboard::{lemma_rank_3_and_6, BitBoard, RANK_3, RANK_6};
use crate::bitboardindex::BitBoardIdx;
use crate::bits::{
    bit, drop_lowest, lemma_and_nonzero, lemma_bit_and, lemma_bit_and_not, lemma_bit_or,
    lemma_bit_shl, lemma_bit_shr, lemma_bit_single, lemma_bit_zero, lemma_lowest, lowest, squares,
};
use crate::board::{Board, Castle};
use crate::movegen::geometry::{
    bishop_reach, king_reach, knight_reach, lemma_reach_symmetric, on_board, pawn_reach,
    queen_reach, rank_of, rook_reach,
};
use crate::movegen::precalc::{slider_reach, Precalc};
use crate::movegen::rules::lemma_pseudo_legal_playable;
use crate::piece::{Color, Piece, PieceKind};
use crate::square::Square;
use vstd::prelude::*;

pub mod geometry;
pub mod magic;
pub mod precalc;
pub mod rules;

verus! {

/// What a move does besides taking a piece from one square to another.
#[derive(Debug, Clone, Copy, PartialEq, Eq, Structural)]
pub enum SpecialMove {
    Promotion(PieceKind),
    EnPassant,
    DoublePawnPush,
    Castle,
}

/// A move: which piece goes from where to where, whether it captures, and
/// what else it does.
#[derive(Debug, Clone, Copy, PartialEq, Eq, Structural)]
pub struct Move {
    pub from: Square,
    pub to: Square,
    pub piece: Piece,
    pub capture: bool,
    pub special: Option<SpecialMove>,
}

impl Move {
    /// A move with the given parts.
    pub fn new(
        from: Square,
        to: Square,
        piece: Piece,
        capture: bool,
        special: Option<SpecialMove>,
    ) -> (m: Move)
        ensures
            m == (Move { from, to, piece, capture, special }),
    {
        Move { from, to, piece, capture, special }
    }
}

/// Some piece of `side` attacks the square `sq`: it stands where its kind
/// reaches `sq`, sliders with respect to all the pieces on the board.
pub open spec fn attacks_square(board: Board, sq: int, side: Color) -> bool {
    ||| exists|t: int|
        board.squares_of(PieceKind::Pawn, side).contains(t) && pawn_reach(side, t).contains(sq)
    ||| exists|t: int|
        board.squares_of(PieceKind::Horse, side).contains(t) && knight_reach(t).contains(sq)
    ||| exists|t: int|
        board.squares_of(PieceKind::King, side).contains(t) && king_reach(t).contains(sq)
    ||| exists|t: int|
        board.squares_of(PieceKind::Bishop, side).contains(t) && bishop_reach(
            t,
            board.occ@,
        ).contains(sq)
    ||| exists|t: int|
        board.squares_of(PieceKind::Rook, side).contains(t) && rook_reach(t, board.occ@).contains(sq)
    ||| exists|t: int|
        board.squares_of(PieceKind::Queen, side).contains(t) && queen_reach(
            t,
            board.occ@,
        ).contains(sq)
}

/// Whether a piece of `pieces` stands on a square of `reach`, where `reach`
/// holds the squares from which `sq` is attacked.
fn meets(reach: BitBoard, pieces: BitBoard) -> (r: bool)
    ensures
        r == exists|t: int| pieces@.contains(t) && reach@.contains(t),
{
    proof {
        lemma_and_nonzero(reach.0, pieces.0);
        if reach.0 & pieces.0 != 0 {
            let t = choose|t: int| bit(reach.0, t) && bit(pieces.0, t);
            assert(pieces@.contains(t) && reach@.contains(t));
        } else {
            assert forall|t: int| !(pieces@.contains(t) && reach@.contains(t)) by {
                assert(!(bit(reach.0, t) && bit(pieces.0, t)));
            }
        }
    }
    reach.0 & pieces.0 != 0
}

/// With attack running both ways, a piece stands where `sq` is reached from
/// exactly when a piece reaches `sq`.
proof fn lemma_meets_symmetric(
    pieces: Set<int>,
    from_sq: Set<int>,
    reach_of: spec_fn(int) -> Set<int>,
    sq: int,
)
    requires
        forall|t: int| pieces.contains(t) ==> from_sq.contains(t) == reach_of(t).contains(sq),
    ensures
        (exists|t: int| pieces.contains(t) && from_sq.contains(t)) == (exists|t: int|
            pieces.contains(t) && reach_of(t).contains(sq)),
{
    if exists|t: int| pieces.contains(t) && from_sq.contains(t) {
        let t = choose|t: int| pieces.contains(t) && from_sq.contains(t);
        assert(pieces.contains(t) && reach_of(t).contains(sq));
    }
    if exists|t: int| pieces.contains(t) && reach_of(t).contains(sq) {
        let t = choose|t: int| pieces.contains(t) && reach_of(t).contains(sq);
        assert(pieces.contains(t) && from_sq.contains(t));
    }
}

/// Whether `side` attacks `square`.
pub fn square_attacked(board: &Board, square: impl BitBoardIdx, side: Color, pre: &Precalc) -> (r:
    bool)
    requires
        pre.wf(),
        square.representable(),
        0 <= square.index() < 64,
    ensures
        r == attacks_square(*board, square.index(), side),
{
    let ghost sq = square.index();
    let s = square.idx_usize();
    let ghost occ = board.occ@;
    proof {
        assert forall|t: int| on_board(t) implies {
            &&& knight_reach(sq).contains(t) == knight_reach(t).contains(sq)
            &&& king_reach(sq).contains(t) == king_reach(t).contains(sq)
            &&& pawn_reach(side.other(), sq).contains(t) == pawn_reach(side, t).contains(sq)
            &&& rook_reach(sq, occ).contains(t) == rook_reach(t, occ).contains(sq)
            &&& bishop_reach(sq, occ).contains(t) == bishop_reach(t, occ).contains(sq)
            &&& queen_reach(sq, occ).contains(t) == queen_reach(t, occ).contains(sq)
        } by {
            lemma_reach_symmetric(sq, t, occ);
        }
        lemma_meets_symmetric(
            board.squares_of(PieceKind::Pawn, side),
            pawn_reach(side.other(), sq),
            |t: int| pawn_reach(side, t),
            sq,
        );
        lemma_meets_symmetric(
            board.squares_of(PieceKind::Horse, side),
            knight_reach(sq),
            |t: int| knight_reach(t),
            sq,
        );
        lemma_meets_symmetric(
            board.squares_of(PieceKind::King, side),
            king_reach(sq),
            |t: int| king_reach(t),
            sq,
        );
        lemma_meets_symmetric(
            board.squares_of(PieceKind::Bishop, side),
            bishop_reach(sq, occ),
            |t: int| bishop_reach(t, occ),
            sq,
        );
        lemma_meets_symmetric(
            board.squares_of(PieceKind::Rook, side),
            rook_reach(sq, occ),
            |t: int| rook_reach(t, occ),
            sq,
        );
        lemma_meets_symmetric(
            board.squares_of(PieceKind::Queen, side),
            queen_reach(sq, occ),
            |t: int| queen_reach(t, occ),
            sq,
        );
    }
    if side == Color::White {
        if meets(pre.pawns[s][1], board.w_pawn) {
            return true;
        }
    } else if meets(pre.pawns[s][0], board.b_pawn) {
        return true;
    }
    let boards = match side {
        Color::White => (board.w_knight, board.w_king, board.w_bishop, board.w_rook, board.w_queen),
        Color::Black => (board.b_knight, board.b_king, board.b_bishop, board.b_rook, board.b_queen),
    };

    if meets(pre.knight[s], boards.0) {
        return true;
    }
    if meets(pre.king[s], boards.1) {
        return true;
    }
    if meets(pre.bishop_attack(s, board.occ), boards.2) {
        return true;
    }
    if meets(pre.rook_attack(s, board.occ), boards.3) {
        return true;
    }
    if meets(pre.queen_attack(s, board.occ), boards.4) {
        return true;
    }
    false
}

/// The squares that `side` attacks.
pub fn attacked_suares(board: &Board, side: Color, pre: &Precalc) -> (bb: BitBoard)
    requires
        pre.wf(),
    ensures
        bb@ == Set::new(|s: int| on_board(s) && attacks_square(*board, s, side)),
{
    let mut bb = BitBoard(0);
    let mut square: u64 = 0;
    proof {
        lemma_bit_zero();
    }
    while square < 64
        invariant
            pre.wf(),
            square <= 64,
            bb@ == Set::new(|s: int| 0 <= s < square && attacks_square(*board, s, side)),
        decreases 64 - square,
    {
        if square_attacked(board, square, side, pre) {
            bb.set(square);
        }
        square += 1;
        assert(bb@ =~= Set::new(|s: int| 0 <= s < square && attacks_square(*board, s, side)));
    }
    assert(bb@ =~= Set::new(|s: int| on_board(s) && attacks_square(*board, s, side)));
    bb
}

/// The moves `emit(i)` for the squares `i` of `set` from `lo` on, in
/// ascending order of square.
pub open spec fn gather(set: Set<int>, emit: spec_fn(int) -> Seq<Move>, lo: int) -> Seq<Move>
    decreases 64 - lo,
{
    if lo >= 64 {
        Seq::empty()
    } else if set.contains(lo) {
        emit(lo) + gather(set, emit, lo + 1)
    } else {
        gather(set, emit, lo + 1)
    }
}

/// Squares that are not in the set add nothing.
pub proof fn lemma_gather_skip(set: Set<int>, emit: spec_fn(int) -> Seq<Move>, lo: int, hi: int)
    requires
        lo <= hi,
        forall|i: int| lo <= i < hi ==> !set.contains(i),
    ensures
        gather(set, emit, lo) == gather(set, emit, hi),
    decreases hi - lo,
{
    if lo < hi {
        lemma_gather_skip(set, emit, lo + 1, hi);
        if lo >= 64 {
            lemma_gather_past(set, emit, hi);
        }
    }
}

/// Past the last square nothing is gathered.
pub proof fn lemma_gather_past(set: Set<int>, emit: spec_fn(int) -> Seq<Move>, lo: int)
    requires
        lo >= 64,
    ensures
        gather(set, emit, lo) == Seq::<Move>::empty(),
{
}

/// Only the squares from `lo` on matter.
pub proof fn lemma_gather_agree(
    a: Set<int>,
    b: Set<int>,
    emit: spec_fn(int) -> Seq<Move>,
    lo: int,
)
    requires
        forall|i: int| lo <= i < 64 ==> a.contains(i) == b.contains(i),
    ensures
        gather(a, emit, lo) == gather(b, emit, lo),
    decreases 64 - lo,
{
    if lo < 64 {
        lemma_gather_agree(a, b, emit, lo + 1);
    }
}

/// Gathering over the squares of a word: first its lowest square, then the
/// rest. This is one turn of a loop that takes the lowest bit off a word.
pub proof fn lemma_gather_pop(x: u64, emit: spec_fn(int) -> Seq<Move>)
    ensures
        x == 0 ==> gather(squares(x), emit, 0) == Seq::<Move>::empty(),
        x != 0 ==> gather(squares(x), emit, 0) == emit(lowest(x)) + gather(
            squares(drop_lowest(x)),
            emit,
            0,
        ),
{
    if x == 0 {
        lemma_bit_zero();
        lemma_gather_skip(squares(x), emit, 0, 64);
    } else {
        lemma_lowest(x);
        let t = lowest(x);
        let rest = squares(drop_lowest(x));
        lemma_gather_skip(squares(x), emit, 0, t);
        lemma_gather_agree(squares(x), rest, emit, t + 1);
        lemma_gather_skip(rest, emit, 0, t + 1);
    }
}

/// Every gathered move comes from some square of the set.
pub proof fn lemma_gather_member(
    set: Set<int>,
    emit: spec_fn(int) -> Seq<Move>,
    lo: int,
    m: Move,
)
    requires
        gather(set, emit, lo).contains(m),
    ensures
        exists|i: int| lo <= i < 64 && set.contains(i) && #[trigger] emit(i).contains(m),
    decreases 64 - lo,
{
    if lo < 64 {
        if set.contains(lo) {
            let head = emit(lo);
            let tail = gather(set, emit, lo + 1);
            let k = choose|k: int| 0 <= k < (head + tail).len() && (head + tail)[k] == m;
            if k < head.len() {
                assert(head[k] == m);
                assert(emit(lo).contains(m));
            } else {
                assert(tail[k - head.len()] == m);
                lemma_gather_member(set, emit, lo + 1, m);
            }
        } else {
            lemma_gather_member(set, emit, lo + 1, m);
        }
    }
}

/// An ordinary move of `piece` from `from` to each square.
pub open spec fn plain_move(piece: Piece, from: int, capture: bool) -> spec_fn(int) -> Seq<Move> {
    |to: int|
        seq![Move { from: Square::at(from), to: Square::at(to), piece, capture, special: None }]
}

/// The moves of a piece on `from` that reaches `reach`: to its free squares
/// first, then its captures, each in ascending order of the square moved to.
/// Squares held by its own side are left out.
pub open spec fn piece_moves(
    piece: Piece,
    from: int,
    reach: Set<int>,
    own: Set<int>,
    enemy: Set<int>,
) -> Seq<Move> {
    gather(reach.difference(own).difference(enemy), plain_move(piece, from, false), 0) + gather(
        reach.difference(own).intersect(enemy),
        plain_move(piece, from, true),
        0,
    )
}

/// The moves of a knight, by the square it stands on.
pub open spec fn knight_moves_from(piece: Piece, own: Set<int>, enemy: Set<int>) -> spec_fn(
    int,
) -> Seq<Move> {
    |from: int| piece_moves(piece, from, knight_reach(from), own, enemy)
}

/// The moves of a king, castling apart, by the square it stands on.
pub open spec fn king_moves_from(piece: Piece, own: Set<int>, enemy: Set<int>) -> spec_fn(
    int,
) -> Seq<Move> {
    |from: int| piece_moves(piece, from, king_reach(from), own, enemy)
}

/// The moves of a slider, as a rook for `rook` and as a bishop otherwise,
/// with `occ` standing in its way.
pub open spec fn slider_moves_from(
    rook: bool,
    piece: Piece,
    occ: Set<int>,
    own: Set<int>,
    enemy: Set<int>,
) -> spec_fn(int) -> Seq<Move> {
    |from: int| piece_moves(piece, from, slider_reach(rook, from, occ), own, enemy)
}

/// Appends one move of `piece` from `from` to each square of `targets`.
fn push_plain(from: Square, piece: Piece, capture: bool, targets: BitBoard, vmoves: &mut Vec<Move>)
    ensures
        final(vmoves)@ == old(vmoves)@ + gather(
            targets@,
            plain_move(piece, from.index(), capture),
            0,
        ),
{
    let ghost before = vmoves@;
    let ghost emit = plain_move(piece, from.index(), capture);
    let mut rest = targets.0;
    while rest != 0
        invariant
            emit == plain_move(piece, from.index(), capture),
            before + gather(targets@, emit, 0) == vmoves@ + gather(squares(rest), emit, 0),
        decreases rest,
    {
        proof {
            lemma_lowest(rest);
            lemma_gather_pop(rest, emit);
        }
        let to = Square::from_index(rest.trailing_zeros() as u64);
        let ghost prior = vmoves@;
        let ghost tail = gather(squares(drop_lowest(rest)), emit, 0);
        vmoves.push(Move { from, to, capture, piece, special: None });
        proof {
            assert(emit(to.index()) =~= seq![
                Move { from, to, piece, capture, special: None },
            ]);
            assert(prior + (emit(to.index()) + tail) =~= vmoves@ + tail);
        }
        rest &= rest - 1;
    }
    proof {
        lemma_gather_pop(0, emit);
        assert(vmoves@ + Seq::<Move>::empty() =~= vmoves@);
    }
}

/// Appends the moves of one piece: to the free squares of its reach, then
/// its captures.
fn push_piece_moves(
    from: Square,
    piece: Piece,
    reach: BitBoard,
    own: BitBoard,
    enemy: BitBoard,
    vmoves: &mut Vec<Move>,
)
    ensures
        final(vmoves)@ == old(vmoves)@ + piece_moves(piece, from.index(), reach@, own@, enemy@),
{
    let open = BitBoard(reach.0 & !own.0);
    let attacks = BitBoard(open.0 & enemy.0);
    let moves = BitBoard(open.0 & !enemy.0);
    proof {
        lemma_bit_and_not(reach.0, own.0);
        lemma_bit_and_not(open.0, enemy.0);
        lemma_bit_and(open.0, enemy.0);
    }
    let ghost before = vmoves@;
    push_plain(from, piece, false, moves, vmoves);
    push_plain(from, piece, true, attacks, vmoves);
    proof {
        let quiet = gather(moves@, plain_move(piece, from.index(), false), 0);
        let takes = gather(attacks@, plain_move(piece, from.index(), true), 0);
        assert((before + quiet) + takes =~= before + (quiet + takes));
    }
}

/// Appends the moves of the pieces on `pieces`, square by square in
/// ascending order, where `gait` says how they move.
fn push_moves_of(
    board: &Board,
    pieces: BitBoard,
    piece: Piece,
    own: BitBoard,
    enemy: BitBoard,
    gait: Gait,
    vmoves: &mut Vec<Move>,
    pre: &Precalc,
)
    requires
        pre.wf(),
    ensures
        final(vmoves)@ == old(vmoves)@ + gather(
            pieces@,
            moves_from(gait, piece, board.occ@, own@, enemy@),
            0,
        ),
{
    let ghost before = vmoves@;
    let ghost emit = moves_from(gait, piece, board.occ@, own@, enemy@);
    let mut rest = pieces.0;
    while rest != 0
        invariant
            pre.wf(),
            emit == moves_from(gait, piece, board.occ@, own@, enemy@),
            before + gather(pieces@, emit, 0) == vmoves@ + gather(squares(rest), emit, 0),
        decreases rest,
    {
        proof {
            lemma_lowest(rest);
            lemma_gather_pop(rest, emit);
        }
        let from = Square::from_index(rest.trailing_zeros() as u64);
        let reach = match gait {
            Gait::Knight => pre.knight[from as usize],
            Gait::King => pre.king[from as usize],
            Gait::Bishop => pre.bishop_attack(from, board.occ),
            Gait::Rook => pre.rook_attack(from, board.occ),
        };
        let ghost prior = vmoves@;
        let ghost tail = gather(squares(drop_lowest(rest)), emit, 0);
        push_piece_moves(from, piece, reach, own, enemy, vmoves);
        proof {
            assert(prior + (emit(from.index()) + tail) =~= vmoves@ + tail);
        }
        rest &= rest - 1;
    }
    proof {
        lemma_gather_pop(0, emit);
        assert(vmoves@ + Seq::<Move>::empty() =~= vmoves@);
    }
}

/// The ways in which a piece other than a pawn moves. A queen moves both
/// as a rook and as a bishop.
#[derive(Debug, Clone, Copy, PartialEq, Eq, Structural)]
pub enum Gait {
    Knight,
    King,
    Bishop,
    Rook,
}

/// The moves from one square of a piece with the given gait.
pub open spec fn moves_from(
    gait: Gait,
    piece: Piece,
    occ: Set<int>,
    own: Set<int>,
    enemy: Set<int>,
) -> spec_fn(int) -> Seq<Move> {
    match gait {
        Gait::Knight => knight_moves_from(piece, own, enemy),
        Gait::King => king_moves_from(piece, own, enemy),
        Gait::Bishop => slider_moves_from(false, piece, occ, own, enemy),
        Gait::Rook => slider_moves_from(true, piece, occ, own, enemy),
    }
}

/// The moves of the knights on `knights`, which belong to the side to move:
/// `c_occ` are the squares of their own side, `o_occ` those of the other.
pub fn knight_moves(
    board: &Board,
    knights: BitBoard,
    c_occ: BitBoard,
    o_occ: BitBoard,
    vmoves: &mut Vec<Move>,
    pre: &Precalc,
)
    requires
        pre.wf(),
    ensures
        final(vmoves)@ == old(vmoves)@ + gather(
            knights@,
            knight_moves_from(
                Piece { kind: PieceKind::Horse, color: board.side_to_move },
                c_occ@,
                o_occ@,
            ),
            0,
        ),
{
    push_moves_of(
        board,
        knights,
        Piece::new(PieceKind::Horse, board.side_to_move),
        c_occ,
        o_occ,
        Gait::Knight,
        vmoves,
        pre,
    );
}

/// The moves of the kings on `king`, which belong to the side to move,
/// castling apart.
pub fn king_moves(
    board: &Board,
    king: BitBoard,
    c_occ: BitBoard,
    o_occ: BitBoard,
    vmoves: &mut Vec<Move>,
    pre: &Precalc,
)
    requires
        pre.wf(),
    ensures
        final(vmoves)@ == old(vmoves)@ + gather(
            king@,
            king_moves_from(
                Piece { kind: PieceKind::King, color: board.side_to_move },
                c_occ@,
                o_occ@,
            ),
            0,
        ),
{
    push_moves_of(
        board,
        king,
        Piece::new(PieceKind::King, board.side_to_move),
        c_occ,
        o_occ,
        Gait::King,
        vmoves,
        pre,
    );
}

/// The piece that a slider's moves are recorded for.
pub open spec fn slider_piece(board: Board, rook: bool, queen: bool) -> Piece {
    Piece {
        kind: if queen {
            PieceKind::Queen
        } else if rook {
            PieceKind::Rook
        } else {
            PieceKind::Bishop
        },
        color: board.side_to_move,
    }
}

/// The bishop moves of the pieces on `bishops`, which belong to the side to
/// move and are queens for `queen`; `o_occ` are the squares of the other side.
pub fn bishop_moves(
    board: &Board,
    bishops: BitBoard,
    o_occ: BitBoard,
    queen: bool,
    vmoves: &mut Vec<Move>,
    pre: &Precalc,
)
    requires
        pre.wf(),
    ensures
        final(vmoves)@ == old(vmoves)@ + gather(
            bishops@,
            slider_moves_from(
                false,
                slider_piece(*board, false, queen),
                board.occ@,
                board.occupancy(board.side_to_move)@,
                o_occ@,
            ),
            0,
        ),
{
    let kind = if queen {
        PieceKind::Queen
    } else {
        PieceKind::Bishop
    };
    let own = match board.side_to_move {
        Color::White => board.w_occ,
        Color::Black => board.b_occ,
    };
    push_moves_of(
        board,
        bishops,
        Piece::new(kind, board.side_to_move),
        own,
        o_occ,
        Gait::Bishop,
        vmoves,
        pre,
    );
}

/// The rook moves of the pieces on `rooks`, which belong to the side to move
/// and are queens for `queen`; `o_occ` are the squares of the other side.
pub fn rook_moves(
    board: &Board,
    rooks: BitBoard,
    o_occ: BitBoard,
    queen: bool,
    vmoves: &mut Vec<Move>,
    pre: &Precalc,
)
    requires
        pre.wf(),
    ensures
        final(vmoves)@ == old(vmoves)@ + gather(
            rooks@,
            slider_moves_from(
                true,
                slider_piece(*board, true, queen),
                board.occ@,
                board.occupancy(board.side_to_move)@,
                o_occ@,
            ),
            0,
        ),
{
    let kind = if queen {
        PieceKind::Queen
    } else {
        PieceKind::Rook
    };
    let own = match board.side_to_move {
        Color::White => board.w_occ,
        Color::Black => board.b_occ,
    };
    push_moves_of(
        board,
        rooks,
        Piece::new(kind, board.side_to_move),
        own,
        o_occ,
        Gait::Rook,
        vmoves,
        pre,
    );
}

/// The moves of the queens on `queens`: for all of them the moves along
/// files and ranks, then for all of them the moves along diagonals.
pub open spec fn queen_moves_of(board: Board, queens: Set<int>, enemy: Set<int>) -> Seq<Move> {
    gather(
        queens,
        slider_moves_from(
            true,
            slider_piece(board, true, true),
            board.occ@,
            board.occupancy(board.side_to_move)@,
            enemy,
        ),
        0,
    ) + gather(
        queens,
        slider_moves_from(
            false,
            slider_piece(board, false, true),
            board.occ@,
            board.occupancy(board.side_to_move)@,
            enemy,
        ),
        0,
    )
}

/// The moves of the queens on `queens`, which belong to the side to move.
pub fn queen_moves(
    board: &Board,
    queens: BitBoard,
    o_occ: BitBoard,
    vmoves: &mut Vec<Move>,
    pre: &Precalc,
)
    requires
        pre.wf(),
    ensures
        final(vmoves)@ == old(vmoves)@ + queen_moves_of(*board, queens@, o_occ@),
{
    let ghost before = vmoves@;
    rook_moves(board, queens, o_occ, true, vmoves, pre);
    bishop_moves(board, queens, o_occ, true, vmoves, pre);
    proof {
        let straight = gather(
            queens@,
            slider_moves_from(
                true,
                slider_piece(*board, true, true),
                board.occ@,
                board.occupancy(board.side_to_move)@,
                o_occ@,
            ),
            0,
        );
        let diagonal = gather(
            queens@,
            slider_moves_from(
                false,
                slider_piece(*board, false, true),
                board.occ@,
                board.occupancy(board.side_to_move)@,
                o_occ@,
            ),
            0,
        );
        assert((before + straight) + diagonal =~= before + (straight + diagonal));
    }
}

/// The rank on which a pawn of `color` promotes.
pub open spec fn last_rank(color: Color) -> int {
    match color {
        Color::White => 7,
        Color::Black => 0,
    }
}

/// The rank on which the pawns of `color` start.
pub open spec fn home_rank(color: Color) -> int {
    match color {
        Color::White => 1,
        Color::Black => 6,
    }
}

/// The change of square number with one step forward of a pawn of `color`.
pub open spec fn forward(color: Color) -> int {
    match color {
        Color::White => 8,
        Color::Black => -8,
    }
}

/// A move of a pawn of `color`.
pub open spec fn pawn_move(
    color: Color,
    from: int,
    to: int,
    capture: bool,
    special: Option<SpecialMove>,
) -> Move {
    Move {
        from: Square::at(from),
        to: Square::at(to),
        piece: Piece { kind: PieceKind::Pawn, color },
        capture,
        special,
    }
}

/// What a pawn's arrival on `to` gives: on the last rank the four
/// promotions, to queen, rook, bishop and knight; elsewhere one move, marked
/// as a double push when it leads from the home rank to the rank two ahead.
pub open spec fn pawn_arrival(color: Color, from: int, capture: bool) -> spec_fn(int) -> Seq<
    Move,
> {
    |to: int|
        if rank_of(to) == last_rank(color) {
            seq![
                pawn_move(
                    color,
                    from,
                    to,
                    capture,
                    Some(SpecialMove::Promotion(PieceKind::Queen)),
                ),
                pawn_move(color, from, to, capture, Some(SpecialMove::Promotion(PieceKind::Rook))),
                pawn_move(
                    color,
                    from,
                    to,
                    capture,
                    Some(SpecialMove::Promotion(PieceKind::Bishop)),
                ),
                pawn_move(
                    color,
                    from,
                    to,
                    capture,
                    Some(SpecialMove::Promotion(PieceKind::Horse)),
                ),
            ]
        } else {
            seq![
                pawn_move(
                    color,
                    from,
                    to,
                    capture,
                    if rank_of(from) == home_rank(color) && rank_of(to) == home_rank(color) + 2
                        * (forward(color) / 8) {
                        Some(SpecialMove::DoublePawnPush)
                    } else {
                        None
                    },
                ),
            ]
        }
}

/// The squares a pawn on `from` can be pushed to: the free square ahead,
/// and from the home rank the second square ahead when both are free.
pub open spec fn pawn_pushes(color: Color, from: int, occ: Set<int>) -> Set<int> {
    Set::new(
        |t: int|
            on_board(t) && !occ.contains(t) && (t == from + forward(color) || (t == from + 2
                * forward(color) && rank_of(from) == home_rank(color) && !occ.contains(
                from + forward(color),
            ))),
    )
}

/// The capture en passant of a pawn on `from`, if the en-passant square is
/// one that the pawn attacks.
pub open spec fn en_passant_move(color: Color, from: int, ep: Option<Square>) -> Seq<Move> {
    match ep {
        Some(target) => if pawn_reach(color, from).contains(target.index()) {
            seq![
                Move {
                    from: Square::at(from),
                    to: target,
                    piece: Piece { kind: PieceKind::Pawn, color },
                    capture: true,
                    special: Some(SpecialMove::EnPassant),
                },
            ]
        } else {
            Seq::empty()
        },
        None => Seq::empty(),
    }
}

/// The moves of one pawn: its pushes, then its captures, each in ascending
/// order of the square moved to, then its capture en passant.
pub open spec fn pawn_moves_from(
    color: Color,
    occ: Set<int>,
    enemy: Set<int>,
    ep: Option<Square>,
) -> spec_fn(int) -> Seq<Move> {
    |from: int|
        gather(pawn_pushes(color, from, occ), pawn_arrival(color, from, false), 0) + gather(
            pawn_reach(color, from).intersect(enemy),
            pawn_arrival(color, from, true),
            0,
        ) + en_passant_move(color, from, ep)
}

/// Appends what the arrival of a pawn gives on each square of `targets`.
fn push_pawn_arrivals(
    from: Square,
    color: Color,
    capture: bool,
    targets: BitBoard,
    vmoves: &mut Vec<Move>,
)
    ensures
        final(vmoves)@ == old(vmoves)@ + gather(
            targets@,
            pawn_arrival(color, from.index(), capture),
            0,
        ),
{
    let ghost before = vmoves@;
    let ghost emit = pawn_arrival(color, from.index(), capture);
    let piece = Piece::new(PieceKind::Pawn, color);
    let (last, home, double) = match color {
        Color::White => (7u64, 1u64, 3u64),
        Color::Black => (0u64, 6u64, 4u64),
    };
    let mut rest = targets.0;
    while rest != 0
        invariant
            emit == pawn_arrival(color, from.index(), capture),
            piece == (Piece { kind: PieceKind::Pawn, color }),
            last == last_rank(color),
            home == home_rank(color),
            double == home_rank(color) + 2 * (forward(color) / 8),
            before + gather(targets@, emit, 0) == vmoves@ + gather(squares(rest), emit, 0),
        decreases rest,
    {
        proof {
            lemma_lowest(rest);
            lemma_gather_pop(rest, emit);
        }
        let to = Square::from_index(rest.trailing_zeros() as u64);
        let ghost prior = vmoves@;
        let ghost tail = gather(squares(drop_lowest(rest)), emit, 0);
        if to.rank() == last {
            vmoves.push(
                Move {
                    from,
                    to,
                    capture,
                    piece,
                    special: Some(SpecialMove::Promotion(PieceKind::Queen)),
                },
            );
            vmoves.push(
                Move {
                    from,
                    to,
                    capture,
                    piece,
                    special: Some(SpecialMove::Promotion(PieceKind::Rook)),
                },
            );
            vmoves.push(
                Move {
                    from,
                    to,
                    capture,
                    piece,
                    special: Some(SpecialMove::Promotion(PieceKind::Bishop)),
                },
            );
            vmoves.push(
                Move {
                    from,
                    to,
                    capture,
                    piece,
                    special: Some(SpecialMove::Promotion(PieceKind::Horse)),
                },
            );
        } else {
            vmoves.push(
                Move {
                    from,
                    to,
                    capture,
                    piece,
                    special: if from.rank() == home && to.rank() == double {
                        Some(SpecialMove::DoublePawnPush)
                    } else {
                        None
                    },
                },
            );
        }
        proof {
            assert(prior + emit(to.index()) =~= vmoves@);
            assert(prior + (emit(to.index()) + tail) =~= vmoves@ + tail);
        }
        rest &= rest - 1;
    }
    proof {
        lemma_gather_pop(0, emit);
        assert(vmoves@ + Seq::<Move>::empty() =~= vmoves@);
    }
}

/// Appends the capture en passant of the pawn on `from`, if it has one.
fn push_en_passant(
    from: Square,
    color: Color,
    reach: BitBoard,
    ep: Option<Square>,
    vmoves: &mut Vec<Move>,
)
    requires
        reach@ == pawn_reach(color, from.index()),
    ensures
        final(vmoves)@ == old(vmoves)@ + en_passant_move(color, from.index(), ep),
{
    let ghost before = vmoves@;
    if let Some(target) = ep {
        let epb = BitBoard(1u64 << (target as u64));
        proof {
            lemma_bit_single(target as u64);
            lemma_and_nonzero(reach.0, epb.0);
        }
        if reach.0 & epb.0 != 0 {
            vmoves.push(
                Move {
                    from,
                    to: target,
                    capture: true,
                    piece: Piece::new(PieceKind::Pawn, color),
                    special: Some(SpecialMove::EnPassant),
                },
            );
            assert(vmoves@ =~= before + en_passant_move(color, from.index(), ep));
        } else {
            assert(!reach@.contains(target.index()));
            assert(vmoves@ =~= before + en_passant_move(color, from.index(), ep));
        }
    } else {
        assert(vmoves@ =~= before + en_passant_move(color, from.index(), ep));
    }
}

/// The moves of White's pawns.
pub fn white_pawn_moves(board: &Board, vmoves: &mut Vec<Move>, pre: &Precalc)
    requires
        pre.wf(),
    ensures
        final(vmoves)@ == old(vmoves)@ + gather(
            board.w_pawn@,
            pawn_moves_from(Color::White, board.occ@, board.b_occ@, board.en_passant),
            0,
        ),
{
    let ghost before = vmoves@;
    let ghost emit = pawn_moves_from(Color::White, board.occ@, board.b_occ@, board.en_passant);
    let mut pawns = board.w_pawn.0;
    let occ = board.occ.0;

    while pawns != 0
        invariant
            pre.wf(),
            occ == board.occ.0,
            emit == pawn_moves_from(Color::White, board.occ@, board.b_occ@, board.en_passant),
            before + gather(board.w_pawn@, emit, 0) == vmoves@ + gather(squares(pawns), emit, 0),
        decreases pawns,
    {
        proof {
            lemma_lowest(pawns);
            lemma_gather_pop(pawns, emit);
        }
        let ghost prior = vmoves@;
        let ghost tail = gather(squares(drop_lowest(pawns)), emit, 0);
        let from = Square::from_index(pawns.trailing_zeros() as u64);
        let pawn = 1u64 << pawns.trailing_zeros();
        pawns &= pawns - 1;

        let one_rank_up = (pawn << 8) & !occ;
        let two_ranks_up = ((one_rank_up & RANK_3) << 8) & !occ;
        let moves = BitBoard(one_rank_up | two_ranks_up);
        proof {
            lemma_bit_single(from.index() as u64);
            lemma_bit_shl(pawn, 8);
            lemma_bit_and_not(pawn << 8, occ);
            lemma_bit_and(one_rank_up, RANK_3);
            lemma_rank_3_and_6();
            lemma_bit_shl(one_rank_up & RANK_3, 8);
            lemma_bit_and_not((one_rank_up & RANK_3) << 8, occ);
            lemma_bit_or(one_rank_up, two_ranks_up);
            assert(moves@ =~= pawn_pushes(Color::White, from.index(), board.occ@));
        }
        push_pawn_arrivals(from, Color::White, false, moves, vmoves);

        let reach = pre.pawns[from as usize][0];
        let attacks = BitBoard(reach.0 & board.b_occ.0);
        proof {
            lemma_bit_and(reach.0, board.b_occ.0);
        }
        push_pawn_arrivals(from, Color::White, true, attacks, vmoves);
        push_en_passant(from, Color::White, reach, board.en_passant, vmoves);
        proof {
            assert(prior + emit(from.index()) =~= vmoves@);
            assert(prior + (emit(from.index()) + tail) =~= vmoves@ + tail);
        }
    }
    proof {
        lemma_gather_pop(0, emit);
        assert(vmoves@ + Seq::<Move>::empty() =~= vmoves@);
    }
}

/// The moves of Black's pawns.
pub fn black_pawn_moves(board: &Board, vmoves: &mut Vec<Move>, pre: &Precalc)
    requires
        pre.wf(),
    ensures
        final(vmoves)@ == old(vmoves)@ + gather(
            board.b_pawn@,
            pawn_moves_from(Color::Black, board.occ@, board.w_occ@, board.en_passant),
            0,
        ),
{
    let ghost before = vmoves@;
    let ghost emit = pawn_moves_from(Color::Black, board.occ@, board.w_occ@, board.en_passant);
    let mut pawns = board.b_pawn.0;
    let occ = board.occ.0;

    while pawns != 0
        invariant
            pre.wf(),
            occ == board.occ.0,
            emit == pawn_moves_from(Color::Black, board.occ@, board.w_occ@, board.en_passant),
            before + gather(board.b_pawn@, emit, 0) == vmoves@ + gather(squares(pawns), emit, 0),
        decreases pawns,
    {
        proof {
            lemma_lowest(pawns);
            lemma_gather_pop(pawns, emit);
        }
        let ghost prior = vmoves@;
        let ghost tail = gather(squares(drop_lowest(pawns)), emit, 0);
        let from = Square::from_index(pawns.trailing_zeros() as u64);
        let pawn = 1u64 << pawns.trailing_zeros();
        pawns &= pawns - 1;

        let one_rank_up = (pawn >> 8) & !occ;
        let two_ranks_up = ((one_rank_up & RANK_6) >> 8) & !occ;
        let moves = BitBoard(one_rank_up | two_ranks_up);
        proof {
            lemma_bit_single(from.index() as u64);
            lemma_bit_shr(pawn, 8);
            lemma_bit_and_not(pawn >> 8, occ);
            lemma_bit_and(one_rank_up, RANK_6);
            lemma_rank_3_and_6();
            lemma_bit_shr(one_rank_up & RANK_6, 8);
            lemma_bit_and_not((one_rank_up & RANK_6) >> 8, occ);
            lemma_bit_or(one_rank_up, two_ranks_up);
            assert(moves@ =~= pawn_pushes(Color::Black, from.index(), board.occ@));
        }
        push_pawn_arrivals(from, Color::Black, false, moves, vmoves);

        let reach = pre.pawns[from as usize][1];
        let attacks = BitBoard(reach.0 & board.w_occ.0);
        proof {
            lemma_bit_and(reach.0, board.w_occ.0);
        }
        push_pawn_arrivals(from, Color::Black, true, attacks, vmoves);
        push_en_passant(from, Color::Black, reach, board.en_passant, vmoves);
        proof {
            assert(prior + emit(from.index()) =~= vmoves@);
            assert(prior + (emit(from.index()) + tail) =~= vmoves@ + tail);
        }
    }
    proof {
        lemma_gather_pop(0, emit);
        assert(vmoves@ + Seq::<Move>::empty() =~= vmoves@);
    }
}

/// The square a king starts on.
pub open spec fn king_home(color: Color) -> Square {
    match color {
        Color::White => Square::E1,
        Color::Black => Square::E8,
    }
}

/// Whether `color` may castle by the right `right` over the squares
/// `squares`, listed from the king outwards: the right is still held, the king
/// is not attacked, all the squares are empty, and the first two of them, over
/// which the king passes, are not attacked.
pub open spec fn castle_allowed(
    board: Board,
    right: Castle,
    squares: Seq<Square>,
    color: Color,
) -> bool {
    &&& board.can_castle & right.mask() != 0
    &&& !attacks_square(board, king_home(color).index(), color.other())
    &&& forall|i: int| 0 <= i < squares.len() ==> !board.occ@.contains(#[trigger] squares[i].index())
    &&& forall|i: int|
        0 <= i < squares.len() && i < 2 ==> !attacks_square(
            board,
            #[trigger] squares[i].index(),
            color.other(),
        )
}

/// The castling move by the right `right`, if it is allowed: the king goes
/// to the second of the squares.
pub open spec fn castle_moves(
    board: Board,
    right: Castle,
    squares: Seq<Square>,
    color: Color,
) -> Seq<Move> {
    if castle_allowed(board, right, squares, color) {
        seq![
            Move {
                from: king_home(color),
                to: squares[1],
                piece: Piece { kind: PieceKind::King, color },
                capture: false,
                special: Some(SpecialMove::Castle),
            },
        ]
    } else {
        Seq::empty()
    }
}

/// The squares between king and rook for a castling right, from the king
/// outwards.
pub open spec fn castle_path(right: Castle) -> Seq<Square> {
    match right {
        Castle::WhiteKing => seq![Square::F1, Square::G1],
        Castle::WhiteQueen => seq![Square::D1, Square::C1, Square::B1],
        Castle::BlackKing => seq![Square::F8, Square::G8],
        Castle::BlackQueen => seq![Square::D8, Square::C8, Square::B8],
    }
}

/// The castling moves of a colour: on the king's side, then on the queen's.
pub open spec fn castling_of(board: Board, color: Color) -> Seq<Move> {
    match color {
        Color::White => castle_moves(
            board,
            Castle::WhiteKing,
            castle_path(Castle::WhiteKing),
            color,
        ) + castle_moves(board, Castle::WhiteQueen, castle_path(Castle::WhiteQueen), color),
        Color::Black => castle_moves(
            board,
            Castle::BlackKing,
            castle_path(Castle::BlackKing),
            color,
        ) + castle_moves(board, Castle::BlackQueen, castle_path(Castle::BlackQueen), color),
    }
}

/// White's castling moves.
pub fn white_castle(board: &Board, vmoves: &mut Vec<Move>, pre: &Precalc)
    requires
        pre.wf(),
    ensures
        final(vmoves)@ == old(vmoves)@ + castling_of(*board, Color::White),
{
    let ghost before = vmoves@;
    let king_side = [Square::F1, Square::G1];
    let queen_side = [Square::D1, Square::C1, Square::B1];
    assert(king_side@ =~= castle_path(Castle::WhiteKing));
    assert(queen_side@ =~= castle_path(Castle::WhiteQueen));
    castle(board, Castle::WhiteKing, king_side.as_slice(), Color::White, vmoves, pre);
    castle(board, Castle::WhiteQueen, queen_side.as_slice(), Color::White, vmoves, pre);
    assert(vmoves@ =~= before + castling_of(*board, Color::White));
}

/// Black's castling moves.
pub fn black_castle(board: &Board, vmoves: &mut Vec<Move>, pre: &Precalc)
    requires
        pre.wf(),
    ensures
        final(vmoves)@ == old(vmoves)@ + castling_of(*board, Color::Black),
{
    let ghost before = vmoves@;
    let king_side = [Square::F8, Square::G8];
    let queen_side = [Square::D8, Square::C8, Square::B8];
    assert(king_side@ =~= castle_path(Castle::BlackKing));
    assert(queen_side@ =~= castle_path(Castle::BlackQueen));
    castle(board, Castle::BlackKing, king_side.as_slice(), Color::Black, vmoves, pre);
    castle(board, Castle::BlackQueen, queen_side.as_slice(), Color::Black, vmoves, pre);
    assert(vmoves@ =~= before + castling_of(*board, Color::Black));
}

fn castle(
    board: &Board,
    castle_bit: Castle,
    squares: &[Square],
    color: Color,
    vmoves: &mut Vec<Move>,
    pre: &Precalc,
)
    requires
        pre.wf(),
        squares@.len() >= 2,
    ensures
        final(vmoves)@ == old(vmoves)@ + castle_moves(*board, castle_bit, squares@, color),
{
    let ghost before = vmoves@;
    proof {
        assert(before + Seq::<Move>::empty() =~= before);
    }
    if board.can_castle & castle_bit.bit() != 0 {
        if color == Color::White {
            if square_attacked(board, Square::E1, Color::Black, pre) {
                return ;
            }
        } else if square_attacked(board, Square::E8, Color::White, pre) {
            return ;
        }
        let mut squares_empty = true;
        let mut i: usize = 0;
        while i < squares.len()
            invariant
                i <= squares.len(),
                squares_empty == forall|k: int|
                    0 <= k < i ==> !board.occ@.contains(#[trigger] squares@[k].index()),
            decreases squares.len() - i,
        {
            let s = squares[i];
            proof {
                lemma_bit_single(s as u64);
                lemma_and_nonzero(board.occ.0, 1u64 << (s as u64));
            }
            if board.occ.0 & (1u64 << (s as u64)) != 0 {
                assert(board.occ@.contains(squares@[i as int].index()));
                squares_empty = false;
            }
            i += 1;
        }
        let mut squares_attacked = false;
        let mut i: usize = 0;
        while i < squares.len() && i < 2
            invariant
                pre.wf(),
                i <= squares.len(),
                i <= 2,
                !squares_attacked == forall|k: int|
                    0 <= k < i ==> !attacks_square(
                        *board,
                        #[trigger] squares@[k].index(),
                        color.other(),
                    ),
            decreases squares.len() - i,
        {
            if square_attacked(board, squares[i], color.opposite(), pre) {
                assert(attacks_square(*board, squares@[i as int].index(), color.other()));
                squares_attacked = true;
            }
            i += 1;
        }
        if squares_empty && !squares_attacked {
            assert(castle_allowed(*board, castle_bit, squares@, color));
            vmoves.push(
                Move {
                    from: if color == Color::White {
                        Square::E1
                    } else {
                        Square::E8
                    },
                    to: squares[1],
                    capture: false,
                    piece: Piece::new(PieceKind::King, color),
                    special: Some(SpecialMove::Castle),
                },
            );
            assert(vmoves@ =~= before + castle_moves(*board, castle_bit, squares@, color));
        } else {
            assert(!castle_allowed(*board, castle_bit, squares@, color));
        }
    }
}

/// The pieces of the given kind of the side to move, with the moves they
/// have as the side to move.
pub open spec fn moves_of_kind(board: Board, kind: PieceKind) -> Seq<Move> {
    let side = board.side_to_move;
    let own = board.occupancy(side)@;
    let enemy = board.occupancy(side.other())@;
    let from = board.squares_of(kind, side);
    let piece = Piece { kind, color: side };
    match kind {
        PieceKind::Pawn => gather(
            from,
            pawn_moves_from(side, board.occ@, enemy, board.en_passant),
            0,
        ),
        PieceKind::Horse => gather(from, knight_moves_from(piece, own, enemy), 0),
        PieceKind::King => gather(from, king_moves_from(piece, own, enemy), 0),
        PieceKind::Bishop => gather(
            from,
            slider_moves_from(false, piece, board.occ@, own, enemy),
            0,
        ),
        PieceKind::Rook => gather(from, slider_moves_from(true, piece, board.occ@, own, enemy), 0),
        PieceKind::Queen => queen_moves_of(board, from, enemy),
    }
}

/// The pseudo-legal moves of a position: every move of the side to move
/// that obeys how the pieces move, whether or not it leaves the mover's king
/// in check. They come by kind: pawns, castling, knights, king, bishops,
/// rooks, queens.
#[verifier::opaque]
pub open spec fn pseudo_legal(board: Board) -> Seq<Move> {
    moves_of_kind(board, PieceKind::Pawn) + castling_of(board, board.side_to_move) + moves_of_kind(
        board,
        PieceKind::Horse,
    ) + moves_of_kind(board, PieceKind::King) + moves_of_kind(board, PieceKind::Bishop)
        + moves_of_kind(board, PieceKind::Rook) + moves_of_kind(board, PieceKind::Queen)
}

/// The pseudo-legal moves of the position.
pub fn generate_moves(board: &Board, pre: &Precalc) -> (vmoves: Vec<Move>)
    requires
        pre.wf(),
    ensures
        vmoves@ == pseudo_legal(*board),
{
    let mut vmoves: Vec<Move> = Vec::with_capacity(220);
    proof {
        reveal(pseudo_legal);
    }
    let ghost b = *board;
    let ghost p = moves_of_kind(b, PieceKind::Pawn);
    let ghost c = castling_of(b, b.side_to_move);
    let ghost n = moves_of_kind(b, PieceKind::Horse);
    let ghost k = moves_of_kind(b, PieceKind::King);
    let ghost bi = moves_of_kind(b, PieceKind::Bishop);
    let ghost r = moves_of_kind(b, PieceKind::Rook);
    let ghost q = moves_of_kind(b, PieceKind::Queen);

    if board.side_to_move == Color::White {
        white_pawn_moves(board, &mut vmoves, pre);
        assert(vmoves@ =~= p);
        white_castle(board, &mut vmoves, pre);
        assert(vmoves@ =~= p + c);
        knight_moves(board, board.w_knight, board.w_occ, board.b_occ, &mut vmoves, pre);
        assert(vmoves@ =~= p + c + n);
        king_moves(board, board.w_king, board.w_occ, board.b_occ, &mut vmoves, pre);
        assert(vmoves@ =~= p + c + n + k);
        bishop_moves(board, board.w_bishop, board.b_occ, false, &mut vmoves, pre);
        assert(vmoves@ =~= p + c + n + k + bi);
        rook_moves(board, board.w_rook, board.b_occ, false, &mut vmoves, pre);
        assert(vmoves@ =~= p + c + n + k + bi + r);
        queen_moves(board, board.w_queen, board.b_occ, &mut vmoves, pre);
        assert(vmoves@ =~= p + c + n + k + bi + r + q);
    } else {
        black_pawn_moves(board, &mut vmoves, pre);
        assert(vmoves@ =~= p);
        black_castle(board, &mut vmoves, pre);
        assert(vmoves@ =~= p + c);
        knight_moves(board, board.b_knight, board.b_occ, board.w_occ, &mut vmoves, pre);
        assert(vmoves@ =~= p + c + n);
        king_moves(board, board.b_king, board.b_occ, board.w_occ, &mut vmoves, pre);
        assert(vmoves@ =~= p + c + n + k);
        bishop_moves(board, board.b_bishop, board.w_occ, false, &mut vmoves, pre);
        assert(vmoves@ =~= p + c + n + k + bi);
        rook_moves(board, board.b_rook, board.w_occ, false, &mut vmoves, pre);
        assert(vmoves@ =~= p + c + n + k + bi + r);
        queen_moves(board, board.b_queen, board.w_occ, &mut vmoves, pre);
        assert(vmoves@ =~= p + c + n + k + bi + r + q);
    }

    vmoves
}

/// The test that a move leaves the king of the side to move safe.
pub open spec fn safe_for(board: Board) -> spec_fn(Move) -> bool {
    |m: Move| board.keeps_king_safe(m)
}

/// The legal moves of a position: its pseudo-legal moves without those that
/// leave the mover's king in check, in the same order.
pub open spec fn legal(board: Board) -> Seq<Move> {
    pseudo_legal(board).filter(safe_for(board))
}

/// The legal moves of the position. Each pseudo-legal move is tried on a
/// copy of the board.
pub fn legal_moves(board: &Board, pre: &Precalc) -> (moves: Vec<Move>)
    requires
        pre.wf(),
        board.has_king(board.side_to_move) || pseudo_legal(*board).len() == 0,
    ensures
        moves@ == legal(*board),
{
    let all = generate_moves(board, pre);
    let mut moves: Vec<Move> = Vec::new();
    let mut i: usize = 0;
    assert(all@.take(0) =~= Seq::<Move>::empty());
    while i < all.len()
        invariant
            pre.wf(),
            board.has_king(board.side_to_move) || pseudo_legal(*board).len() == 0,
            all@ == pseudo_legal(*board),
            i <= all.len(),
            moves@ == all@.take(i as int).filter(safe_for(*board)),
        decreases all.len() - i,
    {
        let m = all[i];
        proof {
            assert(all@.contains(m));
            lemma_pseudo_legal_playable(*board, m);
            assert(all@.take(i + 1) =~= all@.take(i as int).push(m));
            all@.take(i as int).lemma_filter_push(m, safe_for(*board));
        }
        let mut b = *board;
        if b.make_move(m, pre) {
            moves.push(m);
        }
        i += 1;
    }
    assert(all@.take(all.len() as int) =~= all@);
    moves
}

/// Gathering over the squares from `lo` on gives at most `bound` moves for
/// each of them.
pub proof fn lemma_gather_len(
    set: Set<int>,
    emit: spec_fn(int) -> Seq<Move>,
    lo: int,
    bound: nat,
)
    requires
        0 <= lo <= 64,
        forall|i: int| 0 <= i < 64 ==> (#[trigger] emit(i)).len() <= bound,
    ensures
        gather(set, emit, lo).len() <= (64 - lo) * bound,
    decreases 64 - lo,
{
    if lo < 64 {
        lemma_gather_len(set, emit, lo + 1, bound);
        assert((64 - lo) * bound == (64 - (lo + 1)) * bound + bound) by (nonlinear_arith);
    }
}

/// A piece that jumps or slides has at most 128 moves.
proof fn lemma_piece_moves_len(
    piece: Piece,
    from: int,
    reach: Set<int>,
    own: Set<int>,
    enemy: Set<int>,
)
    ensures
        piece_moves(piece, from, reach, own, enemy).len() <= 128,
{
    lemma_gather_len(
        reach.difference(own).difference(enemy),
        plain_move(piece, from, false),
        0,
        1,
    );
    lemma_gather_len(reach.difference(own).intersect(enemy), plain_move(piece, from, true), 0, 1);
}

/// The pieces of one kind have fewer than 40000 moves between them.
proof fn lemma_moves_of_kind_len(board: Board, kind: PieceKind)
    ensures
        moves_of_kind(board, kind).len() <= 32832,
{
    let side = board.side_to_move;
    let own = board.occupancy(side)@;
    let enemy = board.occupancy(side.other())@;
    let from = board.squares_of(kind, side);
    let piece = Piece { kind, color: side };
    match kind {
        PieceKind::Pawn => {
            let emit = pawn_moves_from(side, board.occ@, enemy, board.en_passant);
            assert forall|i: int| 0 <= i < 64 implies (#[trigger] emit(i)).len() <= 513 by {
                lemma_gather_len(
                    pawn_pushes(side, i, board.occ@),
                    pawn_arrival(side, i, false),
                    0,
                    4,
                );
                lemma_gather_len(
                    pawn_reach(side, i).intersect(enemy),
                    pawn_arrival(side, i, true),
                    0,
                    4,
                );
            }
            lemma_gather_len(from, emit, 0, 513);
        },
        PieceKind::Horse => {
            let emit = knight_moves_from(piece, own, enemy);
            assert forall|i: int| 0 <= i < 64 implies (#[trigger] emit(i)).len() <= 128 by {
                lemma_piece_moves_len(piece, i, knight_reach(i), own, enemy);
            }
            lemma_gather_len(from, emit, 0, 128);
        },
        PieceKind::King => {
            let emit = king_moves_from(piece, own, enemy);
            assert forall|i: int| 0 <= i < 64 implies (#[trigger] emit(i)).len() <= 128 by {
                lemma_piece_moves_len(piece, i, king_reach(i), own, enemy);
            }
            lemma_gather_len(from, emit, 0, 128);
        },
        PieceKind::Bishop => {
            let emit = slider_moves_from(false, piece, board.occ@, own, enemy);
            assert forall|i: int| 0 <= i < 64 implies (#[trigger] emit(i)).len() <= 128 by {
                lemma_piece_moves_len(piece, i, slider_reach(false, i, board.occ@), own, enemy);
            }
            lemma_gather_len(from, emit, 0, 128);
        },
        PieceKind::Rook => {
            let emit = slider_moves_from(true, piece, board.occ@, own, enemy);
            assert forall|i: int| 0 <= i < 64 implies (#[trigger] emit(i)).len() <= 128 by {
                lemma_piece_moves_len(piece, i, slider_reach(true, i, board.occ@), own, enemy);
            }
            lemma_gather_len(from, emit, 0, 128);
        },
        PieceKind::Queen => {
            let straight = slider_moves_from(true, piece, board.occ@, own, enemy);
            let diagonal = slider_moves_from(false, piece, board.occ@, own, enemy);
            assert forall|i: int| 0 <= i < 64 implies (#[trigger] straight(i)).len() <= 128 by {
                lemma_piece_moves_len(piece, i, slider_reach(true, i, board.occ@), own, enemy);
            }
            assert forall|i: int| 0 <= i < 64 implies (#[trigger] diagonal(i)).len() <= 128 by {
                lemma_piece_moves_len(piece, i, slider_reach(false, i, board.occ@), own, enemy);
            }
            lemma_gather_len(from, straight, 0, 128);
            lemma_gather_len(from, diagonal, 0, 128);
        },
    }
}

/// No position has more than 2^18 pseudo-legal moves, nor, then, legal ones.
pub proof fn lemma_moves_len(board: Board)
    ensures
        pseudo_legal(board).len() <= 262144,
        legal(board).len() <= 262144,
{
    reveal(pseudo_legal);
    lemma_moves_of_kind_len(board, PieceKind::Pawn);
    lemma_moves_of_kind_len(board, PieceKind::Horse);
    lemma_moves_of_kind_len(board, PieceKind::King);
    lemma_moves_of_kind_len(board, PieceKind::Bishop);
    lemma_moves_of_kind_len(board, PieceKind::Rook);
    lemma_moves_of_kind_len(board, PieceKind::Queen);
    assert(castling_of(board, board.side_to_move).len() <= 2);
    pseudo_legal(board).lemma_filter_len(safe_for(board));
}

} // verus!
