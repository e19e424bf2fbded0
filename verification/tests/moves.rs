use chess_engine::bitboard::BitBoard;
use chess_engine::board::Board;
use chess_engine::bot::bot_move;
use chess_engine::movegen::precalc::Precalc;
use chess_engine::movegen::{
    attacked_suares, bishop_moves, black_castle, black_pawn_moves, generate_moves, king_moves,
    knight_moves, legal_moves, queen_moves, rook_moves, square_attacked, white_castle,
    white_pawn_moves, Move, SpecialMove,
};
use chess_engine::piece::{Color, Piece, PieceKind};
use chess_engine::square::Square;

const KIWIPETE: &str = "r3k2r/p1ppqpb1/bn2pnp1/3PN3/1p2P3/2N2Q1p/PPPBBPPP/R3K2R w KQkq - ";

fn tables() -> Precalc {
    Precalc::new().expect("the built-in multipliers suit their squares")
}

fn texts(moves: &[Move]) -> Vec<String> {
    moves.iter().map(|m| m.to_text()).collect()
}

fn has(moves: &[Move], text: &str) -> bool {
    moves.iter().any(|m| m.to_text() == text)
}

#[test]
fn move_new_keeps_its_arguments() {
    let p = Piece::new(PieceKind::Pawn, Color::White);
    let m = Move::new(Square::E7, Square::E8, p, false, Some(SpecialMove::Promotion(PieceKind::Queen)));
    assert_eq!(m.from, Square::E7);
    assert_eq!(m.to, Square::E8);
    assert_eq!(m.piece, p);
    assert!(!m.capture);
    assert_eq!(m.special, Some(SpecialMove::Promotion(PieceKind::Queen)));
}

#[test]
fn move_text_is_from_to_and_promotion_letter() {
    let p = Piece::new(PieceKind::Pawn, Color::White);
    assert_eq!(Move::new(Square::E2, Square::E4, p, false, Some(SpecialMove::DoublePawnPush)).to_text(), "e2e4");
    assert_eq!(Move::new(Square::E7, Square::E8, p, false, Some(SpecialMove::Promotion(PieceKind::Queen))).to_text(), "e7e8q");
    assert_eq!(Move::new(Square::B7, Square::A8, p, true, Some(SpecialMove::Promotion(PieceKind::Horse))).to_text(), "b7a8n");
    assert_eq!(Move::new(Square::B7, Square::A8, p, true, Some(SpecialMove::Promotion(PieceKind::Rook))).to_text(), "b7a8r");
    assert_eq!(Move::new(Square::B7, Square::A8, p, true, Some(SpecialMove::Promotion(PieceKind::Bishop))).to_text(), "b7a8b");
    let k = Piece::new(PieceKind::King, Color::Black);
    assert_eq!(Move::new(Square::E8, Square::G8, k, false, Some(SpecialMove::Castle)).to_text(), "e8g8");
    assert_eq!(Move::new(Square::D5, Square::E6, p, true, Some(SpecialMove::EnPassant)).to_text(), "d5e6");
    assert_eq!(Move::new(Square::A1, Square::H8, k, true, None).to_text(), "a1h8");
}

#[test]
fn moves_from_the_start_come_by_kind_and_by_square() {
    let pre = tables();
    let b = Board::start_pos();
    let moves = generate_moves(&b, &pre);
    assert_eq!(
        texts(&moves),
        vec![
            "a2a3", "a2a4", "b2b3", "b2b4", "c2c3", "c2c4", "d2d3", "d2d4", "e2e3", "e2e4",
            "f2f3", "f2f4", "g2g3", "g2g4", "h2h3", "h2h4", "b1a3", "b1c3", "g1f3", "g1h3",
        ]
    );
    for (i, m) in moves.iter().enumerate() {
        assert!(!m.capture);
        assert_eq!(m.piece.color, Color::White);
        if i < 16 {
            assert_eq!(m.piece.kind, PieceKind::Pawn);
            let double = if i % 2 == 1 { Some(SpecialMove::DoublePawnPush) } else { None };
            assert_eq!(m.special, double);
        } else {
            assert_eq!(m.piece.kind, PieceKind::Horse);
            assert_eq!(m.special, None);
        }
    }
    assert_eq!(legal_moves(&b, &pre), moves);
}

#[test]
fn black_pawns_push_downwards_with_the_double_push_first() {
    let pre = tables();
    let b = Board::from_fen("rnbqkbnr/pppppppp/8/8/4P3/8/PPPP1PPP/RNBQKBNR b KQkq e3 0 1");
    let moves = generate_moves(&b, &pre);
    assert_eq!(
        texts(&moves),
        vec![
            "a7a5", "a7a6", "b7b5", "b7b6", "c7c5", "c7c6", "d7d5", "d7d6", "e7e5", "e7e6",
            "f7f5", "f7f6", "g7g5", "g7g6", "h7h5", "h7h6", "b8a6", "b8c6", "g8f6", "g8h6",
        ]
    );
    assert_eq!(moves[0].special, Some(SpecialMove::DoublePawnPush));
    assert_eq!(moves[1].special, None);
}

#[test]
fn quiet_moves_come_before_captures_for_each_piece() {
    let pre = tables();
    let b = Board::from_fen("4k3/8/8/2p1p3/8/3N4/8/4K3 w - - 0 1");
    let mut moves = Vec::new();
    knight_moves(&b, b.w_knight, b.w_occ, b.b_occ, &mut moves, &pre);
    assert_eq!(texts(&moves), vec!["d3c1", "d3b2", "d3f2", "d3b4", "d3f4", "d3c5", "d3e5"]);
    let captures: Vec<bool> = moves.iter().map(|m| m.capture).collect();
    assert_eq!(captures, vec![false, false, false, false, false, true, true]);
    for m in &moves {
        assert_eq!(m.piece, Piece::new(PieceKind::Horse, Color::White));
        assert_eq!(m.special, None);
        assert_eq!(m.from, Square::D3);
    }
}

#[test]
fn the_generators_append_to_the_moves_that_are_there() {
    let pre = tables();
    let b = Board::start_pos();
    let first = Move::new(Square::A1, Square::A1, Piece::new(PieceKind::King, Color::Black), false, None);
    let mut moves = vec![first];
    white_pawn_moves(&b, &mut moves, &pre);
    assert_eq!(moves.len(), 17);
    assert_eq!(moves[0], first);
    white_castle(&b, &mut moves, &pre);
    assert_eq!(moves.len(), 17);
    knight_moves(&b, b.w_knight, b.w_occ, b.b_occ, &mut moves, &pre);
    assert_eq!(moves.len(), 21);
    king_moves(&b, b.w_king, b.w_occ, b.b_occ, &mut moves, &pre);
    bishop_moves(&b, b.w_bishop, b.b_occ, false, &mut moves, &pre);
    rook_moves(&b, b.w_rook, b.b_occ, false, &mut moves, &pre);
    queen_moves(&b, b.w_queen, b.b_occ, &mut moves, &pre);
    assert_eq!(moves.len(), 21);
    assert_eq!(moves[0], first);
}

#[test]
fn sliders_move_up_to_the_first_piece_and_take_it_if_it_is_the_opponents() {
    let pre = tables();
    let b = Board::from_fen("4k3/8/8/3p4/8/3R2P1/8/4K3 w - - 0 1");
    let mut moves = Vec::new();
    rook_moves(&b, b.w_rook, b.b_occ, false, &mut moves, &pre);
    assert_eq!(
        texts(&moves),
        vec!["d3d1", "d3d2", "d3a3", "d3b3", "d3c3", "d3e3", "d3f3", "d3d4", "d3d5"]
    );
    assert!(moves[8].capture);
    assert!(moves[..8].iter().all(|m| !m.capture));
    assert!(moves.iter().all(|m| m.piece == Piece::new(PieceKind::Rook, Color::White)));

    let mut moves = Vec::new();
    rook_moves(&b, b.w_rook, b.b_occ, true, &mut moves, &pre);
    assert_eq!(moves.len(), 9);
    assert!(moves.iter().all(|m| m.piece == Piece::new(PieceKind::Queen, Color::White)));

    let b = Board::from_fen("4k3/8/8/1p6/8/3B4/4P3/4K3 w - - 0 1");
    let mut moves = Vec::new();
    bishop_moves(&b, b.w_bishop, b.b_occ, false, &mut moves, &pre);
    assert_eq!(
        texts(&moves),
        vec!["d3b1", "d3c2", "d3c4", "d3e4", "d3f5", "d3g6", "d3h7", "d3b5"]
    );
    assert!(moves[7].capture);
    assert!(moves.iter().all(|m| m.piece == Piece::new(PieceKind::Bishop, Color::White)));
}

#[test]
fn queens_move_along_lines_first_and_diagonals_next() {
    let pre = tables();
    let b = Board::from_fen("7k/8/8/8/8/8/8/Q6K w - - 0 1");
    let mut moves = Vec::new();
    queen_moves(&b, b.w_queen, b.b_occ, &mut moves, &pre);
    assert_eq!(
        texts(&moves),
        vec![
            "a1b1", "a1c1", "a1d1", "a1e1", "a1f1", "a1g1", "a1a2", "a1a3", "a1a4", "a1a5",
            "a1a6", "a1a7", "a1a8", "a1b2", "a1c3", "a1d4", "a1e5", "a1f6", "a1g7", "a1h8",
        ]
    );
    assert!(moves[19].capture);
    assert!(moves[..19].iter().all(|m| !m.capture));
    assert!(moves.iter().all(|m| m.piece == Piece::new(PieceKind::Queen, Color::White)));
}

#[test]
fn pawns_on_the_seventh_rank_promote_to_four_pieces() {
    let pre = tables();
    let b = Board::from_fen("1n5k/P7/8/8/8/8/8/7K w - - 0 1");
    let mut moves = Vec::new();
    white_pawn_moves(&b, &mut moves, &pre);
    assert_eq!(
        texts(&moves),
        vec!["a7a8q", "a7a8r", "a7a8b", "a7a8n", "a7b8q", "a7b8r", "a7b8b", "a7b8n"]
    );
    assert!(moves[..4].iter().all(|m| !m.capture));
    assert!(moves[4..].iter().all(|m| m.capture));
    let b = Board::from_fen("7k/8/8/8/8/8/p7/1N5K b - - 0 1");
    let mut moves = Vec::new();
    black_pawn_moves(&b, &mut moves, &pre);
    assert_eq!(
        texts(&moves),
        vec!["a2a1q", "a2a1r", "a2a1b", "a2a1n", "a2b1q", "a2b1r", "a2b1b", "a2b1n"]
    );
}

#[test]
fn a_blocked_pawn_does_not_move() {
    let pre = tables();
    let b = Board::from_fen("7k/8/8/8/8/4p3/4P3/7K w - - 0 1");
    let mut moves = Vec::new();
    white_pawn_moves(&b, &mut moves, &pre);
    assert_eq!(moves.len(), 0);
    let b = Board::from_fen("7k/8/8/8/4p3/8/4P3/7K w - - 0 1");
    let mut moves = Vec::new();
    white_pawn_moves(&b, &mut moves, &pre);
    assert_eq!(texts(&moves), vec!["e2e3"]);
}

#[test]
fn legal_moves_are_among_the_generated_moves() {
    let pre = tables();
    let fens = [
        KIWIPETE,
        "8/2p5/3p4/KP5r/1R3p1k/8/4P1P1/8 w - - ",
        "r3k2r/Pppp1ppp/1b3nbN/nP6/BBP1P3/q4N2/Pp1P2PP/R2Q1RK1 w kq - 0 1",
        "rnbq1k1r/pp1Pbppp/2p5/8/2B5/8/PPP1NnPP/RNBQK2R w KQ - 1 8",
        "4r2k/8/8/8/8/8/4B3/4K3 w - - 0 1",
    ];
    for fen in fens {
        let b = Board::from_fen(fen);
        let all = generate_moves(&b, &pre);
        let legal = legal_moves(&b, &pre);
        assert!(legal.len() <= all.len());
        let mut next = 0;
        for m in &all {
            let mut copy = b;
            let ok = copy.make_move(*m, &pre);
            if ok {
                assert_eq!(legal[next], *m);
                next += 1;
            } else {
                assert!(!legal.contains(m));
            }
        }
        assert_eq!(next, legal.len());
        assert_eq!(generate_moves(&b, &pre), all);
    }
}

#[test]
fn counts_of_generated_and_legal_moves() {
    let pre = tables();
    let b = Board::from_fen(KIWIPETE);
    assert_eq!(legal_moves(&b, &pre).len(), 48);
    let b = Board::from_fen("8/2p5/3p4/KP5r/1R3p1k/8/4P1P1/8 w - - ");
    assert_eq!(generate_moves(&b, &pre).len(), 16);
    assert_eq!(legal_moves(&b, &pre).len(), 14);
    let b = Board::from_fen("rnb1kbnr/pppp1ppp/8/4p3/6Pq/5P2/PPPPP2P/RNBQKBNR w KQkq - 1 3");
    assert_eq!(legal_moves(&b, &pre).len(), 0);
    let b = Board::default();
    assert_eq!(generate_moves(&b, &pre).len(), 0);
    assert_eq!(legal_moves(&b, &pre).len(), 0);
}

#[test]
fn white_castles_on_the_kings_side_when_the_way_is_free_and_safe() {
    let pre = tables();
    let b = Board::from_fen(KIWIPETE);
    assert!(!square_attacked(&b, Square::E1, Color::Black, &pre));
    assert!(!square_attacked(&b, Square::F1, Color::Black, &pre));
    assert!(!square_attacked(&b, Square::G1, Color::Black, &pre));
    assert!(!b.get(5));
    assert!(!b.get(6));
    let legal = legal_moves(&b, &pre);
    assert!(has(&legal, "e1g1"));
    assert!(has(&legal, "e1c1"));
    let m = legal.iter().find(|m| m.to_text() == "e1g1").unwrap();
    assert_eq!(m.special, Some(SpecialMove::Castle));
    assert_eq!(m.piece, Piece::new(PieceKind::King, Color::White));
    assert!(!m.capture);
}

#[test]
fn white_does_not_castle_over_an_attacked_square() {
    let pre = tables();
    let b = Board::from_fen("r3k2r/p1ppqpb1/bn2pnp1/3PN3/1p2P3/2N2Q1p/PPPB1PPP/R3K2R w KQkq - ");
    assert!(square_attacked(&b, Square::F1, Color::Black, &pre));
    let legal = legal_moves(&b, &pre);
    assert!(!has(&legal, "e1g1"));
    assert!(has(&legal, "e1c1"));
    assert!(!has(&generate_moves(&b, &pre), "e1g1"));

    let b = Board::from_fen("r3k2r/8/8/8/8/8/6p1/R3K2R w KQkq - 0 1");
    assert!(square_attacked(&b, Square::F1, Color::Black, &pre));
    assert!(!has(&legal_moves(&b, &pre), "e1g1"));

    let b = Board::from_fen("r3k2r/8/8/8/8/6n1/8/R3K2R w KQkq - 0 1");
    assert!(square_attacked(&b, Square::F1, Color::Black, &pre));
    assert!(!square_attacked(&b, Square::G1, Color::Black, &pre));
    assert!(!has(&legal_moves(&b, &pre), "e1g1"));
    assert!(has(&legal_moves(&b, &pre), "e1c1"));

    let b = Board::from_fen("r3k2r/8/8/8/8/7n/8/R3K2R w KQkq - 0 1");
    assert!(square_attacked(&b, Square::G1, Color::Black, &pre));
    assert!(!has(&legal_moves(&b, &pre), "e1g1"));
}

#[test]
fn white_does_not_castle_over_an_occupied_square() {
    let pre = tables();
    let b = Board::from_fen("r3k2r/p1ppqpb1/bn2pnp1/3PN3/1p2P3/2N2Q1p/PPPBBPPP/R3K1NR w KQkq - ");
    assert!(!has(&legal_moves(&b, &pre), "e1g1"));
    assert!(has(&legal_moves(&b, &pre), "e1c1"));
    let b = Board::from_fen("r3k2r/p1ppqpb1/bn2pnp1/3PN3/1p2P3/2N2Q1p/PPPBBPPP/R3KB1R w KQkq - ");
    assert!(!has(&legal_moves(&b, &pre), "e1g1"));
    let b = Board::from_fen("r3k2r/8/8/8/8/8/8/RN2K2R w KQkq - 0 1");
    assert!(!has(&legal_moves(&b, &pre), "e1c1"));
    assert!(has(&legal_moves(&b, &pre), "e1g1"));
}

#[test]
fn nobody_castles_out_of_check() {
    let pre = tables();
    let b = Board::from_fen("r3k2r/8/8/8/4q3/8/8/R3K2R w KQkq - 0 1");
    assert!(square_attacked(&b, Square::E1, Color::Black, &pre));
    let legal = legal_moves(&b, &pre);
    assert!(!has(&legal, "e1g1"));
    assert!(!has(&legal, "e1c1"));
}

#[test]
fn castling_on_the_queens_side_minds_the_knights_square_only_for_being_empty() {
    let pre = tables();
    let b = Board::from_fen("r3k2r/8/8/8/8/8/1r6/R3K2R w KQkq - 0 1");
    assert!(square_attacked(&b, Square::B1, Color::Black, &pre));
    assert!(!square_attacked(&b, Square::C1, Color::Black, &pre));
    assert!(!square_attacked(&b, Square::D1, Color::Black, &pre));
    assert!(has(&legal_moves(&b, &pre), "e1c1"));
    let b = Board::from_fen("r3k2r/8/8/8/8/8/2r5/R3K2R w KQkq - 0 1");
    assert!(square_attacked(&b, Square::C1, Color::Black, &pre));
    assert!(!has(&legal_moves(&b, &pre), "e1c1"));
    let b = Board::from_fen("r3k2r/8/8/8/8/8/3r4/R3K2R w KQkq - 0 1");
    assert!(!has(&legal_moves(&b, &pre), "e1c1"));
}

#[test]
fn castling_needs_the_right() {
    let pre = tables();
    let b = Board::from_fen("r3k2r/8/8/8/8/8/8/R3K2R w kq - 0 1");
    let legal = legal_moves(&b, &pre);
    assert!(!has(&legal, "e1g1"));
    assert!(!has(&legal, "e1c1"));
    let b = Board::from_fen("r3k2r/8/8/8/8/8/8/R3K2R w Kq - 0 1");
    let legal = legal_moves(&b, &pre);
    assert!(has(&legal, "e1g1"));
    assert!(!has(&legal, "e1c1"));
    let b = Board::from_fen("r3k2r/8/8/8/8/8/8/R3K2R b Kq - 0 1");
    let legal = legal_moves(&b, &pre);
    assert!(!has(&legal, "e8g8"));
    assert!(has(&legal, "e8c8"));
}

#[test]
fn black_castles_by_the_same_rules() {
    let pre = tables();
    let b = Board::from_fen("r3k2r/8/8/8/8/8/8/R3K2R b KQkq - 0 1");
    let mut moves = Vec::new();
    black_castle(&b, &mut moves, &pre);
    assert_eq!(texts(&moves), vec!["e8g8", "e8c8"]);
    let mut moves = Vec::new();
    white_castle(&b, &mut moves, &pre);
    assert_eq!(texts(&moves), vec!["e1g1", "e1c1"]);
    let b = Board::from_fen("r3k2r/8/8/8/8/8/8/R3K1R1 b Qkq - 0 1");
    let mut moves = Vec::new();
    black_castle(&b, &mut moves, &pre);
    assert_eq!(texts(&moves), vec!["e8c8"]);
}

#[test]
fn square_attacked_looks_at_every_kind_of_piece() {
    let pre = tables();
    let b = Board::from_fen("7k/8/8/8/3P4/8/8/7K w - - 0 1");
    assert!(square_attacked(&b, Square::C5, Color::White, &pre));
    assert!(square_attacked(&b, Square::E5, Color::White, &pre));
    assert!(!square_attacked(&b, Square::D5, Color::White, &pre));
    assert!(!square_attacked(&b, Square::C3, Color::White, &pre));
    assert!(!square_attacked(&b, Square::C5, Color::Black, &pre));
    let b = Board::from_fen("7k/8/8/8/3p4/8/8/7K w - - 0 1");
    assert!(square_attacked(&b, Square::C3, Color::Black, &pre));
    assert!(square_attacked(&b, Square::E3, Color::Black, &pre));
    assert!(!square_attacked(&b, Square::C5, Color::Black, &pre));
    let b = Board::from_fen("7k/8/8/8/3n4/8/8/7K w - - 0 1");
    assert!(square_attacked(&b, Square::E2, Color::Black, &pre));
    assert!(square_attacked(&b, 37u64, Color::Black, &pre));
    assert!(!square_attacked(&b, Square::D5, Color::Black, &pre));
    let b = Board::from_fen("7k/8/8/8/3r1P2/8/8/7K w - - 0 1");
    assert!(square_attacked(&b, Square::D8, Color::Black, &pre));
    assert!(square_attacked(&b, Square::F4, Color::Black, &pre));
    assert!(!square_attacked(&b, Square::G4, Color::Black, &pre));
    assert!(square_attacked(&b, Square::A4, Color::Black, &pre));
    let b = Board::from_fen("7k/8/8/8/3b4/4P3/8/7K w - - 0 1");
    assert!(square_attacked(&b, Square::A7, Color::Black, &pre));
    assert!(square_attacked(&b, Square::E3, Color::Black, &pre));
    assert!(!square_attacked(&b, Square::F2, Color::Black, &pre));
    let b = Board::from_fen("7k/8/8/8/3q4/8/8/7K w - - 0 1");
    assert!(square_attacked(&b, Square::D1, Color::Black, &pre));
    assert!(square_attacked(&b, Square::G1, Color::Black, &pre));
    assert!(!square_attacked(&b, Square::E2, Color::Black, &pre));
    assert!(square_attacked(&b, Square::G8, Color::Black, &pre));
    assert!(square_attacked(&b, Square::G2, Color::White, &pre));
}

#[test]
fn attacked_squares_of_the_start_position() {
    let pre = tables();
    let b = Board::start_pos();
    assert_eq!(attacked_suares(&b, Color::White, &pre), BitBoard(0x0000_0000_00FF_FF7E));
    assert_eq!(attacked_suares(&b, Color::Black, &pre), BitBoard(0x7EFF_FF00_0000_0000));
    let empty = Board::default();
    assert_eq!(attacked_suares(&empty, Color::White, &pre), BitBoard(0));
}

#[test]
fn the_bot_picks_a_legal_move() {
    let pre = tables();
    let b = Board::from_fen(KIWIPETE);
    let legal = legal_moves(&b, &pre);
    let mut seen = std::collections::HashSet::new();
    for _ in 0..200 {
        let m = bot_move(&b, &pre);
        assert!(legal.contains(&m));
        seen.insert(m.to_text());
    }
    assert!(seen.len() > 1);
    let b = Board::from_fen("7k/8/8/8/8/8/8/K7 w - - 0 1");
    let m = bot_move(&b, &pre);
    assert!(["a1a2", "a1b1", "a1b2"].contains(&m.to_text().as_str()));
}
