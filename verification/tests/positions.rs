use chess_engine::bitboard::BitBoard;
use chess_engine::board::{Board, Castle, GameState, DEFAULT_FEN};
use chess_engine::movegen::precalc::Precalc;
use chess_engine::movegen::{generate_moves, legal_moves, Move, SpecialMove};
use chess_engine::piece::{Color, Piece, PieceKind};
use chess_engine::square::Square;

const KIWIPETE: &str = "r3k2r/p1ppqpb1/bn2pnp1/3PN3/1p2P3/2N2Q1p/PPPBBPPP/R3K2R w KQkq - ";

fn tables() -> Precalc {
    Precalc::new().expect("the built-in multipliers suit their squares")
}

fn find(moves: &[Move], text: &str) -> Move {
    for m in moves {
        if m.to_text() == text {
            return *m;
        }
    }
    panic!("no move {}", text);
}

fn play(board: &mut Board, pre: &Precalc, text: &str) -> Move {
    let m = find(&generate_moves(board, pre), text);
    assert!(board.make_move(m, pre));
    m
}

fn occupancy_holds(b: &Board) {
    assert_eq!(
        b.w_occ.0,
        b.w_pawn.0 | b.w_knight.0 | b.w_bishop.0 | b.w_rook.0 | b.w_queen.0 | b.w_king.0
    );
    assert_eq!(
        b.b_occ.0,
        b.b_pawn.0 | b.b_knight.0 | b.b_bishop.0 | b.b_rook.0 | b.b_queen.0 | b.b_king.0
    );
    assert_eq!(b.occ.0, b.w_occ.0 | b.b_occ.0);
    assert_eq!(b.w_occ.0 & b.b_occ.0, 0);
}

#[test]
fn default_board_is_empty() {
    let b = Board::default();
    assert_eq!(b.occ, BitBoard(0));
    assert_eq!(b.w_occ, BitBoard(0));
    assert_eq!(b.b_occ, BitBoard(0));
    assert_eq!(b.side_to_move, Color::White);
    assert_eq!(b.en_passant, None);
    assert_eq!(b.can_castle, 0);
    assert_eq!(b.game_state, GameState::InProgress);
    assert_eq!(GameState::default(), GameState::InProgress);
}

#[test]
fn start_position_is_that_of_the_default_fen() {
    let b = Board::start_pos();
    assert_eq!(b, Board::from_fen(DEFAULT_FEN));
    assert_eq!(b.w_pawn, BitBoard(0xFF00));
    assert_eq!(b.w_king, BitBoard(0x10));
    assert_eq!(b.b_king, BitBoard(0x1000_0000_0000_0000));
    assert_eq!(b.b_rook, BitBoard(0x8100_0000_0000_0000));
    assert_eq!(b.occ, BitBoard(0xFFFF_0000_0000_FFFF));
    assert_eq!(b.side_to_move, Color::White);
    assert_eq!(b.can_castle, 0b1111);
    assert_eq!(b.en_passant, None);
    assert_eq!(b.game_state, GameState::InProgress);
    occupancy_holds(&b);
}

#[test]
fn fen_places_the_pieces_from_the_eighth_rank_down() {
    let b = Board::from_fen(KIWIPETE);
    assert_eq!(b.piece(0), Some(Piece::new(PieceKind::Rook, Color::White)));
    assert_eq!(b.piece(4), Some(Piece::new(PieceKind::King, Color::White)));
    assert_eq!(b.piece(21), Some(Piece::new(PieceKind::Queen, Color::White)));
    assert_eq!(b.piece(36), Some(Piece::new(PieceKind::Horse, Color::White)));
    assert_eq!(b.piece(35), Some(Piece::new(PieceKind::Pawn, Color::White)));
    assert_eq!(b.piece(40), Some(Piece::new(PieceKind::Bishop, Color::Black)));
    assert_eq!(b.piece(52), Some(Piece::new(PieceKind::Queen, Color::Black)));
    assert_eq!(b.piece(60), Some(Piece::new(PieceKind::King, Color::Black)));
    assert_eq!(b.piece(23), Some(Piece::new(PieceKind::Pawn, Color::Black)));
    assert_eq!(b.piece(1), None);
    assert_eq!(b.piece(63), Some(Piece::new(PieceKind::Rook, Color::Black)));
    assert!(b.get(0));
    assert!(!b.get(1));
    assert!(b.get(63));
    assert_eq!(b.side_to_move, Color::White);
    assert_eq!(b.can_castle, 0b1111);
    assert_eq!(b.en_passant, None);
    assert_eq!(b.pieces().len(), 32);
    occupancy_holds(&b);
}

#[test]
fn fen_reads_side_rights_and_en_passant() {
    let b = Board::from_fen("rnbqkbnr/pppp1ppp/8/4p3/4P3/8/PPPP1PPP/RNBQKBNR w KQkq e6 0 2");
    assert_eq!(b.en_passant, Some(Square::E6));
    assert_eq!(b.side_to_move, Color::White);
    let b = Board::from_fen("8/8/8/8/8/8/8/k6K b Kq a3");
    assert_eq!(b.en_passant, Some(Square::A3));
    assert_eq!(b.side_to_move, Color::Black);
    assert_eq!(b.can_castle, 0b1001);
    let b = Board::from_fen("8/8/8/8/8/8/8/k6K b - h8");
    assert_eq!(b.en_passant, Some(Square::H8));
    assert_eq!(b.can_castle, 0);
    let b = Board::from_fen("8/8/8/8/8/8/8/k6K w Qk -");
    assert_eq!(b.can_castle, 0b0110);
    assert_eq!(b.en_passant, None);
}

#[test]
fn fen_fields_are_split_at_any_white_space() {
    let plain = Board::from_fen("8/8/8/8/8/8/8/k6K w - -");
    assert_eq!(Board::from_fen("  8/8/8/8/8/8/8/k6K   w\t-\n-  "), plain);
    assert_eq!(Board::from_fen("8/8/8/8/8/8/8/k6K w - - 12 34 and more"), plain);
    assert_eq!(Board::from_fen("8/8/8/8/8/8/8/k6K\u{2003}w\u{a0}-\u{3000}-"), plain);
    assert_eq!(plain.b_king, BitBoard(1));
    assert_eq!(plain.w_king, BitBoard(0x80));
}

#[test]
fn fen_with_short_rows_or_few_rows_is_read_as_far_as_it_goes() {
    let b = Board::from_fen("k/7K w - -");
    assert_eq!(b.b_king, BitBoard(1 << 56));
    assert_eq!(b.w_king, BitBoard(1 << 55));
    assert_eq!(b.occ, BitBoard((1 << 56) | (1 << 55)));
}

#[test]
fn malformed_fen_is_refused() {
    assert_eq!(Board::parse_fen(""), None);
    assert_eq!(Board::parse_fen("   "), None);
    assert_eq!(Board::parse_fen("8/8/8/8/8/8/8/8"), None);
    assert_eq!(Board::parse_fen("8/8/8/8/8/8/8/8 w"), None);
    assert_eq!(Board::parse_fen("8/8/8/8/8/8/8/8 w -"), None);
    assert_eq!(Board::parse_fen("8/8/8/8/8/8/8/8 x - -"), None);
    assert_eq!(Board::parse_fen("8/8/8/8/8/8/8/8 W - -"), None);
    assert_eq!(Board::parse_fen("8/8/8/8/8/8/8/8 wb - -"), None);
    assert_eq!(Board::parse_fen("8/8/8/8/8/8/8/7X w - -"), None);
    assert_eq!(Board::parse_fen("8/8/8/8/8/8/8/9 w - -"), None);
    assert_eq!(Board::parse_fen("8/8/8/8/8/8/8/0 w - -"), None);
    assert_eq!(Board::parse_fen("8/8/8/8/8/8/8/8 w KX -"), None);
    assert_eq!(Board::parse_fen("8/8/8/8/8/8/8/8 w - z9"), None);
    assert_eq!(Board::parse_fen("8/8/8/8/8/8/8/8 w - e"), None);
    assert_eq!(Board::parse_fen("8/8/8/8/8/8/8/8 w - e9"), None);
    assert_eq!(Board::parse_fen("8/8/8/8/8/8/8/8 w - i3"), None);
    assert_eq!(Board::parse_fen("8/8/8/8/8/8/8/8 w - -e3"), None);
    assert_eq!(Board::parse_fen("ppppppppp/8/8/8/8/8/8/8 w - -"), None);
    assert_eq!(Board::parse_fen("8p/8/8/8/8/8/8/8 w - -"), None);
    assert_eq!(Board::parse_fen("45/8/8/8/8/8/8/8 w - -"), None);
    assert_eq!(Board::parse_fen("8/8/8/8/8/8/8/8/8 w - -"), None);
    assert_eq!(Board::parse_fen("8/8/8/8/8/8/8/8/ w - -"), None);
}

#[test]
fn well_formed_fen_is_read() {
    assert_eq!(Board::parse_fen(DEFAULT_FEN), Some(Board::start_pos()));
    assert!(Board::parse_fen(KIWIPETE).is_some());
    assert!(Board::parse_fen("8/8/8/8/8/8/8/8 w - -").is_some());
    assert!(Board::parse_fen("8/8/8/8/8/8/8/8 b KQkq- e3x").is_some());
}

#[test]
fn pieces_are_listed_in_ascending_order_of_square() {
    let b = Board::from_fen("8/8/8/8/8/2n5/8/K6k w - -");
    assert_eq!(
        b.pieces(),
        vec![
            (0, Piece::new(PieceKind::King, Color::White)),
            (7, Piece::new(PieceKind::King, Color::Black)),
            (18, Piece::new(PieceKind::Horse, Color::Black)),
        ]
    );
    assert_eq!(Board::default().pieces(), vec![]);
}

#[test]
fn update_occ_rebuilds_the_occupancy_from_the_pieces() {
    let mut b = Board::default();
    b.w_pawn = BitBoard(0xFF00);
    b.w_king = BitBoard(0x10);
    b.b_queen = BitBoard(1 << 59);
    b.occ = BitBoard(12345);
    b.update_occ();
    assert_eq!(b.w_occ, BitBoard(0xFF10));
    assert_eq!(b.b_occ, BitBoard(1 << 59));
    assert_eq!(b.occ, BitBoard(0xFF10 | (1 << 59)));
    let once = b;
    b.update_occ();
    assert_eq!(b, once);
}

#[test]
fn castle_bits() {
    assert_eq!(Castle::WhiteKing.bit(), 0b0001);
    assert_eq!(Castle::WhiteQueen.bit(), 0b0010);
    assert_eq!(Castle::BlackKing.bit(), 0b0100);
    assert_eq!(Castle::BlackQueen.bit(), 0b1000);
}

#[test]
fn a_double_push_sets_the_en_passant_square_for_one_move() {
    let pre = tables();
    let mut b = Board::start_pos();
    let m = play(&mut b, &pre, "e2e4");
    assert_eq!(m.special, Some(SpecialMove::DoublePawnPush));
    assert_eq!(b.en_passant, Some(Square::E3));
    assert_eq!(b.side_to_move, Color::Black);
    assert_eq!(b.w_pawn, BitBoard(0x1000_EF00));
    occupancy_holds(&b);
    play(&mut b, &pre, "e7e5");
    assert_eq!(b.en_passant, Some(Square::E6));
    assert_eq!(b.side_to_move, Color::White);
    play(&mut b, &pre, "g1f3");
    assert_eq!(b.en_passant, None);
    play(&mut b, &pre, "b8c6");
    assert_eq!(b.en_passant, None);
    let m = play(&mut b, &pre, "d2d3");
    assert_eq!(m.special, None);
    assert_eq!(b.en_passant, None);
    occupancy_holds(&b);
}

#[test]
fn a_capture_en_passant_takes_the_pawn_that_passed() {
    let pre = tables();
    let mut b = Board::from_fen("rnbqkbnr/ppp1pppp/8/8/3pP3/8/PPPP1PPP/RNBQKBNR b KQkq e3 0 3");
    let m = find(&generate_moves(&b, &pre), "d4e3");
    assert_eq!(m.special, Some(SpecialMove::EnPassant));
    assert!(m.capture);
    assert!(b.make_move(m, &pre));
    assert_eq!(b.piece(20), Some(Piece::new(PieceKind::Pawn, Color::Black)));
    assert_eq!(b.piece(28), None);
    assert_eq!(b.piece(27), None);
    assert_eq!(b.w_pawn, BitBoard(0xEF00));
    assert_eq!(b.en_passant, None);
    occupancy_holds(&b);

    let mut b = Board::from_fen("rnbqkbnr/pppp1ppp/8/3Pp3/8/8/PPP1PPPP/RNBQKBNR w KQkq e6 0 3");
    let m = find(&generate_moves(&b, &pre), "d5e6");
    assert_eq!(m.special, Some(SpecialMove::EnPassant));
    assert!(b.make_move(m, &pre));
    assert_eq!(b.piece(44), Some(Piece::new(PieceKind::Pawn, Color::White)));
    assert_eq!(b.piece(36), None);
    assert_eq!(b.piece(35), None);
    occupancy_holds(&b);
}

#[test]
fn without_an_en_passant_square_there_is_no_capture_en_passant() {
    let pre = tables();
    let b = Board::from_fen("rnbqkbnr/ppp1pppp/8/8/3pP3/8/PPPP1PPP/RNBQKBNR b KQkq - 0 3");
    for m in generate_moves(&b, &pre) {
        assert_ne!(m.special, Some(SpecialMove::EnPassant));
    }
}

#[test]
fn a_promotion_replaces_the_pawn() {
    let pre = tables();
    let start = Board::from_fen("8/P7/8/8/8/8/8/k6K w - - 0 1");
    let kinds = [
        ("a7a8q", PieceKind::Queen),
        ("a7a8r", PieceKind::Rook),
        ("a7a8b", PieceKind::Bishop),
        ("a7a8n", PieceKind::Horse),
    ];
    for (text, kind) in kinds {
        let mut b = start;
        let m = find(&generate_moves(&b, &pre), text);
        assert_eq!(m.special, Some(SpecialMove::Promotion(kind)));
        assert_eq!(m.piece, Piece::new(PieceKind::Pawn, Color::White));
        assert!(b.make_move(m, &pre));
        assert_eq!(b.w_pawn, BitBoard(0));
        assert_eq!(b.piece(56), Some(Piece::new(kind, Color::White)));
        occupancy_holds(&b);
    }
    let mut b = Board::from_fen("K6k/8/8/8/8/8/7p/6R1 b - - 0 1");
    let m = find(&generate_moves(&b, &pre), "h2g1q");
    assert!(m.capture);
    assert!(b.make_move(m, &pre));
    assert_eq!(b.piece(6), Some(Piece::new(PieceKind::Queen, Color::Black)));
    assert_eq!(b.w_rook, BitBoard(0));
    assert_eq!(b.b_pawn, BitBoard(0));
    occupancy_holds(&b);
}

#[test]
fn castling_moves_the_rook_and_gives_up_both_rights() {
    let pre = tables();
    let mut b = Board::from_fen(KIWIPETE);
    let m = find(&generate_moves(&b, &pre), "e1g1");
    assert_eq!(m.special, Some(SpecialMove::Castle));
    assert!(b.make_move(m, &pre));
    assert_eq!(b.w_king, BitBoard(1 << 6));
    assert_eq!(b.w_rook, BitBoard((1 << 0) | (1 << 5)));
    assert_eq!(b.can_castle, 0b1100);
    occupancy_holds(&b);

    let mut b = Board::from_fen(KIWIPETE);
    play(&mut b, &pre, "e1c1");
    assert_eq!(b.w_king, BitBoard(1 << 2));
    assert_eq!(b.w_rook, BitBoard((1 << 3) | (1 << 7)));
    assert_eq!(b.can_castle, 0b1100);

    let mut b = Board::from_fen("r3k2r/8/8/8/8/8/8/R3K2R b KQkq - 0 1");
    play(&mut b, &pre, "e8g8");
    assert_eq!(b.b_king, BitBoard(1 << 62));
    assert_eq!(b.b_rook, BitBoard((1 << 56) | (1 << 61)));
    assert_eq!(b.can_castle, 0b0011);

    let mut b = Board::from_fen("r3k2r/8/8/8/8/8/8/R3K2R b KQkq - 0 1");
    play(&mut b, &pre, "e8c8");
    assert_eq!(b.b_king, BitBoard(1 << 58));
    assert_eq!(b.b_rook, BitBoard((1 << 59) | (1 << 63)));
    assert_eq!(b.can_castle, 0b0011);
    occupancy_holds(&b);
}

#[test]
fn moves_of_king_and_rook_give_up_castling_rights() {
    let pre = tables();
    let start = Board::from_fen("r3k2r/8/8/8/8/8/8/R3K2R w KQkq - 0 1");
    let mut b = start;
    play(&mut b, &pre, "e1e2");
    assert_eq!(b.can_castle, 0b1100);
    let mut b = start;
    play(&mut b, &pre, "a1b1");
    assert_eq!(b.can_castle, 0b1101);
    let mut b = start;
    play(&mut b, &pre, "h1g1");
    assert_eq!(b.can_castle, 0b1110);
    let mut b = start;
    play(&mut b, &pre, "a1a2");
    play(&mut b, &pre, "h8h7");
    assert_eq!(b.can_castle, 0b1001);
    play(&mut b, &pre, "a2a1");
    play(&mut b, &pre, "a8a7");
    assert_eq!(b.can_castle, 0b0001);
    play(&mut b, &pre, "e1d1");
    assert_eq!(b.can_castle, 0b0000);
}

#[test]
fn a_rook_taken_on_its_corner_takes_its_right_with_it() {
    let pre = tables();
    let mut b = Board::from_fen("r3k2r/8/8/8/8/8/6B1/R3K2R w KQkq - 0 1");
    let m = play(&mut b, &pre, "g2a8");
    assert!(m.capture);
    assert_eq!(b.can_castle, 0b0111);
    assert_eq!(b.b_rook, BitBoard(1 << 63));
    let mut b = Board::from_fen("r3k2r/8/8/8/8/8/8/R3K2R w KQkq - 0 1");
    play(&mut b, &pre, "h1h8");
    assert_eq!(b.can_castle, 0b1010);
    let mut b = Board::from_fen("n3k2r/8/8/8/8/8/6B1/R3K2R w KQkq - 0 1");
    play(&mut b, &pre, "g2a8");
    assert_eq!(b.can_castle, 0b1111);
    assert_eq!(b.b_knight, BitBoard(0));
    let mut b = Board::from_fen("r3k2r/8/8/8/8/8/8/R3K2R b KQkq - 0 1");
    play(&mut b, &pre, "a8a1");
    assert_eq!(b.can_castle, 0b0101);
}

#[test]
fn a_capture_takes_the_piece_off_the_board() {
    let pre = tables();
    let mut b = Board::from_fen("4k3/8/8/3q4/4P3/8/8/4K3 w - - 0 1");
    let m = play(&mut b, &pre, "e4d5");
    assert!(m.capture);
    assert_eq!(b.b_queen, BitBoard(0));
    assert_eq!(b.w_pawn, BitBoard(1 << 35));
    assert_eq!(b.b_occ, BitBoard(1 << 60));
    occupancy_holds(&b);
}

#[test]
fn a_move_that_leaves_the_king_in_check_is_refused_and_the_turn_stays() {
    let pre = tables();
    let mut b = Board::from_fen("4r2k/8/8/8/8/8/4B3/4K3 w - - 0 1");
    let m = find(&generate_moves(&b, &pre), "e2d3");
    assert!(!b.make_move(m, &pre));
    assert_eq!(b.side_to_move, Color::White);
    assert_eq!(b.w_bishop, BitBoard(1 << 19));
    occupancy_holds(&b);
    let b = Board::from_fen("4r2k/8/8/8/8/8/4B3/4K3 w - - 0 1");
    let legal = legal_moves(&b, &pre);
    assert!(legal.iter().all(|m| m.to_text() != "e2d3"));
    assert!(legal.iter().any(|m| m.to_text() == "e1d1"));
}

#[test]
fn occupancy_holds_along_a_game() {
    let pre = tables();
    let mut b = Board::start_pos();
    let game = [
        "e2e4", "d7d5", "e4d5", "d8d5", "b1c3", "d5a5", "d2d4", "g8f6", "g1f3", "c8g4", "f1e2",
        "b8c6", "e1g1", "e8c8", "c1e3", "e7e5", "d4d5", "f6d5", "c3d5", "d8d5", "d1d5", "a5d5",
    ];
    for text in game {
        play(&mut b, &pre, text);
        occupancy_holds(&b);
    }
    assert_eq!(b.can_castle, 0);
    assert_eq!(b.pieces().len(), 25);
}

#[test]
fn update_state_tells_checkmate_from_stalemate() {
    let pre = tables();
    let mut b = Board::from_fen("rnb1kbnr/pppp1ppp/8/4p3/6Pq/5P2/PPPPP2P/RNBQKBNR w KQkq - 1 3");
    let before = b;
    b.update_state(&pre);
    assert_eq!(b.game_state, GameState::Checkmate);
    assert_eq!(Board { game_state: GameState::InProgress, ..b }, before);

    let mut b = Board::from_fen("7k/5Q2/6K1/8/8/8/8/8 b - - 0 1");
    b.update_state(&pre);
    assert_eq!(b.game_state, GameState::Stalemate);

    let mut b = Board::start_pos();
    b.update_state(&pre);
    assert_eq!(b.game_state, GameState::InProgress);
    assert_eq!(b, Board::start_pos());

    let mut b = Board::start_pos();
    b.game_state = GameState::Draw;
    b.update_state(&pre);
    assert_eq!(b.game_state, GameState::Draw);
}

#[test]
fn king_attacked_tells_check() {
    let pre = tables();
    let b = Board::from_fen("rnb1kbnr/pppp1ppp/8/4p3/6Pq/5P2/PPPPP2P/RNBQKBNR w KQkq - 1 3");
    assert!(b.king_attacked(Color::White, &pre));
    assert!(!b.king_attacked(Color::Black, &pre));
    let b = Board::start_pos();
    assert!(!b.king_attacked(Color::White, &pre));
    assert!(!b.king_attacked(Color::Black, &pre));
}

#[test]
fn board_text_shows_the_pieces_and_the_state() {
    let expected = "  8  \u{265c} \u{265e} \u{265d} \u{265b} \u{265a} \u{265d} \u{265e} \u{265c} \n  7  \u{265f} \u{265f} \u{265f} \u{265f} \u{265f} \u{265f} \u{265f} \u{265f} \n  6  . . . . . . . . \n  5  . . . . . . . . \n  4  . . . . . . . . \n  3  . . . . . . . . \n  2  \u{2659} \u{2659} \u{2659} \u{2659} \u{2659} \u{2659} \u{2659} \u{2659} \n  1  \u{2656} \u{2658} \u{2657} \u{2655} \u{2654} \u{2657} \u{2658} \u{2656} \n\n     a b c d e f g h\n  Side to move: White\n  En passant: None\n  Can castle: KQkq\n";
    assert_eq!(Board::start_pos().to_text(), expected);
    let b = Board::from_fen("8/8/8/8/4P3/8/8/k6K b Kq e3");
    let expected = "  8  . . . . . . . . \n  7  . . . . . . . . \n  6  . . . . . . . . \n  5  . . . . . . . . \n  4  . . . . \u{2659} . . . \n  3  . . . . . . . . \n  2  . . . . . . . . \n  1  \u{265a} . . . . . . \u{2654} \n\n     a b c d e f g h\n  Side to move: Black\n  En passant: Some(E3)\n  Can castle: K--q\n";
    assert_eq!(b.to_text(), expected);
}

#[test]
fn regular_positions_are_told_from_others() {
    let pre = tables();
    assert!(Board::start_pos().is_regular(&pre));
    assert!(Board::from_fen(KIWIPETE).is_regular(&pre));
    assert!(Board::from_fen("rnb1kbnr/pppp1ppp/8/4p3/6Pq/5P2/PPPPP2P/RNBQKBNR w KQkq - 1 3")
        .is_regular(&pre));

    assert!(!Board::default().is_regular(&pre));
    assert!(!Board::from_fen("8/8/8/8/8/8/8/K7 w - -").is_regular(&pre));
    assert!(!Board::from_fen("7k/8/8/8/8/8/8/8 w - -").is_regular(&pre));
    assert!(!Board::from_fen("rnb1kbnr/pppp1ppp/8/4p3/6Pq/5P2/PPPPP2P/RNBQKBNR b KQkq - 1 3")
        .is_regular(&pre));
    assert!(!Board::from_fen("7k/8/8/8/4P3/8/8/K7 b - e4").is_regular(&pre));
    assert!(Board::from_fen("7k/8/8/8/4P3/8/8/K7 b - e3").is_regular(&pre));

    let mut b = Board::start_pos();
    b.occ = BitBoard(0);
    assert!(!b.is_regular(&pre));
    let mut b = Board::start_pos();
    b.w_occ = BitBoard(0xFFFF_FFFF);
    assert!(!b.is_regular(&pre));
    let mut b = Board::start_pos();
    b.w_queen = BitBoard(0x18);
    b.update_occ();
    assert!(!b.is_regular(&pre));
    let mut b = Board::start_pos();
    b.b_knight = BitBoard(b.b_knight.0 | 1);
    b.update_occ();
    assert!(!b.is_regular(&pre));
}

#[test]
fn legal_play_stays_among_regular_positions() {
    let pre = tables();
    let mut word: u64 = 0x2545_F491_4F6C_DD1D;
    let mut b = Board::start_pos();
    for _ in 0..120 {
        assert!(b.is_regular(&pre));
        occupancy_holds(&b);
        let moves = legal_moves(&b, &pre);
        if moves.is_empty() {
            break;
        }
        word ^= word << 13;
        word ^= word >> 7;
        word ^= word << 17;
        let m = moves[(word % moves.len() as u64) as usize];
        assert!(b.make_move(m, &pre));
    }
}

#[test]
fn can_play_tells_which_moves_can_be_applied() {
    let pre = tables();
    let b = Board::start_pos();
    for m in generate_moves(&b, &pre) {
        assert!(b.can_play(m));
    }
    let pawn = Piece::new(PieceKind::Pawn, Color::White);
    let king = Piece::new(PieceKind::King, Color::White);
    assert!(b.can_play(Move::new(Square::E2, Square::E7, pawn, false, None)));
    assert!(!b.can_play(Move::new(
        Square::E2,
        Square::E8,
        pawn,
        false,
        Some(SpecialMove::Promotion(PieceKind::King))
    )));
    assert!(!b.can_play(Move::new(
        Square::E2,
        Square::E8,
        pawn,
        false,
        Some(SpecialMove::Promotion(PieceKind::Pawn))
    )));
    assert!(b.can_play(Move::new(
        Square::E2,
        Square::E8,
        pawn,
        false,
        Some(SpecialMove::Promotion(PieceKind::Horse))
    )));
    assert!(!b.can_play(Move::new(Square::E1, Square::F1, king, false, Some(SpecialMove::Castle))));
    assert!(b.can_play(Move::new(Square::E1, Square::G1, king, false, Some(SpecialMove::Castle))));
    assert!(!b.can_play(Move::new(
        Square::A2,
        Square::A1,
        pawn,
        false,
        Some(SpecialMove::DoublePawnPush)
    )));
    assert!(!b.can_play(Move::new(Square::B2, Square::A1, pawn, true, Some(SpecialMove::EnPassant))));
    let no_king = Board::from_fen("7k/8/8/8/8/8/P7/8 w - -");
    assert!(!no_king.can_play(Move::new(Square::A2, Square::A3, pawn, false, None)));
    assert!(no_king.can_play(Move::new(Square::E1, Square::E2, king, false, None)));
    assert!(b.king_present(Color::White));
    assert!(b.king_present(Color::Black));
    assert!(!no_king.king_present(Color::White));
    assert!(no_king.king_present(Color::Black));
}
