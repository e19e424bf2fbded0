use chess_engine::board::{Board, DEFAULT_FEN};
use chess_engine::movegen::precalc::Precalc;
use chess_engine::perft::perft;

fn tables() -> Precalc {
    Precalc::new().expect("the built-in multipliers suit their squares")
}

#[test]
fn perft_depth_0_is_one() {
    let pre = tables();
    assert_eq!(perft(0, &Board::start_pos(), &pre), 1);
    assert_eq!(perft(0, &Board::default(), &pre), 1);
}

#[test]
fn perft_depth_1_from_start() {
    let pre = tables();
    let board = Board::from_fen(DEFAULT_FEN);
    assert_eq!(perft(1, &board, &pre), 20);
}

#[test]
fn perft_depth_2_from_start() {
    let pre = tables();
    let board = Board::from_fen(DEFAULT_FEN);
    assert_eq!(perft(2, &board, &pre), 400);
}

#[test]
fn perft_depth_3_from_start() {
    let pre = tables();
    let board = Board::from_fen(DEFAULT_FEN);
    assert_eq!(perft(3, &board, &pre), 8902);
}

#[test]
fn perft_depth_4_from_start() {
    let pre = tables();
    let board = Board::from_fen(DEFAULT_FEN);
    assert_eq!(perft(4, &board, &pre), 197281);
}

#[test]
fn perft_of_a_position_with_castling_and_pins() {
    let pre = tables();
    let board =
        Board::from_fen("r3k2r/p1ppqpb1/bn2pnp1/3PN3/1p2P3/2N2Q1p/PPPBBPPP/R3K2R w KQkq - ");
    assert_eq!(perft(1, &board, &pre), 48);
    assert_eq!(perft(2, &board, &pre), 2039);
    assert_eq!(perft(3, &board, &pre), 97862);
}

#[test]
fn perft_of_an_endgame_with_en_passant_pins() {
    let pre = tables();
    let board = Board::from_fen("8/2p5/3p4/KP5r/1R3p1k/8/4P1P1/8 w - - ");
    assert_eq!(perft(1, &board, &pre), 14);
    assert_eq!(perft(2, &board, &pre), 191);
    assert_eq!(perft(3, &board, &pre), 2812);
    assert_eq!(perft(4, &board, &pre), 43238);
}

#[test]
fn perft_of_a_position_with_promotions() {
    let pre = tables();
    let board =
        Board::from_fen("r3k2r/Pppp1ppp/1b3nbN/nP6/BBP1P3/q4N2/Pp1P2PP/R2Q1RK1 w kq - 0 1");
    assert_eq!(perft(1, &board, &pre), 6);
    assert_eq!(perft(2, &board, &pre), 264);
    assert_eq!(perft(3, &board, &pre), 9467);
}

#[test]
fn perft_of_a_position_with_a_promotion_with_check() {
    let pre = tables();
    let board = Board::from_fen("rnbq1k1r/pp1Pbppp/2p5/8/2B5/8/PPP1NnPP/RNBQK2R w KQ - 1 8");
    assert_eq!(perft(1, &board, &pre), 44);
    assert_eq!(perft(2, &board, &pre), 1486);
    assert_eq!(perft(3, &board, &pre), 62379);
}

#[test]
fn perft_of_a_mated_position_is_zero() {
    let pre = tables();
    let board =
        Board::from_fen("rnb1kbnr/pppp1ppp/8/4p3/6Pq/5P2/PPPPP2P/RNBQKBNR w KQkq - 1 3");
    assert_eq!(perft(1, &board, &pre), 0);
    assert_eq!(perft(3, &board, &pre), 0);
}
