use chess_engine::piece::{opposite_color, Color, Piece, PieceKind};
use chess_engine::square::{square_from_num, square_to_num, Square};

#[test]
fn file_and_rank_give_back_the_square() {
    for n in 0..64u32 {
        let s = square_from_num(n);
        assert_eq!(s.file() + 8 * s.rank(), n as u64);
        assert_eq!(square_to_num(s), n);
        assert_eq!(s.file(), (n % 8) as u64);
        assert_eq!(s.rank(), (n / 8) as u64);
    }
}

#[test]
fn squares_are_numbered_rank_by_rank() {
    assert_eq!(square_from_num(0), Square::A1);
    assert_eq!(square_from_num(7), Square::H1);
    assert_eq!(square_from_num(8), Square::A2);
    assert_eq!(square_from_num(28), Square::E4);
    assert_eq!(square_from_num(63), Square::H8);
    assert_eq!(square_to_num(Square::A1), 0);
    assert_eq!(square_to_num(Square::E1), 4);
    assert_eq!(square_to_num(Square::C8), 58);
    assert_eq!(Square::E4.file(), 4);
    assert_eq!(Square::E4.rank(), 3);
}

#[test]
fn from_index_and_try_from_index() {
    assert_eq!(Square::from_index(0), Square::A1);
    assert_eq!(Square::from_index(36), Square::E5);
    assert_eq!(Square::from_index(63), Square::H8);
    assert_eq!(Square::try_from_index(63), Some(Square::H8));
    assert_eq!(Square::try_from_index(9), Some(Square::B2));
    assert_eq!(Square::try_from_index(64), None);
    assert_eq!(Square::try_from_index(u64::MAX), None);
}

#[test]
fn square_text_is_file_letter_and_rank_digit() {
    assert_eq!(Square::A1.to_text(), "a1");
    assert_eq!(Square::E4.to_text(), "e4");
    assert_eq!(Square::H8.to_text(), "h8");
    assert_eq!(Square::C7.to_text(), "c7");
}

#[test]
fn piece_letters() {
    assert_eq!(PieceKind::Pawn.letter(), "p");
    assert_eq!(PieceKind::Horse.letter(), "n");
    assert_eq!(PieceKind::Bishop.letter(), "b");
    assert_eq!(PieceKind::Rook.letter(), "r");
    assert_eq!(PieceKind::Queen.letter(), "q");
    assert_eq!(PieceKind::King.letter(), "k");
}

#[test]
fn colours_are_opposite_to_each_other() {
    assert_eq!(Color::White.opposite(), Color::Black);
    assert_eq!(Color::Black.opposite(), Color::White);
    assert_eq!(opposite_color(Color::White), Color::Black);
    assert_eq!(opposite_color(Color::Black), Color::White);
    assert_eq!(Color::default(), Color::White);
}

#[test]
fn a_piece_is_a_kind_and_a_colour() {
    let p = Piece::new(PieceKind::Queen, Color::Black);
    assert_eq!(p.kind, PieceKind::Queen);
    assert_eq!(p.color, Color::Black);
    assert_eq!(p, Piece { kind: PieceKind::Queen, color: Color::Black });
}
