use kingly::fen::STARTING_FEN;
use kingly::piece::{Color, Piece, PieceKind, Side};
use kingly::position::Position;
use kingly::square::Square;

#[test]
fn tests_pieces_placed_correctly_in_starting_pos_fen() {
    let position = Position::from_fen(STARTING_FEN).unwrap();
    let pieces = position.pieces();
    assert_eq!(pieces.get(Square::A1), Some(Piece(PieceKind::Rook, Color::White)));
    assert_eq!(pieces.get(Square::E7), Some(Piece(PieceKind::Pawn, Color::Black)));
    assert_eq!(pieces.get(Square::E8), Some(Piece(PieceKind::King, Color::Black)));
    assert_eq!(pieces.get(Square::D1), Some(Piece(PieceKind::Queen, Color::White)));
    assert_eq!(pieces.get(Square::B8), Some(Piece(PieceKind::Knight, Color::Black)));
    assert_eq!(pieces.get(Square::C1), Some(Piece(PieceKind::Bishop, Color::White)));
}

#[test]
fn tests_color_parsed_correctly_from_fen() {

    let position = Position::from_fen(STARTING_FEN).unwrap();
    assert_eq!(position.to_move(), Color::White);

    let position =
        Position::from_fen("rnbqkbnr/pppppppp/8/8/3P4/8/PPP1PPPP/RNBQKBNR b KQkq - 0 1").unwrap();
    assert_eq!(position.to_move(), Color::Black);
}

#[test]
fn tests_castling_rights_parsed_correctly_from_fen() {

    let position =
        Position::from_fen("rnbqkbnr/pppppppp/8/8/8/8/PPPPPPPP/RNBQKBNR w Kq - 0 1").unwrap();
    assert!(position.castling().get(Color::White, Side::KingSide));
    assert!(!position.castling().get(Color::White, Side::QueenSide));
    assert!(!position.castling().get(Color::Black, Side::KingSide));
    assert!(position.castling().get(Color::Black, Side::QueenSide));

    let position =
        Position::from_fen("rnbqkbnr/pppppppp/8/8/8/8/PPPPPPPP/RNBQKBNR w Qk - 0 1").unwrap();
    assert!(!position.castling().get(Color::White, Side::KingSide));
    assert!(position.castling().get(Color::White, Side::QueenSide));
    assert!(position.castling().get(Color::Black, Side::KingSide));
    assert!(!position.castling().get(Color::Black, Side::QueenSide));
}

#[test]
fn tests_en_passant_parsed_correctly_from_fen() {
    let position = Position::from_fen(STARTING_FEN).unwrap();
    assert_eq!(position.en_passant_sq(), None);

    let position =
        Position::from_fen("rnbqkbnr/ppp2ppp/4p3/3pP3/8/8/PPPP1PPP/RNBQKBNR w KQkq d6 0 3")
            .unwrap();
    assert_eq!(position.en_passant_sq(), Some(Square::D6));
}

#[test]
fn tests_ply_clock_parsed_correctly_from_fen() {
    let position = Position::from_fen(STARTING_FEN).unwrap();
    assert_eq!(position.ply_clock(), 0);

    let position =
        Position::from_fen("rnbqkb1r/pppppppp/8/8/3Nn3/8/PPPPPPPP/RNBQKB1R w KQkq - 4 3").unwrap();
    assert_eq!(position.ply_clock(), 4);
}

#[test]
fn tests_move_number_parsed_correctly_from_fen() {
    let position = Position::from_fen(STARTING_FEN).unwrap();
    assert_eq!(position.move_number(), 1);

    let position =
        Position::from_fen("rnbqkb1r/pppppppp/8/8/3Nn3/8/PPPPPPPP/RNBQKB1R w KQkq - 4 3").unwrap();
    assert_eq!(position.move_number(), 3);
}

