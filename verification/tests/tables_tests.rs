use kingly::bitboard::Bitboard;
use kingly::square::Square;
use kingly::tables::Tables;

fn bb(sqs: &[Square]) -> Bitboard {
    let mut b = Bitboard::new();
    for sq in sqs {
        b = b.add_sq(*sq);
    }
    b
}

#[test]
fn bishop_masks_initialized_correctly() {
    let tables = Tables::get();
    assert_eq!(tables.bishop_masks(Square::A8), bb(&[Square::B7, Square::C6, Square::D5, Square::E4, Square::F3, Square::G2]));
    assert_eq!(tables.bishop_masks(Square::B2), bb(&[Square::C3, Square::D4, Square::E5, Square::F6, Square::G7]));
    assert_eq!(tables.bishop_masks(Square::D5), bb(&[Square::E6, Square::F7, Square::E4, Square::F3, Square::G2, Square::C4, Square::B3, Square::C6, Square::B7]));
}

#[test]
fn rook_masks_initialized_correctly() {
    let tables = Tables::get();
    assert_eq!(tables.rook_masks(Square::A8), bb(&[Square::B8, Square::C8, Square::D8, Square::E8, Square::F8, Square::G8, Square::A7, Square::A6, Square::A5, Square::A4, Square::A3, Square::A2]));
    assert_eq!(tables.rook_masks(Square::B2), bb(&[Square::B3, Square::B4, Square::B5, Square::B6, Square::B7, Square::C2, Square::D2, Square::E2, Square::F2, Square::G2]));
    assert_eq!(tables.rook_masks(Square::D5), bb(&[Square::E5, Square::F5, Square::G5, Square::D4, Square::D3, Square::D2, Square::C5, Square::B5, Square::D6, Square::D7]));
}

#[test]
fn line_through_initialized_correctly() {
    let tables = Tables::get();
    assert_eq!(tables.line_through(Square::B1, Square::B5), bb(&[Square::B1, Square::B2, Square::B3, Square::B4, Square::B5, Square::B6, Square::B7, Square::B8]));
    assert_eq!(tables.line_through(Square::F8, Square::C5), bb(&[Square::A3, Square::B4, Square::C5, Square::D6, Square::E7, Square::F8]));
    assert_eq!(tables.line_through(Square::D4, Square::E4), bb(&[Square::A4, Square::B4, Square::C4, Square::D4, Square::E4, Square::F4, Square::G4, Square::H4]));
    assert_eq!(tables.line_through(Square::A8, Square::H1), bb(&[Square::A8, Square::B7, Square::C6, Square::D5, Square::E4, Square::F3, Square::G2, Square::H1]));
    assert_eq!(tables.line_through(Square::C4, Square::D6), Bitboard::new());
}

#[test]
fn ray_to_initialized_correctly() {
    let tables = Tables::get();

    assert_eq!(tables.ray_to(Square::B1, Square::B5), bb(&[Square::B2, Square::B3, Square::B4, Square::B5]));
    assert_eq!(tables.ray_to(Square::F8, Square::C5), bb(&[Square::E7, Square::D6, Square::C5]));
    assert_eq!(tables.ray_to(Square::C4, Square::D6), Bitboard::new());
}

#[test]
fn leaper_attacks_from_corners_and_centre() {
    let tables = Tables::get();
    assert_eq!(tables.knight_attacks(Square::A1), bb(&[Square::B3, Square::C2]));
    assert_eq!(tables.knight_attacks(Square::D4), bb(&[Square::C2, Square::E2, Square::B3, Square::F3, Square::B5, Square::F5, Square::C6, Square::E6]));
    assert_eq!(tables.king_attacks(Square::H8), bb(&[Square::G8, Square::G7, Square::H7]));
    assert_eq!(tables.white_pawn_attacks(Square::A2), bb(&[Square::B3]));
    assert_eq!(tables.white_pawn_attacks(Square::E4), bb(&[Square::D5, Square::F5]));
    assert_eq!(tables.black_pawn_attacks(Square::H7), bb(&[Square::G6]));
    assert_eq!(tables.white_pawn_attacks(Square::E8), Bitboard::new());
}

#[test]
fn slider_lookups_stop_at_blockers() {
    let tables = Tables::get();
    let occ = bb(&[Square::D6, Square::F4, Square::B2, Square::D1]);
    assert_eq!(tables.gen_rook_attacks(occ, Square::D4), bb(&[Square::D5, Square::D6, Square::D3, Square::D2, Square::D1, Square::C4, Square::B4, Square::A4, Square::E4, Square::F4]));
    assert_eq!(
        tables.gen_bishop_attacks(occ, Square::D4),
        bb(&[Square::E5, Square::F6, Square::G7, Square::H8, Square::C5, Square::B6, Square::A7, Square::C3, Square::B2, Square::E3, Square::F2, Square::G1])
    );
    assert_eq!(tables.gen_rook_attacks(Bitboard::new(), Square::A1).len(), 14);
    assert_eq!(tables.ray_to(Square::A1, Square::A1), bb(&[Square::A1]));
}
