use kingly::bitboard::Bitboard;
use kingly::square::{BinVec, Square};

#[test]
fn test_ranks() {
    let vec = BinVec(6);
    assert_eq!(vec.ranks(), 1);
    let vec = BinVec(18);
    assert_eq!(vec.ranks(), 2);
    let vec = BinVec(12);
    assert_eq!(vec.ranks(), 1);
    let vec = BinVec(13);
    assert_eq!(vec.ranks(), 2);
    let vec = BinVec(-6);
    assert_eq!(vec.ranks(), -1);
    let vec = BinVec(-18);
    assert_eq!(vec.ranks(), -2);
    let vec = BinVec(-12);
    assert_eq!(vec.ranks(), -1);
    let vec = BinVec(-13);
    assert_eq!(vec.ranks(), -2);
}

#[test]
fn test_files() {
    let vec = BinVec(6);
    assert_eq!(vec.files(), -2);
    let vec = BinVec(18);
    assert_eq!(vec.files(), 2);
    let vec = BinVec(12);
    assert_eq!(vec.files(), 4);
    let vec = BinVec(13);
    assert_eq!(vec.files(), -3);
    let vec = BinVec(-6);
    assert_eq!(vec.files(), 2);
    let vec = BinVec(-18);
    assert_eq!(vec.files(), -2);
    let vec = BinVec(-12);
    assert_eq!(vec.files(), -4);
    let vec = BinVec(-13);
    assert_eq!(vec.files(), 3);
}

#[test]
fn sub_test() {
    let a = Bitboard::new().add_sq(Square::A1).add_sq(Square::A2);
    let b = Bitboard::new().add_sq(Square::A1).add_sq(Square::H8);
    assert_eq!(a.minus(b), Bitboard::new().add_sq(Square::A2));
}
