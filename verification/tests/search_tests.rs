use std::sync::atomic::AtomicBool;

use kingly::eval::MaterialEval;
use kingly::move_gen::MoveGen;
use kingly::moves::Move;
use kingly::position::Position;
use kingly::search::Search;
use kingly::square::Square;
use kingly::tables::Tables;
use kingly::transposition_table::TranspositionTable;
use kingly::value::Value;

/// The value of the deepest iteration that completed, or `value` if none did.
fn search_value(position: Position, depth: u8, value: Value) -> Value {
    let move_gen = MoveGen::new(Tables::get());
    let mut trans_table = TranspositionTable::with_capacity(0);
    let results = Search::new(position, &move_gen, MaterialEval)
        .depth(depth)
        .start(&mut trans_table, &AtomicBool::new(false));
    match results.last() {
        Some(sr) => sr.value,
        None => value,
    }
}

#[test]
fn queen_standoff_should_give_advantage_to_player_to_move() {
    let w_to_move_pos = Position::from_fen("4k3/8/8/3q4/3Q4/8/8/4K3 w - - 0 1").unwrap();
    let b_to_move_pos = Position::from_fen("4k3/8/8/3q4/3Q4/8/8/4K3 b - - 0 1").unwrap();

    let w_value = search_value(w_to_move_pos, 1, Value::from_cp(0));
    let b_value = search_value(b_to_move_pos, 1, Value::from_cp(0));

    // The player to move should have a value of 900 (1 queen) at depth 1
    assert_eq!(w_value, Value::from_cp(900));
    assert_eq!(b_value, Value::from_cp(900));
}

#[test]
fn finds_mate_in_two() {
    let position = Position::from_fen("3r2k1/5ppp/8/8/8/8/4R3/K3R3 w - - 0 1").unwrap();
    let value = search_value(position, 4, Value::from_cp(0));
    assert_eq!(value, Value::from_inf(2));
}

#[test]
fn finds_threefold_repetition() {
    let mut position = Position::from_fen("6kq/6p1/6Q1/8/8/8/1q6/6K1 w - - 0 1").unwrap();
    {
        position.make_move(Move::Regular(Square::G6, Square::E8));
        position.make_move(Move::Regular(Square::G8, Square::H7));
        position.make_move(Move::Regular(Square::E8, Square::H5));
        position.make_move(Move::Regular(Square::H7, Square::G8));
        position.make_move(Move::Regular(Square::H5, Square::E8));
        position.make_move(Move::Regular(Square::G8, Square::H7));
    }
    let value = search_value(position, 4, Value::from_cp(-100));
    assert_eq!(value, Value::from_cp(0));
}

#[test]
fn finds_fifty_move_draw() {
    let position = Position::from_fen("6kq/8/8/8/5K2/8/8/8 b - - 98 4").unwrap();
    let value = search_value(position, 2, Value::from_cp(-100));
    assert_eq!(value, Value::from_cp(0));
}

#[test]
fn no_fifty_move_draw_on_checkmate() {
    let position = Position::from_fen("7q/5kp1/8/8/8/8/1q6/6K1 w - - 98 2").unwrap();
    let value = search_value(position, 4, Value::from_cp(0));
    assert_eq!(value, Value::from_neg_inf(1));
}
