use std::sync::atomic::AtomicBool;

use itertools::Itertools;
use kingly::bitboard::Bitboard;
use kingly::castling::CastlingRights;
use kingly::client::{perft, Client};
use kingly::eval::MaterialEval;
use kingly::fen::STARTING_FEN;
use kingly::move_gen::MoveGen;
use kingly::moves::{Move, PseudoMove};
use kingly::piece::{Color, Piece, PieceKind};
use kingly::position::Position;
use kingly::square::Square;
use kingly::tables::Tables;
use kingly::transposition_table::{Bound, Entry, TranspositionTable};
use kingly::value::Value;
use kingly::zobrist::{castling_key_exec, ep_key_exec, piece_key_exec, side_key_exec};

fn fen_error(fen: &str) -> String {
    match Position::from_fen(fen) {
        Ok(_) => panic!("accepted {}", fen),
        Err(e) => e.message,
    }
}

#[test]
fn all_zobrist_keys_different() {

    let mut z_keys = Vec::with_capacity(781);

    for color in [Color::White, Color::Black] {
        for kind in [PieceKind::Pawn, PieceKind::Knight, PieceKind::Bishop, PieceKind::Rook, PieceKind::Queen, PieceKind::King] {
            let pce = Piece(kind, color);
            for sq in Square::iter() {
                z_keys.push(piece_key_exec(pce, sq));
            }
        }
    }

    z_keys.push(side_key_exec(Color::White));

    for wk in [false, true] {
        for wq in [false, true] {
            for bk in [false, true] {
                for bq in [false, true] {
                    z_keys.push(castling_key_exec(&CastlingRights::new(wk, wq, bk, bq)));
                }
            }
        }
    }

    for sq in [Square::A6, Square::B6, Square::C6, Square::D6, Square::E6, Square::F6, Square::G6, Square::H6] {
        z_keys.push(ep_key_exec(Some(sq)));
    }

    assert!(z_keys.into_iter().duplicates().count() == 0);
}

#[test]
fn fen_errors_name_what_is_wrong() {
    assert_eq!(fen_error("rnbqkbnr/pppppppp/8/8/8/8/PPPPPPPP/RNBQKBNR w KQkq - 0"), "Incorrect number of fields");
    assert_eq!(fen_error("rnbqkbnr/pppppppp/8/8/8/PPPPPPPP/RNBQKBNR w KQkq - 0 1"), "Incorrect number of rows");
    assert_eq!(fen_error("rnbqkbnr/ppppppppp/8/8/8/8/PPPPPPPP/RNBQKBNR w KQkq - 0 1"), "Row formatted incorrectly");
    assert_eq!(fen_error("rnbqkbnr/ppppxppp/8/8/8/8/PPPPPPPP/RNBQKBNR w KQkq - 0 1"), "Invalid piece character");
    assert_eq!(fen_error("rnbq1bnr/pppppppp/8/8/8/8/PPPPPPPP/RNBQKBNR w KQkq - 0 1"), "Each player must have exactly one king");
    assert_eq!(fen_error("rnbqkbnr/pppppppp/8/8/8/8/PPPPPPPP/RNBQKBNR x KQkq - 0 1"), "Invalid color");
    assert_eq!(fen_error("rnbqkbnr/pppppppp/8/8/8/8/PPPPPPPP/RNBQKBNR w KQxq - 0 1"), "Invalid castling right");
    assert_eq!(fen_error("rnbqkbnr/pppppppp/8/8/8/8/PPPPPPPP/RNBQKBNR w KQkq e9 0 1"), "Invalid square");
    assert_eq!(fen_error("rnbqkbnr/pppppppp/8/8/8/8/PPPPPPPP/RNBQKBNR w KQkq - x 1"), "Invalid ply clock");
    assert_eq!(fen_error("rnbqkbnr/pppppppp/8/8/8/8/PPPPPPPP/RNBQKBNR w KQkq - 0 -1"), "Invalid move number");
}

#[test]
fn starting_position_equals_its_fen() {
    let position = Position::new();
    let parsed = Position::from_fen(STARTING_FEN).unwrap();
    assert!(position.same_state(&parsed));
    assert_eq!(position.zobrist(), parsed.zobrist());
    assert!(!position.is_draw());
}

#[test]
fn perft_of_starting_position() {
    let move_gen = MoveGen::new(Tables::get());
    let mut position = Position::new();
    assert_eq!(perft(&mut position, &move_gen, 0), 1);
    assert_eq!(perft(&mut position, &move_gen, 1), 20);
    assert_eq!(perft(&mut position, &move_gen, 2), 400);
    assert_eq!(perft(&mut position, &move_gen, 3), 8902);
    assert!(position.same_state(&Position::new()));
}

#[test]
fn perft_of_tricky_positions() {
    let move_gen = MoveGen::new(Tables::get());
    let mut kiwipete =
        Position::from_fen("r3k2r/p1ppqpb1/bn2pnp1/3PN3/1p2P3/2N2Q1p/PPPBBPPP/R3K2R w KQkq - 0 1").unwrap();
    assert_eq!(perft(&mut kiwipete, &move_gen, 1), 48);
    assert_eq!(perft(&mut kiwipete, &move_gen, 2), 2039);
    assert_eq!(perft(&mut kiwipete, &move_gen, 3), 97862);
    let mut endgame = Position::from_fen("8/2p5/3p4/KP5r/1R3p1k/8/4P1P1/8 w - - 0 1").unwrap();
    assert_eq!(perft(&mut endgame, &move_gen, 1), 14);
    assert_eq!(perft(&mut endgame, &move_gen, 2), 191);
    assert_eq!(perft(&mut endgame, &move_gen, 3), 2812);
    assert_eq!(perft(&mut endgame, &move_gen, 4), 43238);
}

#[test]
fn make_then_unmake_restores_hash_and_state() {
    let mut position =
        Position::from_fen("r3k2r/p1ppqpb1/bn2pnp1/3PN3/1p2P3/2N2Q1p/PPPBBPPP/R3K2R w KQkq - 0 1").unwrap();
    let before = position.clone();
    let move_gen = MoveGen::new(Tables::get());
    let moves = move_gen.gen_all_moves(&position).into_vec();
    for mv in moves {
        position.make_move(mv);
        assert!(!position.same_state(&before));
        position.unmake_move();
        assert!(position.same_state(&before));
        assert_eq!(position.zobrist(), before.zobrist());
    }
}

#[test]
fn zobrist_hash_follows_the_moves() {
    let mut position = Position::new();
    position.make_move(Move::new_regular(Square::G1, Square::F3));
    position.make_move(Move::new_regular(Square::G8, Square::F6));
    position.make_move(Move::new_regular(Square::F3, Square::G1));
    position.make_move(Move::new_regular(Square::F6, Square::G8));
    let start = Position::new();
    assert_eq!(position.zobrist(), start.zobrist());
    assert!(!position.same_state(&start));
    assert_eq!(position.ply_clock(), 4);
}

#[test]
fn draws_by_repetition_and_fifty_moves() {
    let mut position = Position::new();
    for _ in 0..2 {
        position.make_move(Move::new_regular(Square::G1, Square::F3));
        position.make_move(Move::new_regular(Square::G8, Square::F6));
        position.make_move(Move::new_regular(Square::F3, Square::G1));
        position.make_move(Move::new_regular(Square::F6, Square::G8));
    }
    assert!(position.is_draw());
    let fifty = Position::from_fen("6kq/8/8/8/5K2/8/8/8 b - - 100 4").unwrap();
    assert!(fifty.is_draw());
    let not_yet = Position::from_fen("6kq/8/8/8/5K2/8/8/8 b - - 99 4").unwrap();
    assert!(!not_yet.is_draw());
}

#[test]
fn material_eval_counts_for_the_player_to_move() {
    let eval = MaterialEval;
    let w = Position::from_fen("4k3/8/8/8/3Q4/8/8/4K3 w - - 0 1").unwrap();
    let b = Position::from_fen("4k3/8/8/8/3Q4/8/8/4K3 b - - 0 1").unwrap();
    assert_eq!(eval.eval(&w), Value::from_cp(900));
    assert_eq!(eval.eval(&b), Value::from_cp(-900));
    assert_eq!(eval.eval(&Position::new()), Value::from_cp(0));
}

#[test]
fn values_order_mates_beyond_centipawns() {
    assert!(Value::from_cp(900).lt(Value::from_inf(5)));
    assert!(Value::from_inf(5).lt(Value::from_inf(2)));
    assert!(Value::from_neg_inf(1).lt(Value::from_neg_inf(3)));
    assert!(Value::from_neg_inf(3).lt(Value::from_cp(-900)));
    assert_eq!(Value::from_inf(2).neg(), Value::from_neg_inf(2));
    assert_eq!(Value::from_inf(2).mate_in(), Some(2));
    assert_eq!(Value::from_neg_inf(1).mated_in(), Some(1));
    assert_eq!(Value::from_cp(35).mate_in(), None);
    assert_eq!(Value::from_cp(35).max(Value::from_cp(-4)), Value::from_cp(35));
}

#[test]
fn transposition_table_gives_back_what_was_stored() {
    let mut table = TranspositionTable::with_capacity(1000);
    assert_eq!(table.capacity(), 1024);
    let position = Position::new();
    assert_eq!(table.get(&position), None);
    let entry = Entry::new(Value::from_cp(35), Move::new_regular(Square::E2, Square::E4), Bound::Exact, 3);
    table.insert(&position, entry);
    assert_eq!(table.get(&position), Some(entry));
    assert_eq!(table.len(), 1);
    let other = Position::from_fen("rnbqkbnr/pppppppp/8/8/3P4/8/PPP1PPPP/RNBQKBNR b KQkq - 0 1").unwrap();
    assert_eq!(table.get(&other), None);
    table.clear();
    assert_eq!(table.len(), 0);
    assert_eq!(table.get(&position), None);
    assert_eq!(TranspositionTable::with_capacity(0).capacity(), 1);
}

#[test]
fn moves_print_in_long_algebraic_notation() {
    assert_eq!(Move::new_regular(Square::E2, Square::E4).to_uci(), "e2e4");
    assert_eq!(Move::new_promotion(Square::B7, Square::A8, PieceKind::Knight).to_uci(), "b7a8n");
    assert_eq!(Move::new_castling(Square::E1, Square::G1).to_uci(), "e1g1");
    let pm = PseudoMove::from_str("e7e8q").unwrap();
    assert_eq!(pm.from, Square::E7);
    assert_eq!(pm.to, Square::E8);
    assert_eq!(pm.promotion, Some(PieceKind::Queen));
    assert!(PseudoMove::from_str("e7e9").is_err());
    assert!(PseudoMove::from_str("e2").is_err());
}

#[test]
fn moves_are_found_among_legal_ones() {
    let legal = [Move::new_regular(Square::E2, Square::E4), Move::new_regular(Square::G1, Square::F3)];
    assert_eq!(Move::try_from("g1f3", &legal), Ok(Move::new_regular(Square::G1, Square::F3)));
    assert_eq!(Move::try_from("g1h3", &legal), Err(String::from("Illegal move 'g1h3'")));
    assert_eq!(Move::try_from("z1h3", &legal), Err(String::from("Invalid square 'z1h3'")));
    assert_eq!(Move::try_from("g1", &legal), Err(String::from("Invalid move 'g1'")));
}

#[test]
fn client_refuses_illegal_moves_and_empty_unmake() {
    let mut client = Client::new();
    client.init();
    assert!(client.is_init());
    assert_eq!(client.get_moves().len(), 20);
    assert_eq!(client.unmake_move(), Err(String::from("No move to unmake")));
    assert_eq!(
        client.make_move(Move::new_regular(Square::E2, Square::E5)),
        Err(String::from("Illegal move: e2e5"))
    );
    assert_eq!(client.make_move(Move::new_regular(Square::E2, Square::E4)), Ok(()));
    assert_eq!(client.get_moves().len(), 20);
    assert_eq!(client.unmake_move(), Ok(()));
    assert!(client.set_position("8/8/8/8 w - - 0 1").is_err());
    assert!(client.set_position("4k3/8/8/8/8/8/8/4K3 w - - 0 1").is_ok());
    assert_eq!(client.perft(1), 5);
}

#[test]
fn client_search_finds_mate() {
    let mut client = Client::new();
    client.init();
    client.set_position("3r2k1/5ppp/8/8/8/8/4R3/K3R3 w - - 0 1").unwrap();
    let results = client.go(None, Some(4), None, None, &AtomicBool::new(false)).unwrap();
    assert_eq!(results.len(), 4);
    assert_eq!(results[3].value, Value::from_inf(2));
    assert_eq!(results[3].line[0], Move::new_regular(Square::E2, Square::E8));
}

#[test]
fn double_step_can_block_a_check() {
    let move_gen = MoveGen::new(Tables::get());
    let position = Position::from_fen("4k3/8/8/8/r6K/8/3P4/8 w - - 0 1").unwrap();
    let moves = move_gen.gen_all_moves(&position);
    assert!(moves.contains(Move::new_regular(Square::D2, Square::D4)));
    assert!(!moves.contains(Move::new_regular(Square::D2, Square::D3)));
    assert_eq!(moves.len(), 5);
}

#[test]
fn en_passant_never_uncovers_a_diagonal_check() {
    let move_gen = MoveGen::new(Tables::get());
    // Taking on d6 would empty d5, between the bishop on b7 and the king on f3.
    let position = Position::from_fen("4k3/1b6/8/3pP3/8/5K2/8/8 w - d6 0 1").unwrap();
    let moves = move_gen.gen_all_moves(&position);
    assert!(!moves.contains(Move::new_en_passant(Square::E5, Square::D6)));
    assert!(moves.contains(Move::new_regular(Square::E5, Square::E6)));
}

fn distinct(moves: &[Move]) -> bool {
    (0..moves.len()).all(|i| (i + 1..moves.len()).all(|j| moves[i] != moves[j]))
}

#[test]
fn each_move_is_generated_once() {
    let move_gen = MoveGen::new(Tables::get());
    for fen in [
        STARTING_FEN,
        "r3k2r/p1ppqpb1/bn2pnp1/3PN3/1p2P3/2N2Q1p/PPPBBPPP/R3K2R w KQkq - 0 1",
        "8/2p5/3p4/KP5r/1R3p1k/8/4P1P1/8 w - - 0 1",
        "r3k2r/Pppp1ppp/1b3nbN/nP6/BBP1P3/q4N2/Pp1P2PP/R2Q1RK1 w kq - 0 1",
    ] {
        let position = Position::from_fen(fen).unwrap();
        let all = move_gen.gen_all_moves(&position).into_vec();
        assert!(distinct(&all));
        let captures = move_gen.gen_captures(&position).into_vec();
        assert!(distinct(&captures));
        assert!(captures.iter().all(|m| all.contains(m)));
    }
}

#[test]
fn client_search_refuses_moves_it_cannot_make() {
    let mut client = Client::new();
    client.init();
    let bad = [PseudoMove::from_str("e2e4").unwrap(), PseudoMove::from_str("e2e5").unwrap()];
    assert_eq!(
        client.go(Some(&bad), Some(1), None, None, &AtomicBool::new(false)).unwrap_err(),
        String::from("Illegal move 'e2e5'")
    );
    let good = [PseudoMove::from_str("e2e4").unwrap()];
    let results = client.go(Some(&good), Some(2), None, None, &AtomicBool::new(false)).unwrap();
    assert_eq!(results.len(), 2);
    assert_eq!(results[0].line[0], Move::new_regular(Square::E2, Square::E4));
}

#[test]
fn client_search_of_a_mated_side_has_no_result() {
    let mut client = Client::new();
    client.init();
    client.set_position("rnb1kbnr/pppp1ppp/8/4p3/6Pq/5P2/PPPPP2P/RNBQKBNR w KQkq - 1 3").unwrap();
    assert_eq!(client.get_moves().len(), 0);
    let results = client.go(None, Some(3), None, None, &AtomicBool::new(false)).unwrap();
    assert!(results.is_empty());
}

fn set_error(fen: &str) -> String {
    let mut position = Position::new();
    match position.set(fen) {
        Ok(()) => panic!("accepted {}", fen),
        Err(e) => e.message,
    }
}

#[test]
fn set_reads_fen_as_the_classic_parser() {
    assert_eq!(
        set_error("rnbqkbnr/pppppppp/8/8/8/8/PPPPPPP/RNBQKBNR w KQkq - 0 1"),
        "Row formatted wrong"
    );
    assert_eq!(set_error("K7/8/8/8/8/8/8/7k w -\tq - 0 1"), "Not enough fields");
    assert_eq!(set_error("K7/8/8/8/8/8/8/7k x - - 0 1"), "Not a valid color character");
    assert_eq!(set_error("K7/8/8/8/8/8/8/7k w K- - 0 1"), "Illegal character in castling rights");
    assert_eq!(set_error("K7/8/8/8/8/8/8/7k w - - x 1"), "Ply clock must be a number");
    assert_eq!(set_error("K7/8/8/8/8/8/8/7x w - - 0 1"), "Not a valid piece character");
    let mut position = Position::new();
    assert!(position.set("  rnbqkbnr/pppppppp/8/8/4P3/8/PPPP1PPP/RNBQKBNR\tB KQkq e3  0 1 ").is_ok());
    assert_eq!(position.to_move(), Color::Black);
    assert_eq!(position.en_passant_sq(), Some(Square::E3));
    assert!(position.set("8/8/8/8/8/8/8/8 w - - 300 1").is_ok());
    assert_eq!(position.ply_clock(), 255);
    assert!(Position::from_fen("rnbqkbnr/pppppppp/8/8/8/8/PPPPPPP/RNBQKBNR w KQkq - 0 1").is_ok());
}

#[test]
fn scores_have_a_text_form() {
    assert_eq!(Value::from_inf(2).to_text(), "mate 2");
    assert_eq!(Value::from_neg_inf(3).to_text(), "mate -3");
    assert_eq!(Value::from_cp(-25).to_text(), "cp -25");
    assert_eq!(Value::from_cp(900).to_text(), "cp 900");
    assert_eq!(Value::from_cp(0).to_text(), "cp 0");
}

#[test]
fn bitboard_squares_come_lowest_first() {
    let b = Bitboard::new().add_sq(Square::H8).add_sq(Square::A1).add_sq(Square::E4);
    assert_eq!(b.squares(), vec![Square::A1, Square::E4, Square::H8]);
    assert!(Bitboard::new().squares().is_empty());
}

#[test]
fn starting_fen_gives_the_new_position() {
    let from_fen = Position::from_fen(STARTING_FEN).unwrap();
    assert!(from_fen.same_state(&Position::new()));
    assert_eq!(from_fen.last_move(), None);
}

#[test]
fn nodes_per_second_is_nodes_over_time() {
    assert_eq!(kingly::search::nodes_per_second(500, 1_000_000_000), 500);
    assert_eq!(kingly::search::nodes_per_second(3, 2_000_000_000), 1);
    assert_eq!(kingly::search::nodes_per_second(7, 0), 0);
}
