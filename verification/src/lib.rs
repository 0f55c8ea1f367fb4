pub mod bitboard;
mod bits;
pub mod castling;
pub mod direction;
pub mod piece;
pub mod square;
pub mod util;
pub mod value;
pub mod moves;
pub mod piece_map;
pub mod zobrist;
pub mod position;
pub mod fen;
pub mod square_map;
pub mod tables;
pub mod move_gen;
pub mod legal;
pub mod eval;
pub mod transposition_table;
pub mod search;
pub mod client;
