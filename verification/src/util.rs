use vstd::prelude::*;

use crate::castling::{
    castling_rook_sq_spec, castling_sq_spec, king_sq_spec, rook_sq_spec, CastlingRights,
};
use crate::piece::{Color, Side};
use crate::square::Square;

verus! {

/// The square of the king of `color` before castling.
pub fn get_king_sq(color: Color) -> (r: Square)
    ensures
        r == king_sq_spec(color),
{
    match color {
        Color::White => Square::E1,
        Color::Black => Square::E8,
    }
}

/// The square the king of `color` moves to when castling on `side`.
pub fn get_castling_sq(color: Color, side: Side) -> (r: Square)
    ensures
        r == castling_sq_spec(color, side),
{
    CastlingRights::get_castling_sq(color, side)
}

/// The square of the rook of `color` on `side` before castling.
pub fn get_rook_sq(color: Color, side: Side) -> (r: Square)
    ensures
        r == rook_sq_spec(color, side),
{
    CastlingRights::get_rook_sq(color, side)
}

/// The square of the rook of `color` after castling on `side`.
pub fn get_castling_rook_sq(color: Color, side: Side) -> (r: Square)
    ensures
        r == castling_rook_sq_spec(color, side),
{
    CastlingRights::get_castling_rook_sq(color, side)
}

} // verus!
