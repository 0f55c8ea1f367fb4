use vstd::prelude::*;

use crate::piece::{Piece, PieceKind};
use crate::piece_map::squares_with;
use crate::position::{Position, PositionState};
use crate::value::Value;

verus! {

/// The largest score in centipawns that an evaluation gives: larger ones would read as
/// mate scores.
pub const MAX_EVAL: i16 = 32666;

/// How many more pieces of kind `kind` the player to move has than the opponent.
pub open spec fn piece_diff_spec(s: PositionState, kind: PieceKind) -> int {
    squares_with(s.pieces, Piece(kind, s.to_move)).len() - squares_with(
        s.pieces,
        Piece(kind, s.to_move.spec_opp()),
    ).len()
}

/// The material balance for the player to move, in centipawns: pawns count 100, knights
/// and bishops 300, rooks 500 and queens 900.
pub open spec fn material_spec(s: PositionState) -> int {
    100 * piece_diff_spec(s, PieceKind::Pawn) + 300 * piece_diff_spec(s, PieceKind::Knight) + 300
        * piece_diff_spec(s, PieceKind::Bishop) + 500 * piece_diff_spec(s, PieceKind::Rook) + 900
        * piece_diff_spec(s, PieceKind::Queen)
}

/// The worth of a piece of kind `k` in centipawns; kings are not counted.
pub open spec fn worth(k: PieceKind) -> int {
    match k {
        PieceKind::Pawn => 100,
        PieceKind::Knight => 300,
        PieceKind::Bishop => 300,
        PieceKind::Rook => 500,
        PieceKind::Queen => 900,
        PieceKind::King => 0,
    }
}

/// The squares holding a piece after one more is put on an empty square.
proof fn lemma_squares_with_put(m: Seq<Option<Piece>>, sq: int, p: Piece, q: Piece)
    requires
        m.len() == 64,
        0 <= sq < 64,
        m[sq] is None,
    ensures
        squares_with(m, q).finite(),
        squares_with(m.update(sq, Some(p)), q).len() == squares_with(m, q).len() + if p == q { 1int } else { 0int },
{
    vstd::set_lib::lemma_int_range(0, 64);
    vstd::set_lib::lemma_len_subset(squares_with(m, q), vstd::set_lib::set_int_range(0, 64));
    if p == q {
        assert(squares_with(m.update(sq, Some(p)), q) =~= squares_with(m, q).insert(sq));
    } else {
        assert(squares_with(m.update(sq, Some(p)), q) =~= squares_with(m, q));
    }
}

/// Putting a piece `p` on an empty square changes the material balance for the player to
/// move by the piece's worth: up for a piece of the player to move, down for one of the
/// opponent.
pub proof fn lemma_material_put(s: PositionState, sq: int, p: Piece)
    requires
        s.pieces.len() == 64,
        0 <= sq < 64,
        s.pieces[sq] is None,
    ensures
        material_spec(PositionState { pieces: s.pieces.update(sq, Some(p)), ..s }) == material_spec(s) + if p.1
            == s.to_move {
            worth(p.0)
        } else {
            -worth(p.0)
        },
{
    lemma_squares_with_put(s.pieces, sq, p, Piece(PieceKind::Pawn, s.to_move));
    lemma_squares_with_put(s.pieces, sq, p, Piece(PieceKind::Pawn, s.to_move.spec_opp()));
    lemma_squares_with_put(s.pieces, sq, p, Piece(PieceKind::Knight, s.to_move));
    lemma_squares_with_put(s.pieces, sq, p, Piece(PieceKind::Knight, s.to_move.spec_opp()));
    lemma_squares_with_put(s.pieces, sq, p, Piece(PieceKind::Bishop, s.to_move));
    lemma_squares_with_put(s.pieces, sq, p, Piece(PieceKind::Bishop, s.to_move.spec_opp()));
    lemma_squares_with_put(s.pieces, sq, p, Piece(PieceKind::Rook, s.to_move));
    lemma_squares_with_put(s.pieces, sq, p, Piece(PieceKind::Rook, s.to_move.spec_opp()));
    lemma_squares_with_put(s.pieces, sq, p, Piece(PieceKind::Queen, s.to_move));
    lemma_squares_with_put(s.pieces, sq, p, Piece(PieceKind::Queen, s.to_move.spec_opp()));
    assert(p.1 == s.to_move || p.1 == s.to_move.spec_opp()) by {
        assert(s.to_move.spec_opp() != s.to_move);
    }
}

/// On a board with no pieces the material balance is even.
pub proof fn lemma_material_empty(s: PositionState)
    requires
        forall|i: int| 0 <= i < 64 ==> #[trigger] s.pieces[i] is None,
    ensures
        material_spec(s) == 0,
{
    assert forall|q: Piece| #[trigger] squares_with(s.pieces, q) == Set::<int>::empty() by {
        assert(squares_with(s.pieces, q) =~= Set::<int>::empty());
    }
}

/// `x` brought into the range of evaluations.
pub open spec fn clamp_eval(x: int) -> int {
    if x > MAX_EVAL {
        MAX_EVAL as int
    } else if x < -MAX_EVAL {
        -MAX_EVAL
    } else {
        x
    }
}

/// How many more pieces of kind `kind` the player to move has than the opponent.
fn piece_diff(position: &Position, kind: PieceKind) -> (r: i32)
    requires
        position.wf(),
    ensures
        r == piece_diff_spec(position@, kind),
        -64 <= r <= 64,
{
    let pieces = position.pieces();
    let to_move = position.to_move();
    pieces.get_bb(Piece(kind, to_move)).len() as i32 - pieces.get_bb(Piece(kind, to_move.opp())).len() as i32
}

/// The material balance for the player to move, in centipawns.
fn get_material_score(position: &Position) -> (r: i32)
    requires
        position.wf(),
    ensures
        r == material_spec(position@),
{
    100 * piece_diff(position, PieceKind::Pawn) + 300 * piece_diff(position, PieceKind::Knight) + 300
        * piece_diff(position, PieceKind::Bishop) + 500 * piece_diff(position, PieceKind::Rook) + 900
        * piece_diff(position, PieceKind::Queen)
}

/// Evaluates a position by its material alone.
#[derive(Clone, Copy, Debug)]
pub struct MaterialEval;

impl MaterialEval {
    pub fn new() -> (r: MaterialEval) {
        MaterialEval
    }

    pub fn create() -> (r: MaterialEval) {
        MaterialEval
    }

    /// The material balance for the player to move, kept within `MAX_EVAL` centipawns.
    pub fn eval(&self, position: &Position) -> (r: Value)
        requires
            position.wf(),
        ensures
            r@ == clamp_eval(material_spec(position@)),
    {
        let material = get_material_score(position);
        let cp: i16 = if material > MAX_EVAL as i32 {
            MAX_EVAL
        } else if material < -(MAX_EVAL as i32) {
            -MAX_EVAL
        } else {
            material as i16
        };
        Value::from_cp(cp)
    }
}

} // verus!
