use vstd::prelude::*;

use crate::bitboard::{shifted, Bitboard};
use crate::piece::{Color, Piece, PieceKind};
use crate::piece_map::{occupied_squares, squares_of_color, squares_with};
use crate::direction::Direction;
use crate::moves::{Move, MoveList};
use crate::piece::Side;
use crate::position::{applicable, fourth_rank, second_rank, side_of, up_dir, Position, PositionState};
use crate::castling::{castling_sq_spec, king_sq_spec, rook_sq_spec, CastlingRights};
use crate::square::{file_of, on_board, rank_of};
use crate::square::{Square, SquareVec};
use crate::legal::{
    gen_ctx, king_ctx, lemma_castling_safe, lemma_ep_safe, lemma_guarded_move_safe, lemma_king_move_safe,
    lemma_list_safe_push, list_safe, sane, answers_check, ep_guarded, guarded, sliders_of, legal_move,
    lemma_check_has_checker, lemma_single, lemma_after_ep, lemma_legal_facts, answered,
};
use crate::position::{ep_capture_sq, make_spec};
use crate::tables::{
    bishop_attacks, black_pawn_vecs, king_vecs, knight_vecs, line_through_spec, ray_clear, ray_on,
    ray_reaches, ray_set, ray_sq, ray_to_spec, rook_attacks, step_ok, step_set, step_target, times,
    unit_dir, white_pawn_vecs, Tables,
};

verus! {

/// The steps of a pawn's capture for `c`.
pub open spec fn pawn_vecs(c: Color) -> Seq<SquareVec> {
    match c {
        Color::White => white_pawn_vecs(),
        Color::Black => black_pawn_vecs(),
    }
}

/// The squares a piece `p` on `sq` attacks when the squares of `occ` are occupied.
pub open spec fn piece_attacks(p: Piece, sq: int, occ: Set<int>) -> Set<int> {
    match p.0 {
        PieceKind::Pawn => step_set(sq, pawn_vecs(p.1)),
        PieceKind::Knight => step_set(sq, knight_vecs()),
        PieceKind::Bishop => bishop_attacks(sq, occ),
        PieceKind::Rook => rook_attacks(sq, occ),
        PieceKind::Queen => bishop_attacks(sq, occ) + rook_attacks(sq, occ),
        PieceKind::King => step_set(sq, king_vecs()),
    }
}

/// The occupied squares of a position.
pub open spec fn occupied(s: PositionState) -> Set<int> {
    occupied_squares(s.pieces)
}

/// The squares attacked by pieces `p` standing on the squares of `from`.
pub open spec fn attacks_from_set(p: Piece, from: Set<int>, occ: Set<int>) -> Set<int> {
    Set::new(|t: int| exists|f: int| from.contains(f) && #[trigger] piece_attacks(p, f, occ).contains(t))
}

/// The squares attacked by the pieces of `c` in position `s`, with the squares of `occ`
/// counted as occupied.
pub open spec fn attacked_by(s: PositionState, c: Color, occ: Set<int>) -> Set<int> {
    attacks_from_set(Piece(PieceKind::Pawn, c), squares_with(s.pieces, Piece(PieceKind::Pawn, c)), occ)
        + attacks_from_set(Piece(PieceKind::Knight, c), squares_with(s.pieces, Piece(PieceKind::Knight, c)), occ)
        + attacks_from_set(Piece(PieceKind::Bishop, c), squares_with(s.pieces, Piece(PieceKind::Bishop, c)), occ)
        + attacks_from_set(Piece(PieceKind::Rook, c), squares_with(s.pieces, Piece(PieceKind::Rook, c)), occ)
        + attacks_from_set(Piece(PieceKind::Queen, c), squares_with(s.pieces, Piece(PieceKind::Queen, c)), occ)
        + attacks_from_set(Piece(PieceKind::King, c), squares_with(s.pieces, Piece(PieceKind::King, c)), occ)
}

/// The squares the king of the player to move may not step on: those the opponent attacks,
/// looking through that king.
pub open spec fn danger_spec(s: PositionState) -> Set<int> {
    attacked_by(
        s,
        s.to_move.spec_opp(),
        occupied(s).difference(squares_with(s.pieces, Piece(PieceKind::King, s.to_move))),
    )
}

/// Square `k` holds the king of `c` and no square before it does.
pub open spec fn is_first_king(s: PositionState, c: Color, k: int) -> bool {
    &&& 0 <= k < 64
    &&& s.pieces[k] == Some(Piece(PieceKind::King, c))
    &&& forall|j: int| 0 <= j < k ==> s.pieces[j] != Some(Piece(PieceKind::King, c))
}

/// Whether `c` has a king on the board.
pub open spec fn has_king(s: PositionState, c: Color) -> bool {
    exists|k: int| 0 <= k < 64 && s.pieces[k] == Some(Piece(PieceKind::King, c))
}

/// The square of the king of `c`: the first one if there are several.
pub open spec fn king_square(s: PositionState, c: Color) -> int {
    choose|k: int| is_first_king(s, c, k)
}

/// Whether the king of the player to move is attacked.
pub open spec fn in_check(s: PositionState) -> bool {
    has_king(s, s.to_move) && danger_spec(s).contains(king_square(s, s.to_move))
}

pub proof fn lemma_first_king_unique(s: PositionState, c: Color, k: int)
    requires
        is_first_king(s, c, k),
    ensures
        king_square(s, c) == k,
        has_king(s, c),
{
    let k2 = king_square(s, c);
    assert(is_first_king(s, c, k2));
    if k2 < k {
        assert(s.pieces[k2] != Some(Piece(PieceKind::King, c)));
    }
    if k < k2 {
        assert(s.pieces[k] != Some(Piece(PieceKind::King, c)));
    }
}

/// The pieces of the opponent of the player to move that attack square `k` (kings aside).
pub open spec fn checkers_spec(s: PositionState, k: int) -> Set<int> {
    Set::new(
        |p: int|
            0 <= p < 64 && s.pieces[p] is Some && s.pieces[p].unwrap().1 == s.to_move.spec_opp()
                && s.pieces[p].unwrap().0 != PieceKind::King && piece_attacks(
                s.pieces[p].unwrap(),
                p,
                occupied(s),
            ).contains(k),
    )
}

/// The step opposite to `v`.
pub open spec fn neg_vec(v: SquareVec) -> SquareVec {
    SquareVec((-v.0) as i8, (-v.1) as i8)
}

/// If a step of `v` leads from `a` to `b`, a step of `w` leads back, when `w` holds the
/// opposite of each step of `v`.
proof fn lemma_step_sym(a: int, b: int, v: Seq<SquareVec>, w: Seq<SquareVec>)
    requires
        0 <= a < 64,
        forall|j: int| 0 <= j < v.len() ==> -8 <= (#[trigger] v[j]).0 <= 8 && -8 <= v[j].1 <= 8,
        forall|j: int| 0 <= j < v.len() ==> w.contains(neg_vec(#[trigger] v[j])),
        step_set(a, v).contains(b),
    ensures
        step_set(b, w).contains(a),
{
    let j = choose|j: int| 0 <= j < v.len() && step_ok(a, v[j]) && b == step_target(a, #[trigger] v[j]);
    assert(w.contains(neg_vec(v[j])));
    let k = choose|k: int| 0 <= k < w.len() && w[k] == neg_vec(v[j]);
    assert(step_ok(b, w[k]) && a == step_target(b, w[k]));
}

/// The pawn, knight and king steps are closed under reversal, white's pawn steps reversing
/// to black's.
proof fn lemma_vec_sets()
    ensures
        forall|j: int| 0 <= j < 2 ==> black_pawn_vecs().contains(neg_vec(#[trigger] white_pawn_vecs()[j])),
        forall|j: int| 0 <= j < 2 ==> white_pawn_vecs().contains(neg_vec(#[trigger] black_pawn_vecs()[j])),
        forall|j: int| 0 <= j < 8 ==> knight_vecs().contains(neg_vec(#[trigger] knight_vecs()[j])),
{
    let w = white_pawn_vecs();
    let b = black_pawn_vecs();
    let n = knight_vecs();
    assert(b[1] == neg_vec(w[0]));
    assert(b[0] == neg_vec(w[1]));
    assert(w[1] == neg_vec(b[0]));
    assert(w[0] == neg_vec(b[1]));
    assert(n[4] == neg_vec(n[0]));
    assert(n[5] == neg_vec(n[1]));
    assert(n[6] == neg_vec(n[2]));
    assert(n[7] == neg_vec(n[3]));
    assert(n[0] == neg_vec(n[4]));
    assert(n[1] == neg_vec(n[5]));
    assert(n[2] == neg_vec(n[6]));
    assert(n[3] == neg_vec(n[7]));
}

/// If a slider on `a` attacks `b` along a ray, a slider on `b` attacks `a` along the
/// opposite ray.
proof fn lemma_ray_sym(a: int, b: int, dr: int, df: int, occ: Set<int>)
    requires
        0 <= a < 64,
        unit_dir(dr, df),
        ray_set(a, dr, df, occ).contains(b),
    ensures
        ray_set(b, -dr, -df, occ).contains(a),
{
    let d = choose|d: int| ray_reaches(a, dr, df, occ, d) && b == #[trigger] ray_sq(a, dr, df, d);
    assert forall|j: int| 1 <= j < d implies !occ.contains(#[trigger] ray_sq(b, -dr, -df, j)) by {
        assert(ray_sq(b, -dr, -df, j) == ray_sq(a, dr, df, d - j));
    }
    assert(ray_reaches(b, -dr, -df, occ, d));
    assert(a == ray_sq(b, -dr, -df, d));
}

/// A bishop on `a` attacks `b` exactly when a bishop on `b` attacks `a`.
pub proof fn lemma_bishop_sym(a: int, b: int, occ: Set<int>)
    requires
        0 <= a < 64,
        0 <= b < 64,
    ensures
        bishop_attacks(a, occ).contains(b) <==> bishop_attacks(b, occ).contains(a),
{
    if ray_set(a, 1, 1, occ).contains(b) { lemma_ray_sym(a, b, 1, 1, occ); }
    if ray_set(a, -1, 1, occ).contains(b) { lemma_ray_sym(a, b, -1, 1, occ); }
    if ray_set(a, -1, -1, occ).contains(b) { lemma_ray_sym(a, b, -1, -1, occ); }
    if ray_set(a, 1, -1, occ).contains(b) { lemma_ray_sym(a, b, 1, -1, occ); }
    if ray_set(b, 1, 1, occ).contains(a) { lemma_ray_sym(b, a, 1, 1, occ); }
    if ray_set(b, -1, 1, occ).contains(a) { lemma_ray_sym(b, a, -1, 1, occ); }
    if ray_set(b, -1, -1, occ).contains(a) { lemma_ray_sym(b, a, -1, -1, occ); }
    if ray_set(b, 1, -1, occ).contains(a) { lemma_ray_sym(b, a, 1, -1, occ); }
}

/// A rook on `a` attacks `b` exactly when a rook on `b` attacks `a`.
pub proof fn lemma_rook_sym(a: int, b: int, occ: Set<int>)
    requires
        0 <= a < 64,
        0 <= b < 64,
    ensures
        rook_attacks(a, occ).contains(b) <==> rook_attacks(b, occ).contains(a),
{
    if ray_set(a, 1, 0, occ).contains(b) { lemma_ray_sym(a, b, 1, 0, occ); }
    if ray_set(a, 0, 1, occ).contains(b) { lemma_ray_sym(a, b, 0, 1, occ); }
    if ray_set(a, -1, 0, occ).contains(b) { lemma_ray_sym(a, b, -1, 0, occ); }
    if ray_set(a, 0, -1, occ).contains(b) { lemma_ray_sym(a, b, 0, -1, occ); }
    if ray_set(b, 1, 0, occ).contains(a) { lemma_ray_sym(b, a, 1, 0, occ); }
    if ray_set(b, 0, 1, occ).contains(a) { lemma_ray_sym(b, a, 0, 1, occ); }
    if ray_set(b, -1, 0, occ).contains(a) { lemma_ray_sym(b, a, -1, 0, occ); }
    if ray_set(b, 0, -1, occ).contains(a) { lemma_ray_sym(b, a, 0, -1, occ); }
}

/// The checkers of the king on `k`, found from `k`: the pawns that a pawn of the player to
/// move on `k` would attack, the knights a knight on `k` would attack, and so on.
pub open spec fn checkers_from_king(s: PositionState, k: int) -> Set<int> {
    let us = s.to_move;
    let them = us.spec_opp();
    let occ = occupied(s);
    step_set(k, pawn_vecs(us)).intersect(squares_with(s.pieces, Piece(PieceKind::Pawn, them)))
        + step_set(k, knight_vecs()).intersect(squares_with(s.pieces, Piece(PieceKind::Knight, them)))
        + bishop_attacks(k, occ).intersect(
        squares_with(s.pieces, Piece(PieceKind::Bishop, them)) + squares_with(s.pieces, Piece(PieceKind::Queen, them)),
    ) + rook_attacks(k, occ).intersect(
        squares_with(s.pieces, Piece(PieceKind::Rook, them)) + squares_with(s.pieces, Piece(PieceKind::Queen, them)),
    )
}

proof fn lemma_checker_at(s: PositionState, k: int, p: int)
    requires
        0 <= k < 64,
        0 <= p < 64,
    ensures
        checkers_from_king(s, k).contains(p) <==> checkers_spec(s, k).contains(p),
{
    let us = s.to_move;
    let them = us.spec_opp();
    let occ = occupied(s);
    if s.pieces[p] is Some && s.pieces[p].unwrap().1 == them {
        let kind = s.pieces[p].unwrap().0;
        if kind == PieceKind::Pawn {
            lemma_vec_sets();
            if step_set(k, pawn_vecs(us)).contains(p) {
                lemma_step_sym(k, p, pawn_vecs(us), pawn_vecs(them));
            }
            if step_set(p, pawn_vecs(them)).contains(k) {
                lemma_step_sym(p, k, pawn_vecs(them), pawn_vecs(us));
            }
        } else if kind == PieceKind::Knight {
            lemma_vec_sets();
            if step_set(k, knight_vecs()).contains(p) {
                lemma_step_sym(k, p, knight_vecs(), knight_vecs());
            }
            if step_set(p, knight_vecs()).contains(k) {
                lemma_step_sym(p, k, knight_vecs(), knight_vecs());
            }
        } else if kind == PieceKind::Bishop {
            lemma_bishop_sym(k, p, occ);
        } else if kind == PieceKind::Rook {
            lemma_rook_sym(k, p, occ);
        } else if kind == PieceKind::Queen {
            lemma_bishop_sym(k, p, occ);
            lemma_rook_sym(k, p, occ);
        }
    }
}

proof fn lemma_checkers_sets(s: PositionState, k: int, r: Set<int>)
    requires
        0 <= k < 64,
        r == checkers_from_king(s, k),
    ensures
        r == checkers_spec(s, k),
{
    assert forall|p: int| r.contains(p) <==> checkers_spec(s, k).contains(p) by {
        if 0 <= p < 64 {
            lemma_checker_at(s, k, p);
        }
    }
    assert(r =~= checkers_spec(s, k));
}

/// The opponent's bishops, rooks and queens that would attack square `k` if only the
/// opponent's pieces stood on the board.
pub open spec fn pinners_spec(s: PositionState, k: int) -> Set<int> {
    let them = s.to_move.spec_opp();
    let opp_occ = squares_of_color(s.pieces, them);
    bishop_attacks(k, opp_occ).intersect(
        squares_with(s.pieces, Piece(PieceKind::Bishop, them)) + squares_with(s.pieces, Piece(PieceKind::Queen, them)),
    ) + rook_attacks(k, opp_occ).intersect(
        squares_with(s.pieces, Piece(PieceKind::Rook, them)) + squares_with(s.pieces, Piece(PieceKind::Queen, them)),
    )
}

/// Whether the line from `k` to the pinner `p` holds exactly one piece that is not a pinner.
pub open spec fn pins_one(s: PositionState, k: int, p: int) -> bool {
    ray_to_spec(k, p).difference(pinners_spec(s, k)).intersect(occupied(s)).len() == 1
}

/// The squares from the king on `k` to each pinner, the pinner included, along the lines
/// that hold exactly one other piece: a piece there may only move along its line.
pub open spec fn pin_rays_spec(s: PositionState, k: int) -> Set<int> {
    rays_of(s, k, pinners_spec(s, k))
}

/// The squares from `k` to each square `p` of `ps` that pins one piece, `p` included.
pub open spec fn rays_of(s: PositionState, k: int, ps: Set<int>) -> Set<int> {
    Set::new(
        |t: int| exists|p: int| ps.contains(p) && pins_one(s, k, p) && #[trigger] ray_to_spec(k, p).contains(t),
    )
}

/// An opponent's piece stands on square `sq`.
pub open spec fn enemy_on(s: PositionState, sq: int) -> bool {
    s.pieces[sq] is Some && s.pieces[sq].unwrap().1 == s.to_move.spec_opp()
}

/// No piece of the player to move stands on square `sq`.
pub open spec fn not_own(s: PositionState, sq: int) -> bool {
    s.pieces[sq] is None || s.pieces[sq].unwrap().1 != s.to_move
}

/// The rank (0-based) on which the pawns of `c` promote.
pub open spec fn last_rank(c: Color) -> int {
    match c {
        Color::White => 7,
        Color::Black => 0,
    }
}

/// A pawn of the player to move goes one step forward from `from` to the empty `to`.
pub open spec fn pawn_push(s: PositionState, from: int, to: int) -> bool {
    to == from + up_dir(s.to_move).spec_offset() && s.pieces[to] is None
}

/// A pawn of the player to move goes two steps forward from its starting rank, over an
/// empty square to the empty `to`.
pub open spec fn pawn_double_push(s: PositionState, from: int, to: int) -> bool {
    let up = up_dir(s.to_move).spec_offset();
    &&& rank_of(from) == second_rank(s.to_move)
    &&& to == from + 2 * up
    &&& s.pieces[from + up] is None
    &&& s.pieces[to] is None
}

/// A pawn of the player to move on `from` takes an opponent's piece on `to`.
pub open spec fn pawn_capture(s: PositionState, from: int, to: int) -> bool {
    step_set(from, pawn_vecs(s.to_move)).contains(to) && enemy_on(s, to)
}

/// The squares between the king and the rook that must be empty to castle.
pub open spec fn castling_empty_sqs(c: Color, side: Side) -> Set<int> {
    match (c, side) {
        (Color::White, Side::KingSide) => set![5int, 6int],
        (Color::White, Side::QueenSide) => set![1int, 2int, 3int],
        (Color::Black, Side::KingSide) => set![61int, 62int],
        (Color::Black, Side::QueenSide) => set![57int, 58int, 59int],
    }
}

/// The squares the king stands on or crosses when castling, which must not be attacked.
pub open spec fn castling_king_path(c: Color, side: Side) -> Set<int> {
    match (c, side) {
        (Color::White, Side::KingSide) => set![4int, 5int, 6int],
        (Color::White, Side::QueenSide) => set![2int, 3int, 4int],
        (Color::Black, Side::KingSide) => set![60int, 61int, 62int],
        (Color::Black, Side::QueenSide) => set![58int, 59int, 60int],
    }
}

/// Move `m` can be made in `s` and follows the way its piece moves: a pawn steps forward
/// onto an empty square (two steps from its starting rank) or takes diagonally, promoting
/// on the last rank; another piece goes to a square it attacks that holds no piece of its
/// own; an en passant capture lands on the en passant square; castling needs the right,
/// empty squares between king and rook, and a king path that the opponent does not attack.
/// Whether the move leaves the king in check is not part of it.
pub open spec fn legal_shape(s: PositionState, m: Move) -> bool {
    let us = s.to_move;
    &&& applicable(s, m)
    &&& match m {
        Move::Regular(from, to) => {
            let p = s.pieces[from.idx()].unwrap();
            &&& not_own(s, to.idx())
            &&& if p.0 == PieceKind::Pawn {
                &&& rank_of(to.idx()) != last_rank(us)
                &&& (pawn_push(s, from.idx(), to.idx()) || pawn_double_push(s, from.idx(), to.idx())
                    || pawn_capture(s, from.idx(), to.idx()))
            } else {
                piece_attacks(p, from.idx(), occupied(s)).contains(to.idx())
            }
        },
        Move::Promotion(from, to, kind) => {
            &&& rank_of(to.idx()) == last_rank(us)
            &&& (pawn_push(s, from.idx(), to.idx()) || pawn_capture(s, from.idx(), to.idx()))
            &&& kind != PieceKind::Pawn
            &&& kind != PieceKind::King
        },
        Move::EnPassant(from, to) => {
            &&& s.en_passant_sq == Some(to)
            &&& step_set(from.idx(), pawn_vecs(us)).contains(to.idx())
        },
        Move::Castling(from, to) => {
            &&& s.castling.spec_get(us, side_of(to))
            &&& forall|i: int| #[trigger] castling_empty_sqs(us, side_of(to)).contains(i) ==> s.pieces[i] is None
            &&& castling_king_path(us, side_of(to)).disjoint(danger_spec(s))
        },
    }
}

/// Move `m` takes a piece.
pub open spec fn is_capture(s: PositionState, m: Move) -> bool {
    match m {
        Move::Regular(_, to) => enemy_on(s, to.idx()),
        Move::Promotion(_, to, _) => enemy_on(s, to.idx()),
        Move::EnPassant(_, _) => true,
        Move::Castling(_, _) => false,
    }
}

/// Move `m` follows the rules of `legal_shape`, and takes a piece if `captures_only`.
pub open spec fn move_ok(s: PositionState, m: Move, captures_only: bool) -> bool {
    legal_shape(s, m) && (captures_only ==> is_capture(s, m))
}

/// Every move of `l` is as `move_ok` says.
pub open spec fn list_ok(l: Seq<Move>, s: PositionState, captures_only: bool) -> bool {
    forall|i: int| 0 <= i < l.len() ==> move_ok(s, #[trigger] l[i], captures_only)
}

/// The square with index `i`.
pub open spec fn sq_of(i: int) -> Square {
    Square::from_index_spec(i)
}

/// The pawn move from `f` to `t` (each of the four promotions if `promo`) is as `move_ok`
/// says.
pub open spec fn pawn_move_ok(s: PositionState, f: int, t: int, promo: bool, c: bool) -> bool {
    if promo {
        &&& move_ok(s, Move::Promotion(sq_of(f), sq_of(t), PieceKind::Queen), c)
        &&& move_ok(s, Move::Promotion(sq_of(f), sq_of(t), PieceKind::Knight), c)
        &&& move_ok(s, Move::Promotion(sq_of(f), sq_of(t), PieceKind::Rook), c)
        &&& move_ok(s, Move::Promotion(sq_of(f), sq_of(t), PieceKind::Bishop), c)
    } else {
        move_ok(s, Move::Regular(sq_of(f), sq_of(t)), c)
    }
}

/// Adds `m` to `moves`, which keeps the list as `list_ok` says.
fn push_ok(moves: &mut MoveList, m: Move, Ghost(s): Ghost<PositionState>, Ghost(c): Ghost<bool>)
    requires
        list_ok(old(moves)@, s, c),
        move_ok(s, m, c),
    ensures
        list_ok(final(moves)@, s, c),
        old(moves)@.len() < 256 ==> final(moves)@ == old(moves)@.push(m),
        old(moves)@.len() >= 256 ==> final(moves)@ == old(moves)@,
{
    moves.push(m);
}

/// The list `b` holds every move of `a`, and is no shorter.
pub open spec fn grows(a: Seq<Move>, b: Seq<Move>) -> bool {
    &&& a.len() <= b.len()
    &&& forall|x: Move| a.contains(x) ==> b.contains(x)
}

/// No move appears twice in `l`.
pub open spec fn no_dup(l: Seq<Move>) -> bool {
    forall|i: int, j: int| 0 <= i < j < l.len() ==> l[i] != l[j]
}

/// The legal moves of `s`.
pub open spec fn legal_moves(s: PositionState) -> Set<Move> {
    Set::new(|m: Move| crate::legal::legal_move(s, m))
}

/// In a position that play reaches and that has fewer than 256 legal moves, a list of
/// moves as `gen_all_moves` promises (each listed once and legal, and all legal moves
/// listed unless the list is full) holds exactly the legal moves.
pub proof fn lemma_generated_are_legal(s: PositionState, l: Seq<Move>)
    requires
        sane(s),
        legal_moves(s).finite(),
        legal_moves(s).len() < 256,
        no_dup(l),
        forall|i: int| 0 <= i < l.len() ==> crate::legal::legal_move(s, #[trigger] l[i]),
        l.len() < 256 ==> forall|m: Move| #[trigger] crate::legal::legal_move(s, m) ==> l.contains(m),
    ensures
        l.to_set() == legal_moves(s),
        l.len() < 256,
{
    assert(l.to_set().subset_of(legal_moves(s))) by {
        assert forall|m: Move| l.to_set().contains(m) implies legal_moves(s).contains(m) by {
            let i = choose|i: int| 0 <= i < l.len() && l[i] == m;
            assert(crate::legal::legal_move(s, l[i]));
        }
    }
    vstd::set_lib::lemma_len_subset(l.to_set(), legal_moves(s));
    assert(l.no_duplicates()) by {
        assert forall|i: int, j: int| 0 <= i < l.len() && 0 <= j < l.len() && i != j implies l[i] != l[j] by {
            if i > j {
                assert(l[j] != l[i]);
            }
        }
    }
    l.unique_seq_to_set();
    assert(l.to_set() =~= legal_moves(s)) by {
        assert forall|m: Move| legal_moves(s).contains(m) implies l.to_set().contains(m) by {
            assert(crate::legal::legal_move(s, m));
        }
    }
}

/// A pawn move of the player to move (a promotion if `promo`, else a regular move) whose end
/// square is `off` away from its start square.
pub open spec fn pawn_sig(s: PositionState, m: Move, off: int, promo: bool) -> bool {
    &&& (if promo { m is Promotion } else { m is Regular })
    &&& m.spec_to().idx() - m.spec_from().idx() == off
    &&& s.pieces[m.spec_from().idx()] == Some(Piece(PieceKind::Pawn, s.to_move))
}

/// A move (not castling) of a piece of kind `kind` of the player to move.
pub open spec fn piece_moved(s: PositionState, m: Move, kind: PieceKind) -> bool {
    !(m is Castling) && s.pieces[m.spec_from().idx()] == Some(Piece(kind, s.to_move))
}

/// The pin rays `pin` of the king on `king` forbid a move from `from` to `to`.
pub open spec fn pin_forbids(from: int, to: int, king: Option<Square>, pin: Set<int>) -> bool {
    king is Some && pin.contains(from) && !pin.intersect(line_through_spec(from, king->0.idx())).contains(to)
}

/// After the en passant capture `m`, a bishop, rook or queen of the opponent would attack
/// the king on `king`.
pub open spec fn ep_exposes(s: PositionState, m: Move, king: Option<Square>) -> bool {
    let occ2 = occupied(make_spec(s, m));
    let them = s.to_move.spec_opp();
    &&& king is Some
    &&& (!bishop_attacks(king->0.idx(), occ2).intersect(sliders_of(s, them, false)).is_empty()
        || !rook_attacks(king->0.idx(), occ2).intersect(sliders_of(s, them, true)).is_empty())
}

/// A pawn move that `gen_pawn_moves` adds: as `move_ok` says, landing on `blocking` (an en
/// passant capture may instead take a pawn on `blocking`), not forbidden by the pin rays,
/// and for an en passant capture, exposing the king to no bishop, rook or queen.
pub open spec fn pawn_target(
    s: PositionState,
    m: Move,
    blocking: Set<int>,
    pin: Set<int>,
    king: Option<Square>,
    c: bool,
) -> bool {
    let from = m.spec_from().idx();
    let to = m.spec_to().idx();
    &&& (m is Regular || m is Promotion || m is EnPassant)
    &&& s.pieces[from] == Some(Piece(PieceKind::Pawn, s.to_move))
    &&& move_ok(s, m, c)
    &&& !pin_forbids(from, to, king, pin)
    &&& if m is EnPassant {
        &&& (blocking.contains(ep_capture_sq(m.spec_to(), s.to_move).idx()) || blocking.contains(to))
        &&& !ep_exposes(s, m, king)
    } else {
        blocking.contains(to)
    }
}

/// A move of a piece of kind `kind` other than a pawn that `gen_non_pawn_moves` adds: as
/// `move_ok` says, landing on `blocking`, for the king on no square of `danger`, for other
/// pieces not forbidden by the pin rays.
pub open spec fn piece_target(
    s: PositionState,
    m: Move,
    kind: PieceKind,
    blocking: Set<int>,
    pin: Set<int>,
    king: Option<Square>,
    danger: Set<int>,
    c: bool,
) -> bool {
    let from = m.spec_from().idx();
    let to = m.spec_to().idx();
    &&& m is Regular
    &&& s.pieces[from] == Some(Piece(kind, s.to_move))
    &&& move_ok(s, m, c)
    &&& blocking.contains(to)
    &&& if kind == PieceKind::King {
        !danger.contains(to)
    } else {
        !pin_forbids(from, to, king, pin)
    }
}

/// The list `l` holds the pawn move from `f` to `t`: the four promotions if `promo`.
pub open spec fn added_pawn(l: Seq<Move>, f: int, t: int, promo: bool) -> bool {
    if promo {
        &&& l.contains(Move::Promotion(sq_of(f), sq_of(t), PieceKind::Queen))
        &&& l.contains(Move::Promotion(sq_of(f), sq_of(t), PieceKind::Knight))
        &&& l.contains(Move::Promotion(sq_of(f), sq_of(t), PieceKind::Rook))
        &&& l.contains(Move::Promotion(sq_of(f), sq_of(t), PieceKind::Bishop))
    } else {
        l.contains(Move::Regular(sq_of(f), sq_of(t)))
    }
}

/// Every en passant capture that `gen_pawn_moves` adds is in `l`, unless `l` is full.
pub open spec fn ep_covered(
    l: Seq<Move>,
    s: PositionState,
    blocking: Set<int>,
    pin: Set<int>,
    king: Option<Square>,
    c: bool,
) -> bool {
    l.len() < 256 ==> forall|m: Move| m is EnPassant && #[trigger] pawn_target(s, m, blocking, pin, king, c) ==> l.contains(m)
}

/// The castling move of `c` on side `side`.
pub open spec fn castling_move(c: Color, side: Side) -> Move {
    Move::Castling(king_sq_spec(c), castling_sq_spec(c, side))
}

/// In a sane position, every legal move (every legal capture if `c`) is in `l`, unless
/// `l` is full.
pub open spec fn gen_complete(l: Seq<Move>, s: PositionState, c: bool) -> bool {
    sane(s) && l.len() < 256 ==> forall|m: Move| #[trigger] legal_move(s, m) && (c ==> is_capture(s, m)) ==> l.contains(m)
}

/// The moves that the generator's steps added, each in a list that `l` grows from, make up
/// every legal move. `double` tells that the king is in double check, where only king moves
/// were generated; otherwise `blocking` holds every square that answers a check.
proof fn lemma_complete(
    s: PositionState,
    l: Seq<Move>,
    lp: Seq<Move>,
    ln: Seq<Move>,
    lb: Seq<Move>,
    lr: Seq<Move>,
    lq: Seq<Move>,
    lk: Seq<Move>,
    lck: Seq<Move>,
    lcq: Seq<Move>,
    blocking: Set<int>,
    all: Set<int>,
    pin: Set<int>,
    king: Option<Square>,
    danger: Set<int>,
    c: bool,
    double: bool,
)
    requires
        sane(s) ==> king_ctx(s, pin, king) && danger == danger_spec(s),
        forall|t: int| 0 <= t < 64 ==> #[trigger] all.contains(t),
        sane(s) && double ==> exists|c1: int, c2: int|
            c1 != c2 && checkers_spec(s, king->0.idx()).contains(c1) && checkers_spec(s, king->0.idx()).contains(c2),
        sane(s) && !double && !in_check(s) ==> forall|t: int| 0 <= t < 64 ==> #[trigger] blocking.contains(t),
        sane(s) && !double && in_check(s) ==> exists|ch: int|
            checkers_spec(s, king->0.idx()) == Set::<int>::empty().insert(ch) && forall|t: int|
                (#[trigger] ray_to_spec(king->0.idx(), ch).contains(t) || t == ch) ==> blocking.contains(t),
        grows(lp, l),
        grows(ln, l),
        grows(lb, l),
        grows(lr, l),
        grows(lq, l),
        grows(lk, l),
        grows(lck, l),
        grows(lcq, l),
        lk.len() < 256 ==> forall|m: Move| #[trigger] piece_target(s, m, PieceKind::King, all, pin, king, danger, c) ==> lk.contains(m),
        !double && lp.len() < 256 ==> forall|m: Move| #[trigger] pawn_target(s, m, blocking, pin, king, c) ==> lp.contains(m),
        !double && ln.len() < 256 ==> forall|m: Move| #[trigger] piece_target(s, m, PieceKind::Knight, blocking, pin, king, danger, c) ==> ln.contains(m),
        !double && lb.len() < 256 ==> forall|m: Move| #[trigger] piece_target(s, m, PieceKind::Bishop, blocking, pin, king, danger, c) ==> lb.contains(m),
        !double && lr.len() < 256 ==> forall|m: Move| #[trigger] piece_target(s, m, PieceKind::Rook, blocking, pin, king, danger, c) ==> lr.contains(m),
        !double && lq.len() < 256 ==> forall|m: Move| #[trigger] piece_target(s, m, PieceKind::Queen, blocking, pin, king, danger, c) ==> lq.contains(m),
        sane(s) && !in_check(s) && !c ==> (lck.len() < 256 && legal_shape(s, castling_move(s.to_move, Side::KingSide))
            ==> lck.contains(castling_move(s.to_move, Side::KingSide))),
        sane(s) && !in_check(s) && !c ==> (lcq.len() < 256 && legal_shape(s, castling_move(s.to_move, Side::QueenSide))
            ==> lcq.contains(castling_move(s.to_move, Side::QueenSide))),
    ensures
        gen_complete(l, s, c),
{
    if sane(s) && l.len() < 256 {
        let k = king->0.idx();
        let us = s.to_move;
        assert forall|m: Move| #[trigger] legal_move(s, m) && (c ==> is_capture(s, m)) implies l.contains(m) by {
            lemma_legal_facts(s, m, k);
            let from = m.spec_from().idx();
            let to = m.spec_to().idx();
            m.spec_to().lemma_idx_bound();
            if double && !(m is Regular && s.pieces[from].unwrap().0 == PieceKind::King) && !(m is Castling) {
                let (c1, c2) = choose|c1: int, c2: int| c1 != c2 && checkers_spec(s, k).contains(c1) && checkers_spec(s, k).contains(c2);
                assert(checkers_spec(s, k).contains(c1) && checkers_spec(s, k).contains(c2));
            }
            if m is Castling {
                let side = side_of(m.spec_to());
                assert(m == castling_move(us, side));
                assert(!double) by {
                    if double {
                        let (c1, c2) = choose|c1: int, c2: int| c1 != c2 && checkers_spec(s, k).contains(c1) && checkers_spec(s, k).contains(c2);
                        assert(piece_attacks(s.pieces[c1].unwrap(), c1, occupied(s)).contains(k));
                        crate::legal::lemma_attacker_checks(s, k, c1);
                    }
                }
                if side == Side::KingSide {
                    assert(lck.contains(m));
                } else {
                    assert(lcq.contains(m));
                }
            } else if m is Regular && s.pieces[from].unwrap().0 == PieceKind::King {
                assert(piece_target(s, m, PieceKind::King, all, pin, king, danger, c));
                assert(lk.contains(m));
            } else {
                assert(!pin_forbids(from, to, king, pin));
                let ep = m is EnPassant;
                let cap = ep_capture_sq(m.spec_to(), us).idx();
                assert(blocking.contains(to) || (ep && blocking.contains(cap))) by {
                    if in_check(s) {
                        let ch = choose|ch: int|
                            checkers_spec(s, k) == Set::<int>::empty().insert(ch) && forall|t: int|
                                (#[trigger] ray_to_spec(k, ch).contains(t) || t == ch) ==> blocking.contains(t);
                        assert(checkers_spec(s, k).contains(ch));
                        assert(answered(s, m, k, ch));
                        if ray_to_spec(k, ch).contains(to) || to == ch {
                            assert(blocking.contains(to));
                        } else {
                            assert(m is EnPassant && cap == ch);
                            assert(ray_to_spec(k, ch).contains(ch) || ch == ch);
                            assert(blocking.contains(ch));
                        }
                    } else {
                        assert(blocking.contains(to));
                    }
                }
                if m is Regular && s.pieces[from].unwrap().0 != PieceKind::Pawn {
                    let kind = s.pieces[from].unwrap().0;
                    assert(piece_target(s, m, kind, blocking, pin, king, danger, c));
                    if kind == PieceKind::Knight {
                        assert(ln.contains(m));
                    } else if kind == PieceKind::Bishop {
                        assert(lb.contains(m));
                    } else if kind == PieceKind::Rook {
                        assert(lr.contains(m));
                    } else {
                        assert(lq.contains(m));
                    }
                } else {
                    assert(pawn_target(s, m, blocking, pin, king, c));
                    assert(lp.contains(m));
                }
            }
        }
    }
}

/// Adds `m` to `moves`, which keeps the list as `list_ok` says and, if `safe`, as
/// `list_safe` says.
fn push_safe(moves: &mut MoveList, m: Move, Ghost(s): Ghost<PositionState>, Ghost(c): Ghost<bool>, Ghost(safe): Ghost<bool>)
    requires
        list_ok(old(moves)@, s, c),
        move_ok(s, m, c),
        safe ==> list_safe(old(moves)@, s),
        safe && sane(s) ==> crate::legal::king_safe(make_spec(s, m), s.to_move),
    ensures
        list_ok(final(moves)@, s, c),
        safe ==> list_safe(final(moves)@, s),
        grows(old(moves)@, final(moves)@),
        old(moves)@.len() < 256 ==> final(moves)@ == old(moves)@.push(m),
        old(moves)@.len() >= 256 ==> final(moves)@ == old(moves)@,
        old(moves)@.len() < 256 ==> final(moves)@.contains(m),
        forall|x: Move| #[trigger] final(moves)@.contains(x) ==> old(moves)@.contains(x) || x == m,
        no_dup(old(moves)@) && !old(moves)@.contains(m) ==> no_dup(final(moves)@),
{
    let ghost l = moves@;
    moves.push(m);
    proof {
        if safe {
            lemma_list_safe_push(l, s, m);
        }
        if l.len() < 256 {
            assert(moves@[l.len() as int] == m);
            assert forall|x: Move| l.contains(x) implies moves@.contains(x) by {
                let i = choose|i: int| 0 <= i < l.len() && l[i] == x;
                assert(moves@[i] == x);
            }
            assert forall|x: Move| #[trigger] moves@.contains(x) implies l.contains(x) || x == m by {
                let i = choose|i: int| 0 <= i < moves@.len() && moves@[i] == x;
                if i < l.len() {
                    assert(l[i] == x);
                }
            }
        }
    }
}

/// The directions in which the pawns of `c` take.
pub open spec fn is_pawn_capture_dir(c: Color, dir: Direction) -> bool {
    match c {
        Color::White => dir == Direction::NorthWest || dir == Direction::NorthEast,
        Color::Black => dir == Direction::SouthEast || dir == Direction::SouthWest,
    }
}

/// A step in a capture direction of the pawns of `c` is one of their capture steps.
proof fn lemma_capture_step(c: Color, dir: Direction, t: int)
    requires
        is_pawn_capture_dir(c, dir),
        0 <= t < 64,
        on_board(rank_of(t) - dir.spec_dr(), file_of(t) - dir.spec_df()),
    ensures
        step_set(t - dir.spec_offset(), pawn_vecs(c)).contains(t),
{
    let f = t - dir.spec_offset();
    assert(rank_of(f) == rank_of(t) - dir.spec_dr());
    assert(file_of(f) == file_of(t) - dir.spec_df());
    let v = pawn_vecs(c);
    if v[0].0 == dir.spec_dr() && v[0].1 == dir.spec_df() {
        assert(step_ok(f, v[0]) && t == step_target(f, v[0]));
    } else {
        assert(step_ok(f, v[1]) && t == step_target(f, v[1]));
    }
}

/// A pawn capture step from `f` to `t` goes in one of the two capture directions of the
/// player to move, `t` then being in the shift of the pawns in that direction.
proof fn lemma_capture_source(s: PositionState, pawns: Set<int>, l: Direction, r: Direction, f: int, t: int)
    requires
        s.pieces.len() == 64,
        0 <= f < 64,
        pawns == squares_with(s.pieces, Piece(PieceKind::Pawn, s.to_move)),
        s.pieces[f] == Some(Piece(PieceKind::Pawn, s.to_move)),
        step_set(f, pawn_vecs(s.to_move)).contains(t),
        is_pawn_capture_dir(s.to_move, l),
        is_pawn_capture_dir(s.to_move, r),
        l != r,
    ensures
        (shifted(pawns, l).contains(t) && f == t - l.spec_offset()) || (shifted(pawns, r).contains(t) && f == t
            - r.spec_offset()),
{
    let v = pawn_vecs(s.to_move);
    let i = choose|i: int| 0 <= i < v.len() && step_ok(f, v[i]) && t == step_target(f, #[trigger] v[i]);
    assert(pawns.contains(f));
}

/// A step forward onto an empty square from a square of `pawns` is a pawn move that
/// `move_ok` accepts, a promotion exactly on the last rank.
proof fn lemma_push_ok(s: PositionState, pawns: Set<int>, t: int)
    requires
        s.pieces.len() == 64,
        pawns == squares_with(s.pieces, Piece(PieceKind::Pawn, s.to_move)),
        shifted(pawns, up_dir(s.to_move)).contains(t),
        s.pieces[t] is None,
    ensures
        on_board(rank_of(t) - up_dir(s.to_move).spec_dr(), file_of(t) - up_dir(s.to_move).spec_df()),
        pawn_move_ok(s, t - up_dir(s.to_move).spec_offset(), t, rank_of(t) == last_rank(s.to_move), false),
{
    let f = t - up_dir(s.to_move).spec_offset();
    Square::lemma_from_index_spec(f);
    Square::lemma_from_index_spec(t);
}

/// A diagonal step onto an opponent's piece from a square of `pawns` is a pawn move that
/// `move_ok` accepts, a promotion exactly on the last rank.
proof fn lemma_capture_ok(s: PositionState, pawns: Set<int>, dir: Direction, t: int, c: bool)
    requires
        s.pieces.len() == 64,
        pawns == squares_with(s.pieces, Piece(PieceKind::Pawn, s.to_move)),
        is_pawn_capture_dir(s.to_move, dir),
        shifted(pawns, dir).contains(t),
        enemy_on(s, t),
    ensures
        on_board(rank_of(t) - dir.spec_dr(), file_of(t) - dir.spec_df()),
        pawn_move_ok(s, t - dir.spec_offset(), t, rank_of(t) == last_rank(s.to_move), c),
{
    let f = t - dir.spec_offset();
    Square::lemma_from_index_spec(f);
    Square::lemma_from_index_spec(t);
    lemma_capture_step(s.to_move, dir, t);
}

/// A double step forward from a square of `pawns`, over an empty square onto an empty
/// square of the fourth rank, is a move that `move_ok` accepts.
proof fn lemma_double_ok(s: PositionState, pawns: Set<int>, fwd: Set<int>, t: int)
    requires
        s.pieces.len() == 64,
        pawns == squares_with(s.pieces, Piece(PieceKind::Pawn, s.to_move)),
        forall|x: int| #[trigger] fwd.contains(x) ==> shifted(pawns, up_dir(s.to_move)).contains(x) && s.pieces[x] is None,
        shifted(fwd, up_dir(s.to_move)).contains(t),
        rank_of(t) == fourth_rank(s.to_move),
        s.pieces[t] is None,
    ensures
        on_board(rank_of(t) - 2 * up_dir(s.to_move).spec_dr(), file_of(t)),
        move_ok(s, Move::Regular(sq_of(t - 2 * up_dir(s.to_move).spec_offset()), sq_of(t)), false),
{
    let up = up_dir(s.to_move);
    let m = t - up.spec_offset();
    assert(fwd.contains(m));
    let f = m - up.spec_offset();
    Square::lemma_from_index_spec(f);
    Square::lemma_from_index_spec(t);
    assert(f == t - 2 * up.spec_offset());
}

/// Generates the moves of a position.
pub struct MoveGen {
    tables: Tables,
}

impl MoveGen {
    /// The tables hold what they should.
    pub closed spec fn wf(&self) -> bool {
        self.tables.wf()
    }

    /// The tables the generator looks attacks up in.
    pub closed spec fn spec_tables(&self) -> Tables {
        self.tables
    }

    /// A move generator using `tables`.
    pub fn new(tables: Tables) -> (r: MoveGen)
        requires
            tables.wf(),
        ensures
            r.wf(),
            r.spec_tables() == tables,
    {
        MoveGen { tables }
    }

    /// A move generator with freshly built tables.
    pub fn create() -> (r: MoveGen)
        ensures
            r.wf(),
    {
        MoveGen { tables: Tables::new() }
    }

    /// The squares a piece `pce` on `sq` attacks when the squares of `occ` are occupied.
    pub fn gen_attacks_from_sq(&self, occ: Bitboard, pce: Piece, sq: Square) -> (r: Bitboard)
        requires
            self.wf(),
        ensures
            r@ == piece_attacks(pce, sq.idx(), occ@),
    {
        match pce.kind() {
            PieceKind::Pawn => match pce.color() {
                Color::White => self.tables.white_pawn_attacks(sq),
                Color::Black => self.tables.black_pawn_attacks(sq),
            },
            PieceKind::Knight => self.tables.knight_attacks(sq),
            PieceKind::Bishop => self.tables.gen_bishop_attacks(occ, sq),
            PieceKind::Rook => self.tables.gen_rook_attacks(occ, sq),
            PieceKind::Queen => self.tables.gen_bishop_attacks(occ, sq).union(
                self.tables.gen_rook_attacks(occ, sq),
            ),
            PieceKind::King => self.tables.king_attacks(sq),
        }
    }

    /// The squares attacked by pieces `pce` standing on the squares of `pce_bb`.
    pub fn gen_attacks(&self, pce_bb: Bitboard, occ: Bitboard, pce: Piece) -> (r: Bitboard)
        requires
            self.wf(),
        ensures
            r@ == attacks_from_set(pce, pce_bb@, occ@),
    {
        let mut atks = Bitboard::new();
        let mut rest = pce_bb;
        proof {
            assert(atks@ =~= attacks_from_set(pce, pce_bb@.difference(rest@), occ@));
        }
        while !rest.is_empty()
            invariant
                self.wf(),
                rest@.subset_of(pce_bb@),
                atks@ == attacks_from_set(pce, pce_bb@.difference(rest@), occ@),
            decreases rest@.len(),
        {
            proof {
                crate::bitboard::lemma_view_finite(rest.0);
            }
            let sq = rest.first_sq();
            let ghost done = pce_bb@.difference(rest@);
            let next = rest.without_first();
            proof {
                assert(sq.idx() == rest.spec_first()) by {
                    if sq.idx() < rest.spec_first() {
                        assert(!rest@.contains(sq.idx()));
                    }
                    if rest.spec_first() < sq.idx() {
                        assert(!rest@.contains(rest.spec_first()));
                    }
                }
            }
            let a = self.gen_attacks_from_sq(occ, pce, sq);
            let ghost old_atks = atks@;
            atks = atks.union(a);
            rest = next;
            proof {
                let done2 = pce_bb@.difference(rest@);
                assert(done2 =~= done.insert(sq.idx()));
                assert forall|t: int| atks@.contains(t) <==> attacks_from_set(pce, done2, occ@).contains(t) by {
                    if atks@.contains(t) {
                        if old_atks.contains(t) {
                            let f = choose|f: int| done.contains(f) && #[trigger] piece_attacks(pce, f, occ@).contains(t);
                            assert(done2.contains(f));
                        } else {
                            assert(piece_attacks(pce, sq.idx(), occ@).contains(t));
                        }
                    }
                    if attacks_from_set(pce, done2, occ@).contains(t) {
                        let f = choose|f: int| done2.contains(f) && #[trigger] piece_attacks(pce, f, occ@).contains(t);
                        if f != sq.idx() {
                            assert(done.contains(f));
                        }
                    }
                }
                assert(atks@ =~= attacks_from_set(pce, done2, occ@));
                crate::bitboard::lemma_view_finite(next.0);
            }
        }
        proof {
            assert(pce_bb@.difference(rest@) =~= pce_bb@);
        }
        atks
    }

    /// The squares the king of the player to move may not step on (see `danger_spec`).
    pub fn gen_danger_sqs(&self, position: &Position) -> (r: Bitboard)
        requires
            self.wf(),
            position.wf(),
        ensures
            r@ == danger_spec(position@),
    {
        let pieces = position.pieces();
        let us = position.to_move();
        let them = us.opp();
        let occ = pieces.get_occ().minus(pieces.get_bb(Piece(PieceKind::King, us)));
        let pawn = Piece(PieceKind::Pawn, them);
        let knight = Piece(PieceKind::Knight, them);
        let bishop = Piece(PieceKind::Bishop, them);
        let rook = Piece(PieceKind::Rook, them);
        let queen = Piece(PieceKind::Queen, them);
        let king = Piece(PieceKind::King, them);
        self.gen_attacks(pieces.get_bb(pawn), occ, pawn).union(
            self.gen_attacks(pieces.get_bb(knight), occ, knight),
        ).union(self.gen_attacks(pieces.get_bb(bishop), occ, bishop)).union(
            self.gen_attacks(pieces.get_bb(rook), occ, rook),
        ).union(self.gen_attacks(pieces.get_bb(queen), occ, queen)).union(
            self.gen_attacks(pieces.get_bb(king), occ, king),
        )
    }

    /// The square of the king of `color` (the first one if there are several), if any.
    pub fn king_sq(&self, position: &Position, color: Color) -> (r: Option<Square>)
        requires
            position.wf(),
        ensures
            r is Some <==> has_king(position@, color),
            r is Some ==> r->0.idx() == king_square(position@, color),
            r is Some ==> is_first_king(position@, color, r->0.idx()),
    {
        let kings = position.pieces().get_bb(Piece(PieceKind::King, color));
        if kings.is_empty() {
            proof {
                if has_king(position@, color) {
                    let k = choose|k: int| 0 <= k < 64 && position@.pieces[k] == Some(Piece(PieceKind::King, color));
                    assert(kings@.contains(k));
                }
            }
            None
        } else {
            let k = kings.first_sq();
            proof {
                Square::lemma_idx_bound(k);
                assert forall|j: int| 0 <= j < k.idx() implies position@.pieces[j] != Some(Piece(PieceKind::King, color)) by {
                    assert(!kings@.contains(j));
                }
                lemma_first_king_unique(position@, color, k.idx());
            }
            Some(k)
        }
    }

    /// The pieces that give check to the king of the player to move (see `checkers_spec`),
    /// found by looking from the king's square with the moves of each kind of piece.
    pub fn checkers(&self, position: &Position) -> (r: Bitboard)
        requires
            self.wf(),
            position.wf(),
            has_king(position@, position@.to_move),
        ensures
            r@ == checkers_spec(position@, king_square(position@, position@.to_move)),
    {
        let pieces = position.pieces();
        let us = position.to_move();
        let them = us.opp();
        let king_sq = match self.king_sq(position, us) {
            Some(k) => k,
            None => return Bitboard::new(),
        };
        let occ = pieces.get_occ();
        let opp_pawns = pieces.get_bb(Piece(PieceKind::Pawn, them));
        let opp_knights = pieces.get_bb(Piece(PieceKind::Knight, them));
        let opp_bishops = pieces.get_bb(Piece(PieceKind::Bishop, them));
        let opp_rooks = pieces.get_bb(Piece(PieceKind::Rook, them));
        let opp_queens = pieces.get_bb(Piece(PieceKind::Queen, them));
        let pawn_checkers = self.gen_attacks_from_sq(occ, Piece(PieceKind::Pawn, us), king_sq).intersect(
            opp_pawns,
        );
        let knight_checkers = self.gen_attacks_from_sq(occ, Piece(PieceKind::Knight, them), king_sq).intersect(
            opp_knights,
        );
        let bishop_queen_checkers = self.gen_attacks_from_sq(occ, Piece(PieceKind::Bishop, them), king_sq).intersect(
            opp_bishops.union(opp_queens),
        );
        let rook_queen_checkers = self.gen_attacks_from_sq(occ, Piece(PieceKind::Rook, them), king_sq).intersect(
            opp_rooks.union(opp_queens),
        );
        let r = pawn_checkers.union(knight_checkers).union(bishop_queen_checkers).union(rook_queen_checkers);
        proof {
            Square::lemma_idx_bound(king_sq);
            lemma_checkers_sets(position@, king_sq.idx(), r@);
        }
        r
    }

    /// The pin rays of the king on `king_sq` (see `pin_rays_spec`).
    pub fn pin_rays(&self, position: &Position, king_sq: Square) -> (r: Bitboard)
        requires
            self.wf(),
            position.wf(),
        ensures
            r@ == pin_rays_spec(position@, king_sq.idx()),
    {
        let pieces = position.pieces();
        let them = position.to_move().opp();
        let opp_bishops = pieces.get_bb(Piece(PieceKind::Bishop, them));
        let opp_rooks = pieces.get_bb(Piece(PieceKind::Rook, them));
        let opp_queens = pieces.get_bb(Piece(PieceKind::Queen, them));
        let opp_occ = pieces.get_occ_for(them);
        let bishop_queen_pinners = self.tables.gen_bishop_attacks(opp_occ, king_sq).intersect(
            opp_bishops.union(opp_queens),
        );
        let rook_queen_pinners = self.tables.gen_rook_attacks(opp_occ, king_sq).intersect(
            opp_rooks.union(opp_queens),
        );
        let pinners = bishop_queen_pinners.union(rook_queen_pinners);
        let occ = pieces.get_occ();
        let ghost s = position@;
        let ghost k = king_sq.idx();
        let mut pin_rays = Bitboard::new();
        let mut rest = pinners;
        proof {
            assert(pinners@ == pinners_spec(s, k));
            assert(pin_rays@ =~= rays_of(s, k, pinners@.difference(rest@)));
        }
        while !rest.is_empty()
            invariant
                self.wf(),
                pinners@ == pinners_spec(s, k),
                occ@ == occupied(s),
                k == king_sq.idx(),
                rest@.subset_of(pinners@),
                pin_rays@ == rays_of(s, k, pinners@.difference(rest@)),
            decreases rest@.len(),
        {
            proof {
                crate::bitboard::lemma_view_finite(rest.0);
            }
            let sq = rest.first_sq();
            let ghost done = pinners@.difference(rest@);
            let next = rest.without_first();
            proof {
                assert(sq.idx() == rest.spec_first()) by {
                    if sq.idx() < rest.spec_first() {
                        assert(!rest@.contains(sq.idx()));
                    }
                    if rest.spec_first() < sq.idx() {
                        assert(!rest@.contains(rest.spec_first()));
                    }
                }
            }
            let pin_ray = self.tables.ray_to(king_sq, sq);
            let potential_pin = pin_ray.minus(pinners).intersect(occ);
            let ghost old_rays = pin_rays@;
            let pinned = potential_pin.len() == 1;
            if pinned {
                pin_rays = pin_rays.union(pin_ray);
            }
            rest = next;
            proof {
                let p0 = sq.idx();
                let done2 = pinners@.difference(rest@);
                assert(done2 =~= done.insert(p0));
                assert(pinned == pins_one(s, k, p0));
                assert forall|t: int| pin_rays@.contains(t) <==> rays_of(s, k, done2).contains(t) by {
                    if pin_rays@.contains(t) {
                        if old_rays.contains(t) {
                            let p = choose|p: int| done.contains(p) && pins_one(s, k, p) && #[trigger] ray_to_spec(k, p).contains(t);
                            assert(done2.contains(p));
                        } else {
                            assert(ray_to_spec(k, p0).contains(t));
                        }
                    }
                    if rays_of(s, k, done2).contains(t) {
                        let p = choose|p: int| done2.contains(p) && pins_one(s, k, p) && #[trigger] ray_to_spec(k, p).contains(t);
                        if p != p0 {
                            assert(done.contains(p));
                        }
                    }
                }
                assert(pin_rays@ =~= rays_of(s, k, done2));
                crate::bitboard::lemma_view_finite(next.0);
            }
        }
        proof {
            assert(pinners@.difference(rest@) =~= pinners@);
            assert(pin_rays@ =~= pin_rays_spec(s, k));
        }
        pin_rays
    }

    /// Whether the pin rays keep a piece on `from` from moving to `to`: it stands on a pin
    /// ray and `to` is not on the part of the pin rays along its line to the king.
    pub fn is_prohibited_by_pin(&self, from: Square, to: Square, king_sq: Square, pin_rays: Bitboard) -> (r: bool)
        requires
            self.wf(),
        ensures
            r == (pin_rays@.contains(from.idx()) && !pin_rays@.intersect(
                line_through_spec(from.idx(), king_sq.idx()),
            ).contains(to.idx())),
    {
        if pin_rays.contains(from) {
            let pin_ray = pin_rays.intersect(self.tables.line_through(from, king_sq));
            !pin_ray.contains(to)
        } else {
            false
        }
    }

    /// Adds, for each square `to` of `bb`, the pawn move to `to` from the square one step
    /// back in direction `dir` (the four promotions if `promo`), unless a pin forbids it.
    fn add_pawn_moves(
        &self,
        position: &Position,
        bb: Bitboard,
        dir: Direction,
        promo: bool,
        pin_rays: Bitboard,
        king: Option<Square>,
        captures_only: bool,
        moves: &mut MoveList,
        Ghost(ctx): Ghost<bool>,
    )
        requires
            self.wf(),
            position.wf(),
            list_ok(old(moves)@, position@, captures_only),
            forall|t: int| #[trigger] bb@.contains(t) ==> on_board(rank_of(t) - dir.spec_dr(), file_of(t) - dir.spec_df())
                && pawn_move_ok(position@, t - dir.spec_offset(), t, promo, captures_only)
                && position@.pieces[t - dir.spec_offset()] == Some(Piece(PieceKind::Pawn, position@.to_move)),
            ctx ==> gen_ctx(position@, bb@, pin_rays@, king),
        ensures
            list_ok(final(moves)@, position@, captures_only),
            ctx && list_safe(old(moves)@, position@) ==> list_safe(final(moves)@, position@),
            grows(old(moves)@, final(moves)@),
            final(moves)@.len() < 256 ==> forall|t: int|
                #[trigger] bb@.contains(t) && !pin_forbids(t - dir.spec_offset(), t, king, pin_rays@) ==> added_pawn(
                    final(moves)@,
                    t - dir.spec_offset(),
                    t,
                    promo,
                ),
            forall|x: Move| #[trigger] final(moves)@.contains(x) ==> old(moves)@.contains(x) || (pawn_sig(position@, x, dir.spec_offset(), promo)
                && bb@.contains(x.spec_to().idx())),
            no_dup(old(moves)@) && (forall|x: Move| #[trigger] old(moves)@.contains(x) ==> !pawn_sig(position@, x, dir.spec_offset(), promo))
                ==> no_dup(final(moves)@),
    {
        let ghost s = position@;
        let ghost safe = ctx && list_safe(moves@, s);
        let ghost m0 = moves@;
        let ghost dup0 = no_dup(m0) && (forall|x: Move| #[trigger] m0.contains(x) ==> !pawn_sig(s, x, dir.spec_offset(), promo));
        let mut rest = bb;
        while !rest.is_empty()
            invariant
                self.wf(),
                s == position@,
                rest@.subset_of(bb@),
                list_ok(moves@, s, captures_only),
                forall|t: int| #[trigger] bb@.contains(t) ==> on_board(rank_of(t) - dir.spec_dr(), file_of(t) - dir.spec_df())
                    && pawn_move_ok(s, t - dir.spec_offset(), t, promo, captures_only)
                    && s.pieces[t - dir.spec_offset()] == Some(Piece(PieceKind::Pawn, s.to_move)),
                safe ==> ctx && gen_ctx(s, bb@, pin_rays@, king),
                safe ==> list_safe(moves@, s),
                grows(m0, moves@),
                moves@.len() < 256 ==> forall|t: int|
                    #[trigger] bb@.contains(t) && !rest@.contains(t) && !pin_forbids(t - dir.spec_offset(), t, king, pin_rays@)
                        ==> added_pawn(moves@, t - dir.spec_offset(), t, promo),
                forall|x: Move| #[trigger] moves@.contains(x) ==> m0.contains(x) || (pawn_sig(s, x, dir.spec_offset(), promo)
                    && bb@.contains(x.spec_to().idx()) && !rest@.contains(x.spec_to().idx())),
                dup0 == (no_dup(m0) && (forall|x: Move| #[trigger] m0.contains(x) ==> !pawn_sig(s, x, dir.spec_offset(), promo))),
                dup0 ==> no_dup(moves@),
            decreases rest@.len(),
        {
            proof {
                crate::bitboard::lemma_view_finite(rest.0);
            }
            let ghost rest0 = rest@;
            let to = rest.first_sq();
            rest = rest.without_first();
            proof {
                crate::bitboard::lemma_view_finite(rest.0);
                assert(bb@.contains(to.idx()));
            }
            let from = to.shift_back(dir);
            proof {
                Square::lemma_from_index_spec_idx(from);
                Square::lemma_from_index_spec_idx(to);
            }
            let prohibited = match king {
                Some(k) => self.is_prohibited_by_pin(from, to, k, pin_rays),
                None => false,
            };
            if !prohibited {
                proof {
                    if safe && sane(s) {
                        let k = king->0.idx();
                        assert(answers_check(s, k, to.idx()));
                        if promo {
                            assert(guarded(s, Move::Promotion(from, to, PieceKind::Queen), k, pin_rays@));
                            lemma_guarded_move_safe(s, Move::Promotion(from, to, PieceKind::Queen), k, pin_rays@);
                            assert(guarded(s, Move::Promotion(from, to, PieceKind::Knight), k, pin_rays@));
                            lemma_guarded_move_safe(s, Move::Promotion(from, to, PieceKind::Knight), k, pin_rays@);
                            assert(guarded(s, Move::Promotion(from, to, PieceKind::Rook), k, pin_rays@));
                            lemma_guarded_move_safe(s, Move::Promotion(from, to, PieceKind::Rook), k, pin_rays@);
                            assert(guarded(s, Move::Promotion(from, to, PieceKind::Bishop), k, pin_rays@));
                            lemma_guarded_move_safe(s, Move::Promotion(from, to, PieceKind::Bishop), k, pin_rays@);
                        } else {
                            assert(guarded(s, Move::Regular(from, to), k, pin_rays@));
                            lemma_guarded_move_safe(s, Move::Regular(from, to), k, pin_rays@);
                        }
                    }
                }
                let ghost mb = moves@;
                proof {
                    assert forall|x: Move| #[trigger] mb.contains(x) && x.spec_to() == to implies m0.contains(x) by {
                        if !m0.contains(x) {
                            assert(!rest0.contains(x.spec_to().idx()));
                        }
                    }
                    assert(bb@.contains(to.idx()));
                    assert(s.pieces[to.idx() - dir.spec_offset()] == Some(Piece(PieceKind::Pawn, s.to_move)));
                }
                let ghost pushed: Seq<Move> = if promo {
                    seq![
                        Move::Promotion(from, to, PieceKind::Queen),
                        Move::Promotion(from, to, PieceKind::Knight),
                        Move::Promotion(from, to, PieceKind::Rook),
                        Move::Promotion(from, to, PieceKind::Bishop),
                    ]
                } else {
                    seq![Move::Regular(from, to)]
                };
                proof {
                    assert forall|i: int| 0 <= i < pushed.len() implies pawn_sig(s, #[trigger] pushed[i], dir.spec_offset(), promo)
                        && pushed[i].spec_to() == to && (dup0 ==> !mb.contains(pushed[i])) by {
                        if dup0 && mb.contains(pushed[i]) {
                            assert(m0.contains(pushed[i]));
                        }
                    }
                }
                if promo {
                    push_safe(moves, Move::Promotion(from, to, PieceKind::Queen), Ghost(s), Ghost(captures_only), Ghost(safe));
                    let ghost mq = moves@;
                    proof {
                        assert(pushed[1] == Move::Promotion(from, to, PieceKind::Knight));
                        assert(dup0 ==> !mq.contains(pushed[1])) by {
                            if mq.contains(pushed[1]) && !mb.contains(pushed[1]) {
                                let i = choose|i: int| 0 <= i < mq.len() && mq[i] == pushed[1];
                            }
                        }
                    }
                    push_safe(moves, Move::Promotion(from, to, PieceKind::Knight), Ghost(s), Ghost(captures_only), Ghost(safe));
                    let ghost mn = moves@;
                    proof {
                        assert(pushed[2] == Move::Promotion(from, to, PieceKind::Rook));
                        assert(dup0 ==> !mn.contains(pushed[2])) by {
                            if mn.contains(pushed[2]) {
                                let i = choose|i: int| 0 <= i < mn.len() && mn[i] == pushed[2];
                                if i < mq.len() {
                                    assert(mq.contains(pushed[2]));
                                    let i2 = choose|i2: int| 0 <= i2 < mq.len() && mq[i2] == pushed[2];
                                    if i2 < mb.len() {
                                        assert(mb.contains(pushed[2]));
                                    }
                                }
                            }
                        }
                    }
                    push_safe(moves, Move::Promotion(from, to, PieceKind::Rook), Ghost(s), Ghost(captures_only), Ghost(safe));
                    let ghost mr = moves@;
                    proof {
                        assert(pushed[3] == Move::Promotion(from, to, PieceKind::Bishop));
                        assert(dup0 ==> !mr.contains(pushed[3])) by {
                            if mr.contains(pushed[3]) {
                                let i = choose|i: int| 0 <= i < mr.len() && mr[i] == pushed[3];
                                if i < mn.len() {
                                    assert(mn.contains(pushed[3]));
                                    let i2 = choose|i2: int| 0 <= i2 < mn.len() && mn[i2] == pushed[3];
                                    if i2 < mq.len() {
                                        assert(mq.contains(pushed[3]));
                                        let i3 = choose|i3: int| 0 <= i3 < mq.len() && mq[i3] == pushed[3];
                                        if i3 < mb.len() {
                                            assert(mb.contains(pushed[3]));
                                        }
                                    }
                                }
                            }
                        }
                    }
                    push_safe(moves, Move::Promotion(from, to, PieceKind::Bishop), Ghost(s), Ghost(captures_only), Ghost(safe));
                } else {
                    push_safe(moves, Move::Regular(from, to), Ghost(s), Ghost(captures_only), Ghost(safe));
                }
                proof {
                    assert forall|x: Move| #[trigger] moves@.contains(x) implies m0.contains(x) || (pawn_sig(s, x, dir.spec_offset(), promo)
                        && bb@.contains(x.spec_to().idx()) && !rest@.contains(x.spec_to().idx())) by {
                        if !mb.contains(x) {
                            assert(pushed.contains(x)) by {
                                let i = choose|i: int| 0 <= i < moves@.len() && moves@[i] == x;
                                if promo {
                                    assert(pushed[0] == Move::Promotion(from, to, PieceKind::Queen));
                                    assert(pushed[1] == Move::Promotion(from, to, PieceKind::Knight));
                                    assert(pushed[2] == Move::Promotion(from, to, PieceKind::Rook));
                                    assert(pushed[3] == Move::Promotion(from, to, PieceKind::Bishop));
                                } else {
                                    assert(pushed[0] == Move::Regular(from, to));
                                }
                            }
                        }
                    }
                }
            }
        }
    }

    /// Adds, for each square `to` of `bb`, the double step of a pawn to `to` from two steps
    /// back in direction `up`, unless a pin forbids it.
    fn add_double_pushes(
        &self,
        position: &Position,
        bb: Bitboard,
        up: Direction,
        pin_rays: Bitboard,
        king: Option<Square>,
        moves: &mut MoveList,
        Ghost(ctx): Ghost<bool>,
    )
        requires
            self.wf(),
            position.wf(),
            list_ok(old(moves)@, position@, false),
            up.spec_df() == 0,
            forall|t: int| #[trigger] bb@.contains(t) ==> on_board(rank_of(t) - 2 * up.spec_dr(), file_of(t))
                && move_ok(position@, Move::Regular(sq_of(t - 2 * up.spec_offset()), sq_of(t)), false)
                && position@.pieces[t - 2 * up.spec_offset()] == Some(Piece(PieceKind::Pawn, position@.to_move)),
            ctx ==> gen_ctx(position@, bb@, pin_rays@, king),
        ensures
            list_ok(final(moves)@, position@, false),
            ctx && list_safe(old(moves)@, position@) ==> list_safe(final(moves)@, position@),
            grows(old(moves)@, final(moves)@),
            final(moves)@.len() < 256 ==> forall|t: int|
                #[trigger] bb@.contains(t) && !pin_forbids(t - 2 * up.spec_offset(), t, king, pin_rays@)
                    ==> final(moves)@.contains(Move::Regular(sq_of(t - 2 * up.spec_offset()), sq_of(t))),
            forall|x: Move| #[trigger] final(moves)@.contains(x) ==> old(moves)@.contains(x) || (pawn_sig(position@, x, 2 * up.spec_offset(), false)
                && bb@.contains(x.spec_to().idx())),
            no_dup(old(moves)@) && (forall|x: Move| #[trigger] old(moves)@.contains(x) ==> !pawn_sig(position@, x, 2 * up.spec_offset(), false))
                ==> no_dup(final(moves)@),
    {
        let ghost s = position@;
        let ghost safe = ctx && list_safe(moves@, s);
        let ghost m0 = moves@;
        let ghost dup0 = no_dup(m0) && (forall|x: Move| #[trigger] m0.contains(x) ==> !pawn_sig(s, x, 2 * up.spec_offset(), false));
        let mut rest = bb;
        while !rest.is_empty()
            invariant
                self.wf(),
                s == position@,
                up.spec_df() == 0,
                rest@.subset_of(bb@),
                list_ok(moves@, s, false),
                forall|t: int| #[trigger] bb@.contains(t) ==> on_board(rank_of(t) - 2 * up.spec_dr(), file_of(t))
                    && move_ok(s, Move::Regular(sq_of(t - 2 * up.spec_offset()), sq_of(t)), false)
                    && s.pieces[t - 2 * up.spec_offset()] == Some(Piece(PieceKind::Pawn, s.to_move)),
                safe ==> ctx && gen_ctx(s, bb@, pin_rays@, king),
                safe ==> list_safe(moves@, s),
                grows(m0, moves@),
                moves@.len() < 256 ==> forall|t: int|
                    #[trigger] bb@.contains(t) && !rest@.contains(t) && !pin_forbids(t - 2 * up.spec_offset(), t, king, pin_rays@)
                        ==> moves@.contains(Move::Regular(sq_of(t - 2 * up.spec_offset()), sq_of(t))),
                forall|x: Move| #[trigger] moves@.contains(x) ==> m0.contains(x) || (pawn_sig(s, x, 2 * up.spec_offset(), false)
                    && bb@.contains(x.spec_to().idx()) && !rest@.contains(x.spec_to().idx())),
                dup0 == (no_dup(m0) && (forall|x: Move| #[trigger] m0.contains(x) ==> !pawn_sig(s, x, 2 * up.spec_offset(), false))),
                dup0 ==> no_dup(moves@),
            decreases rest@.len(),
        {
            proof {
                crate::bitboard::lemma_view_finite(rest.0);
            }
            let ghost rest0 = rest@;
            let to = rest.first_sq();
            rest = rest.without_first();
            proof {
                crate::bitboard::lemma_view_finite(rest.0);
                assert(bb@.contains(to.idx()));
            }
            let mid = to.shift_back(up);
            let from = mid.shift_back(up);
            proof {
                Square::lemma_from_index_spec_idx(from);
                Square::lemma_from_index_spec_idx(to);
            }
            let prohibited = match king {
                Some(k) => self.is_prohibited_by_pin(from, to, k, pin_rays),
                None => false,
            };
            if !prohibited {
                proof {
                    if safe && sane(s) {
                        let k = king->0.idx();
                        assert(answers_check(s, k, to.idx()));
                        assert(guarded(s, Move::Regular(from, to), k, pin_rays@));
                        lemma_guarded_move_safe(s, Move::Regular(from, to), k, pin_rays@);
                    }
                }
                let ghost mb = moves@;
                proof {
                    assert(bb@.contains(to.idx()));
                    assert(pawn_sig(s, Move::Regular(from, to), 2 * up.spec_offset(), false));
                    if dup0 && mb.contains(Move::Regular(from, to)) {
                        if !m0.contains(Move::Regular(from, to)) {
                            assert(!rest0.contains(to.idx()));
                        }
                    }
                }
                push_safe(moves, Move::Regular(from, to), Ghost(s), Ghost(false), Ghost(safe));
                proof {
                    assert forall|x: Move| #[trigger] moves@.contains(x) implies m0.contains(x) || (pawn_sig(s, x, 2 * up.spec_offset(), false)
                        && bb@.contains(x.spec_to().idx()) && !rest@.contains(x.spec_to().idx())) by {
                        if !mb.contains(x) {
                            let i = choose|i: int| 0 <= i < moves@.len() && moves@[i] == x;
                        }
                    }
                }
            }
        }
    }

    /// Adds the en passant capture from `from` to `to`, taking the pawn on `ep_pawn_sq`,
    /// unless a pin forbids it or it would uncover an attack on the king by a bishop, rook
    /// or queen.
    fn add_en_passant(
        &self,
        position: &Position,
        from: Square,
        to: Square,
        ep_pawn_sq: Square,
        pin_rays: Bitboard,
        king: Option<Square>,
        captures_only: bool,
        moves: &mut MoveList,
        Ghost(ctx): Ghost<bool>,
    )
        requires
            self.wf(),
            position.wf(),
            list_ok(old(moves)@, position@, captures_only),
            move_ok(position@, Move::EnPassant(from, to), captures_only),
            ep_pawn_sq == ep_capture_sq(to, position@.to_move),
            ctx ==> (sane(position@) ==> king_ctx(position@, pin_rays@, king) && (answers_check(
                position@,
                king->0.idx(),
                ep_pawn_sq.idx(),
            ) || answers_check(position@, king->0.idx(), to.idx()))),
        ensures
            list_ok(final(moves)@, position@, captures_only),
            ctx && list_safe(old(moves)@, position@) ==> list_safe(final(moves)@, position@),
            grows(old(moves)@, final(moves)@),
            final(moves)@.len() < 256 && !pin_forbids(from.idx(), to.idx(), king, pin_rays@) && !ep_exposes(
                position@,
                Move::EnPassant(from, to),
                king,
            ) ==> final(moves)@.contains(Move::EnPassant(from, to)),
            forall|x: Move| #[trigger] final(moves)@.contains(x) ==> old(moves)@.contains(x) || x == Move::EnPassant(from, to),
            no_dup(old(moves)@) && !old(moves)@.contains(Move::EnPassant(from, to)) ==> no_dup(final(moves)@),
    {
        let ghost s = position@;
        let ghost safe = ctx && list_safe(moves@, s);
        let ghost m0 = moves@;
        match king {
            Some(king_sq) => {
                let pieces = position.pieces();
                let them = position.to_move().opp();
                let opp_bishops = pieces.get_bb(Piece(PieceKind::Bishop, them));
                let opp_rooks = pieces.get_bb(Piece(PieceKind::Rook, them));
                let opp_queens = pieces.get_bb(Piece(PieceKind::Queen, them));
                let occ = pieces.get_occ().minus(Bitboard::from_sq(from).add_sq(ep_pawn_sq)).add_sq(to);
                proof {
                    lemma_after_ep(s, Move::EnPassant(from, to));
                    assert(occ@ =~= occupied(make_spec(s, Move::EnPassant(from, to))));
                }
                let exposed = self.tables.gen_rook_attacks(occ, king_sq).intersect(opp_rooks.union(opp_queens)).union(
                    self.tables.gen_bishop_attacks(occ, king_sq).intersect(opp_bishops.union(opp_queens)),
                );
                if self.is_prohibited_by_pin(from, to, king_sq, pin_rays) || !exposed.is_empty() {
                    proof {
                        let m = Move::EnPassant(from, to);
                        let occ2 = occupied(make_spec(s, m));
                        let k = king_sq.idx();
                        if exposed@ != Set::<int>::empty() {
                            assert(exists|t: int| exposed@.contains(t)) by {
                                if forall|t: int| !exposed@.contains(t) {
                                    assert(exposed@ =~= Set::<int>::empty());
                                }
                            }
                            let t = choose|t: int| exposed@.contains(t);
                            if bishop_attacks(k, occ2).intersect(sliders_of(s, them, false)).contains(t) {
                                assert(!bishop_attacks(k, occ2).intersect(sliders_of(s, them, false)).is_empty());
                            } else {
                                assert(!rook_attacks(k, occ2).intersect(sliders_of(s, them, true)).is_empty());
                            }
                        }
                    }
                    return;
                }
                proof {
                    if safe && sane(s) {
                        let m = Move::EnPassant(from, to);
                        let occ2 = occupied(make_spec(s, m));
                        let k = king_sq.idx();
                        assert(bishop_attacks(k, occ2).intersect(sliders_of(s, them, false)) =~= Set::<int>::empty()) by {
                            assert forall|t: int| !(bishop_attacks(k, occ2).intersect(sliders_of(s, them, false)).contains(t)) by {
                                assert(!exposed@.contains(t));
                            }
                        }
                        assert(rook_attacks(k, occ2).intersect(sliders_of(s, them, true)) =~= Set::<int>::empty()) by {
                            assert forall|t: int| !(rook_attacks(k, occ2).intersect(sliders_of(s, them, true)).contains(t)) by {
                                assert(!exposed@.contains(t));
                            }
                        }
                        assert(ep_guarded(s, m, k));
                        lemma_ep_safe(s, m, k);
                    }
                }
            },
            None => {},
        }
        push_safe(moves, Move::EnPassant(from, to), Ghost(s), Ghost(captures_only), Ghost(safe));
        proof {
            assert forall|x: Move| #[trigger] moves@.contains(x) implies m0.contains(x) || x == Move::EnPassant(from, to) by {
                let i = choose|i: int| 0 <= i < moves@.len() && moves@[i] == x;
                if i < m0.len() {
                    assert(m0.contains(x));
                }
            }
        }
    }

    /// Adds the pawn moves of the player to move that land on `blocking_sqs` and that the
    /// pin rays allow; only the captures if `captures_only`. When `king` and `pin_rays` are
    /// right and the squares of `blocking_sqs` answer a check (see `gen_ctx`), the moves
    /// added leave the king unattacked.
    #[verifier::rlimit(40)]
    pub fn gen_pawn_moves(
        &self,
        position: &Position,
        blocking_sqs: Bitboard,
        pin_rays: Bitboard,
        king: Option<Square>,
        captures_only: bool,
        moves: &mut MoveList,
    )
        requires
            self.wf(),
            position.wf(),
            list_ok(old(moves)@, position@, captures_only),
        ensures
            list_ok(final(moves)@, position@, captures_only),
            gen_ctx(position@, blocking_sqs@, pin_rays@, king) && list_safe(old(moves)@, position@) ==> list_safe(
                final(moves)@,
                position@,
            ),
            grows(old(moves)@, final(moves)@),
            final(moves)@.len() < 256 ==> forall|m: Move|
                #[trigger] pawn_target(position@, m, blocking_sqs@, pin_rays@, king, captures_only) ==> final(moves)@.contains(m),
            forall|x: Move| #[trigger] final(moves)@.contains(x) ==> old(moves)@.contains(x) || piece_moved(position@, x, PieceKind::Pawn),
            no_dup(old(moves)@) && (forall|x: Move| #[trigger] old(moves)@.contains(x) ==> !piece_moved(position@, x, PieceKind::Pawn)) ==> no_dup(
                final(moves)@,
            ),
    {
        let ghost s = position@;
        let ghost ctx = gen_ctx(s, blocking_sqs@, pin_rays@, king);
        let ghost base = moves@;
        let ghost dup0 = no_dup(base) && (forall|x: Move| #[trigger] base.contains(x) ==> !piece_moved(s, x, PieceKind::Pawn));
        let pieces = position.pieces();
        let us = position.to_move();
        let them = us.opp();
        let pawns = pieces.get_bb(Piece(PieceKind::Pawn, us));
        if pawns.is_empty() {
            proof {
                assert forall|m: Move| #[trigger] pawn_target(s, m, blocking_sqs@, pin_rays@, king, captures_only) implies false by {
                    m.spec_from().lemma_idx_bound();
                    assert(pawns@.contains(m.spec_from().idx()));
                }
            }
            return;
        }
        let (up, up_left, up_right, fourth_bb, last_bb) = match us {
            Color::White => (
                Direction::North,
                Direction::NorthWest,
                Direction::NorthEast,
                Bitboard::rank(3),
                Bitboard::rank(7),
            ),
            Color::Black => (
                Direction::South,
                Direction::SouthEast,
                Direction::SouthWest,
                Bitboard::rank(4),
                Bitboard::rank(0),
            ),
        };
        proof {
            pieces.lemma_len();
            assert(up == up_dir(us));
            assert(fourth_bb@ == crate::bitboard::rank_set(fourth_rank(us)));
            assert(last_bb@ == crate::bitboard::rank_set(last_rank(us)));
        }
        let occ = pieces.get_occ();
        // Forward
        if !captures_only {
            let legal_fwd = occ.complement().intersect(blocking_sqs);
            let fwd = pawns.shift(up).intersect(legal_fwd);
            let fwd_no_promo = fwd.minus(last_bb);
            let fwd_promo = fwd.intersect(last_bb);
            // A double step may block a check on its landing square though the square it
            // crosses does not.
            let single = pawns.shift(up).intersect(occ.complement());
            let fwd2 = single.shift(up).intersect(fourth_bb).intersect(legal_fwd);
            proof {
                assert forall|t: int| #[trigger] fwd_no_promo@.contains(t) implies on_board(rank_of(t) - up.spec_dr(), file_of(t) - up.spec_df())
                    && pawn_move_ok(s, t - up.spec_offset(), t, false, false) by {
                    lemma_push_ok(s, pawns@, t);
                }
                assert forall|t: int| #[trigger] fwd_promo@.contains(t) implies on_board(rank_of(t) - up.spec_dr(), file_of(t) - up.spec_df())
                    && pawn_move_ok(s, t - up.spec_offset(), t, true, false) by {
                    lemma_push_ok(s, pawns@, t);
                }
                assert forall|t: int| #[trigger] fwd2@.contains(t) implies on_board(rank_of(t) - 2 * up.spec_dr(), file_of(t))
                    && move_ok(s, Move::Regular(sq_of(t - 2 * up.spec_offset()), sq_of(t)), false) by {
                    lemma_double_ok(s, pawns@, single@, t);
                }
            }
            self.add_pawn_moves(position, fwd_no_promo, up, false, pin_rays, king, false, moves, Ghost(ctx));
            let ghost mf1 = moves@;
            self.add_pawn_moves(position, fwd_promo, up, true, pin_rays, king, false, moves, Ghost(ctx));
            let ghost mf2 = moves@;
            self.add_double_pushes(position, fwd2, up, pin_rays, king, moves, Ghost(ctx));
            proof {
                assert forall|m: Move| (m is Regular || m is Promotion) && #[trigger] pawn_target(s, m, blocking_sqs@, pin_rays@, king, captures_only)
                    && !pawn_capture(s, m.spec_from().idx(), m.spec_to().idx()) && moves@.len() < 256 implies moves@.contains(m) by {
                    let f = m.spec_from().idx();
                    let t = m.spec_to().idx();
                    m.spec_from().lemma_idx_bound();
                    m.spec_to().lemma_idx_bound();
                    Square::lemma_from_index_spec_idx(m.spec_from());
                    Square::lemma_from_index_spec_idx(m.spec_to());
                    assert(pawns@.contains(f));
                    if pawn_push(s, f, t) {
                        assert(shifted(pawns@, up).contains(t));
                        assert(fwd@.contains(t));
                        if m is Regular {
                            assert(fwd_no_promo@.contains(t));
                            assert(added_pawn(mf1, t - up.spec_offset(), t, false));
                        } else {
                            assert(fwd_promo@.contains(t));
                            assert(added_pawn(mf2, t - up.spec_offset(), t, true));
                        }
                    } else {
                        assert(pawn_double_push(s, f, t));
                        assert(single@.contains(f + up.spec_offset()));
                        assert(fwd2@.contains(t));
                        assert(moves@.contains(Move::Regular(sq_of(t - 2 * up.spec_offset()), sq_of(t))));
                    }
                }
            }
        } else {
            proof {
                assert forall|m: Move| (m is Regular || m is Promotion) && #[trigger] pawn_target(s, m, blocking_sqs@, pin_rays@, king, captures_only)
                    implies pawn_capture(s, m.spec_from().idx(), m.spec_to().idx()) by {
                    if pawn_push(s, m.spec_from().idx(), m.spec_to().idx()) {
                        assert(is_capture(s, m));
                    }
                }
            }
        }
        let ghost mfw = moves@;
        // Attacks
        let legal_atk = pieces.get_occ_for(them).intersect(blocking_sqs);
        let left = pawns.shift(up_left);
        let right = pawns.shift(up_right);
        let left_atk = left.intersect(legal_atk);
        let right_atk = right.intersect(legal_atk);
        let left_atk_no_promo = left_atk.minus(last_bb);
        let right_atk_no_promo = right_atk.minus(last_bb);
        let left_atk_promo = left_atk.intersect(last_bb);
        let right_atk_promo = right_atk.intersect(last_bb);
        proof {
            assert forall|t: int| #[trigger] left_atk_no_promo@.contains(t) implies on_board(rank_of(t) - up_left.spec_dr(), file_of(t) - up_left.spec_df())
                && pawn_move_ok(s, t - up_left.spec_offset(), t, false, captures_only) by {
                lemma_capture_ok(s, pawns@, up_left, t, captures_only);
            }
            assert forall|t: int| #[trigger] right_atk_no_promo@.contains(t) implies on_board(rank_of(t) - up_right.spec_dr(), file_of(t) - up_right.spec_df())
                && pawn_move_ok(s, t - up_right.spec_offset(), t, false, captures_only) by {
                lemma_capture_ok(s, pawns@, up_right, t, captures_only);
            }
            assert forall|t: int| #[trigger] left_atk_promo@.contains(t) implies on_board(rank_of(t) - up_left.spec_dr(), file_of(t) - up_left.spec_df())
                && pawn_move_ok(s, t - up_left.spec_offset(), t, true, captures_only) by {
                lemma_capture_ok(s, pawns@, up_left, t, captures_only);
            }
            assert forall|t: int| #[trigger] right_atk_promo@.contains(t) implies on_board(rank_of(t) - up_right.spec_dr(), file_of(t) - up_right.spec_df())
                && pawn_move_ok(s, t - up_right.spec_offset(), t, true, captures_only) by {
                lemma_capture_ok(s, pawns@, up_right, t, captures_only);
            }
        }
        self.add_pawn_moves(position, left_atk_no_promo, up_left, false, pin_rays, king, captures_only, moves, Ghost(ctx));
        let ghost ma1 = moves@;
        self.add_pawn_moves(position, right_atk_no_promo, up_right, false, pin_rays, king, captures_only, moves, Ghost(ctx));
        let ghost ma2 = moves@;
        self.add_pawn_moves(position, left_atk_promo, up_left, true, pin_rays, king, captures_only, moves, Ghost(ctx));
        let ghost ma3 = moves@;
        self.add_pawn_moves(position, right_atk_promo, up_right, true, pin_rays, king, captures_only, moves, Ghost(ctx));
        proof {
            assert forall|m: Move| (m is Regular || m is Promotion) && #[trigger] pawn_target(s, m, blocking_sqs@, pin_rays@, king, captures_only)
                && pawn_capture(s, m.spec_from().idx(), m.spec_to().idx()) && moves@.len() < 256 implies moves@.contains(m) by {
                let f = m.spec_from().idx();
                let t = m.spec_to().idx();
                m.spec_from().lemma_idx_bound();
                m.spec_to().lemma_idx_bound();
                Square::lemma_from_index_spec_idx(m.spec_from());
                Square::lemma_from_index_spec_idx(m.spec_to());
                lemma_capture_source(s, pawns@, up_left, up_right, f, t);
                if shifted(pawns@, up_left).contains(t) && f == t - up_left.spec_offset() {
                    assert(left_atk@.contains(t));
                    if m is Regular {
                        assert(left_atk_no_promo@.contains(t));
                        assert(added_pawn(ma1, t - up_left.spec_offset(), t, false));
                    } else {
                        assert(left_atk_promo@.contains(t));
                        assert(added_pawn(ma3, t - up_left.spec_offset(), t, true));
                    }
                } else {
                    assert(right_atk@.contains(t));
                    if m is Regular {
                        assert(right_atk_no_promo@.contains(t));
                        assert(added_pawn(ma2, t - up_right.spec_offset(), t, false));
                    } else {
                        assert(right_atk_promo@.contains(t));
                        assert(added_pawn(moves@, t - up_right.spec_offset(), t, true));
                    }
                }
            }
        }
        let ghost mat = moves@;
        // En passant
        let ghost m_ep = moves@;
        if let Some(sq) = position.en_passant_sq() {
            // In check, the capture must take the checking pawn or land between the checking
            // piece and the king.
            match sq.add_vec(SquareVec(-up.rank_step(), 0)) {
                Some(ep_pawn_sq) => {
                    if (blocking_sqs.contains(ep_pawn_sq) || blocking_sqs.contains(sq)) && pieces.get(ep_pawn_sq) == Some(
                        Piece(PieceKind::Pawn, them),
                    ) && pieces.get(sq).is_none() {
                        proof {
                            Square::lemma_from_index_spec_idx(ep_pawn_sq);
                            Square::lemma_idx_bound(sq);
                            Square::lemma_idx_bound(ep_pawn_sq);
                            assert(ep_pawn_sq.idx() == sq.idx() - up.spec_offset());
                        }
                        let ghost ml0 = moves@;
                        let mut from_l = sq;
                        if left.contains(sq) {
                            let from = sq.shift_back(up_left);
                            proof {
                                lemma_capture_step(us, up_left, sq.idx());
                                Square::lemma_idx_bound(from);
                            }
                            self.add_en_passant(position, from, sq, ep_pawn_sq, pin_rays, king, captures_only, moves, Ghost(ctx));
                            from_l = from;
                        }
                        let ghost ml1 = moves@;
                        let mut from_r = sq;
                        if right.contains(sq) {
                            let from = sq.shift_back(up_right);
                            proof {
                                lemma_capture_step(us, up_right, sq.idx());
                                Square::lemma_idx_bound(from);
                            }
                            self.add_en_passant(position, from, sq, ep_pawn_sq, pin_rays, king, captures_only, moves, Ghost(ctx));
                            from_r = from;
                        }
                        proof {
                            assert forall|m: Move| m is EnPassant && #[trigger] pawn_target(s, m, blocking_sqs@, pin_rays@, king, captures_only)
                                && moves@.len() < 256 implies moves@.contains(m) by {
                                let f = m.spec_from().idx();
                                let t = m.spec_to().idx();
                                m.spec_from().lemma_idx_bound();
                                assert(m.spec_to() == sq);
                                lemma_capture_source(s, pawns@, up_left, up_right, f, t);
                                if shifted(pawns@, up_left).contains(t) && f == t - up_left.spec_offset() {
                                    Square::lemma_idx_injective(from_l, m.spec_from());
                                    assert(m == Move::EnPassant(from_l, sq));
                                    assert(ml1.contains(m));
                                } else {
                                    Square::lemma_idx_injective(from_r, m.spec_from());
                                    assert(m == Move::EnPassant(from_r, sq));
                                }
                            }
                        }
                    } else {
                        proof {
                            assert forall|m: Move| m is EnPassant && #[trigger] pawn_target(s, m, blocking_sqs@, pin_rays@, king, captures_only)
                                implies false by {
                                assert(m.spec_to() == sq);
                                assert(ep_capture_sq(m.spec_to(), us) == ep_pawn_sq) by {
                                    Square::lemma_idx_injective(ep_capture_sq(m.spec_to(), us), ep_pawn_sq);
                                    Square::lemma_from_index_spec(sq.idx() - up.spec_offset());
                                }
                            }
                        }
                    }
                },
                None => {
                    proof {
                        assert forall|m: Move| m is EnPassant && #[trigger] pawn_target(s, m, blocking_sqs@, pin_rays@, king, captures_only)
                            implies false by {
                            assert(m.spec_to() == sq);
                        }
                    }
                },
            }
        }
        proof {
            assert(grows(m_ep, moves@));
            assert(ep_covered(moves@, s, blocking_sqs@, pin_rays@, king, captures_only));
            assert forall|m: Move| #[trigger] pawn_target(s, m, blocking_sqs@, pin_rays@, king, captures_only)
                && moves@.len() < 256 implies moves@.contains(m) by {
                if m is EnPassant {
                } else if pawn_capture(s, m.spec_from().idx(), m.spec_to().idx()) {
                    assert(mat.contains(m));
                } else {
                    assert(mfw.contains(m));
                }
            }
        }
    }

    /// Adds the moves, castling aside, of the pieces of kind `kind` (not pawns) of the player
    /// to move that land on `blocking_sqs` (any square for the king, which must avoid the
    /// squares of `danger`) and that the pin rays allow; only the captures if `captures_only`.
    pub fn gen_non_pawn_moves(
        &self,
        position: &Position,
        kind: PieceKind,
        blocking_sqs: Bitboard,
        pin_rays: Bitboard,
        king: Option<Square>,
        danger: Bitboard,
        captures_only: bool,
        moves: &mut MoveList,
    )
        requires
            self.wf(),
            position.wf(),
            kind != PieceKind::Pawn,
            list_ok(old(moves)@, position@, captures_only),
        ensures
            list_ok(final(moves)@, position@, captures_only),
            (if kind == PieceKind::King {
                sane(position@) ==> danger@ == danger_spec(position@)
            } else {
                gen_ctx(position@, blocking_sqs@, pin_rays@, king)
            }) && list_safe(old(moves)@, position@) ==> list_safe(final(moves)@, position@),
            grows(old(moves)@, final(moves)@),
            final(moves)@.len() < 256 ==> forall|m: Move|
                #[trigger] piece_target(position@, m, kind, blocking_sqs@, pin_rays@, king, danger@, captures_only)
                    ==> final(moves)@.contains(m),
            forall|x: Move| #[trigger] final(moves)@.contains(x) ==> old(moves)@.contains(x) || piece_moved(position@, x, kind),
            no_dup(old(moves)@) && (forall|x: Move| #[trigger] old(moves)@.contains(x) ==> !piece_moved(position@, x, kind)) ==> no_dup(
                final(moves)@,
            ),
    {
        let ghost s = position@;
        let ghost m0 = moves@;
        let ghost dup0 = no_dup(m0) && (forall|x: Move| #[trigger] m0.contains(x) ==> !piece_moved(s, x, kind));
        let ghost ctx = if kind == PieceKind::King {
            sane(s) ==> danger@ == danger_spec(s)
        } else {
            gen_ctx(s, blocking_sqs@, pin_rays@, king)
        };
        let ghost safe = ctx && list_safe(moves@, s);
        let pieces = position.pieces();
        let us = position.to_move();
        let pce = Piece(kind, us);
        let pcs = pieces.get_bb(pce);
        let occ = pieces.get_occ();
        let own_occ = pieces.get_occ_for(us);
        let mut legal_sqs = own_occ.complement().intersect(blocking_sqs);
        if kind == PieceKind::King {
            legal_sqs = legal_sqs.minus(danger);
        }
        if captures_only {
            legal_sqs = legal_sqs.intersect(pieces.get_occ_for(us.opp()));
        }
        proof {
            pieces.lemma_len();
        }
        let mut rest = pcs;
        while !rest.is_empty()
            invariant
                self.wf(),
                s == position@,
                s.pieces.len() == 64,
                pce == Piece(kind, s.to_move),
                kind != PieceKind::Pawn,
                pcs@ == squares_with(s.pieces, pce),
                occ@ == occupied(s),
                forall|t: int| #[trigger] legal_sqs@.contains(t) ==> 0 <= t < 64 && not_own(s, t) && (captures_only ==> enemy_on(s, t)),
                forall|t: int| #[trigger] legal_sqs@.contains(t) ==> blocking_sqs@.contains(t) && (kind == PieceKind::King ==> !danger@.contains(t)),
                forall|t: int|
                    0 <= t < 64 && not_own(s, t) && (captures_only ==> enemy_on(s, t)) && blocking_sqs@.contains(t) && (kind
                        == PieceKind::King ==> !danger@.contains(t)) ==> #[trigger] legal_sqs@.contains(t),
                grows(m0, moves@),
                moves@.len() < 256 ==> forall|m: Move|
                    #[trigger] piece_target(s, m, kind, blocking_sqs@, pin_rays@, king, danger@, captures_only) && !rest@.contains(
                        m.spec_from().idx(),
                    ) ==> moves@.contains(m),
                rest@.subset_of(pcs@),
                list_ok(moves@, s, captures_only),
                forall|x: Move| #[trigger] moves@.contains(x) ==> m0.contains(x) || (x is Regular && pcs@.contains(
                    x.spec_from().idx(),
                ) && !rest@.contains(x.spec_from().idx())),
                dup0 == (no_dup(m0) && (forall|x: Move| #[trigger] m0.contains(x) ==> !piece_moved(s, x, kind))),
                dup0 ==> no_dup(moves@),
                safe ==> ctx,
                safe ==> list_safe(moves@, s),
                ctx == (if kind == PieceKind::King {
                    sane(s) ==> danger@ == danger_spec(s)
                } else {
                    gen_ctx(s, blocking_sqs@, pin_rays@, king)
                }),
            decreases rest@.len(),
        {
            proof {
                crate::bitboard::lemma_view_finite(rest.0);
            }
            let from = rest.first_sq();
            rest = rest.without_first();
            proof {
                crate::bitboard::lemma_view_finite(rest.0);
                assert(pcs@.contains(from.idx()));
            }
            let mut piece_sqs = legal_sqs;
            if kind != PieceKind::King && pin_rays.contains(from) {
                if let Some(k) = king {
                    piece_sqs = piece_sqs.intersect(pin_rays.intersect(self.tables.line_through(from, k)));
                }
            }
            let atks = self.gen_attacks_from_sq(occ, pce, from).intersect(piece_sqs);
            proof {
                assert forall|m: Move| #[trigger] piece_target(s, m, kind, blocking_sqs@, pin_rays@, king, danger@, captures_only)
                    && m.spec_from() == from implies atks@.contains(m.spec_to().idx()) by {
                    m.spec_to().lemma_idx_bound();
                    assert(legal_sqs@.contains(m.spec_to().idx()));
                }
            }
            let mut targets = atks;
            while !targets.is_empty()
                invariant
                    self.wf(),
                    s == position@,
                    s.pieces.len() == 64,
                    pce == Piece(kind, s.to_move),
                    kind != PieceKind::Pawn,
                    s.pieces[from.idx()] == Some(pce),
                    grows(m0, moves@),
                    moves@.len() < 256 ==> forall|m: Move|
                        #[trigger] piece_target(s, m, kind, blocking_sqs@, pin_rays@, king, danger@, captures_only) && !rest@.contains(
                            m.spec_from().idx(),
                        ) && (m.spec_from() == from ==> !targets@.contains(m.spec_to().idx())) ==> moves@.contains(m),
                    forall|t: int| #[trigger] atks@.contains(t) ==> 0 <= t < 64 && not_own(s, t) && (captures_only ==> enemy_on(s, t))
                        && piece_attacks(pce, from.idx(), occupied(s)).contains(t),
                    forall|t: int| #[trigger] atks@.contains(t) ==> blocking_sqs@.contains(t) && (kind == PieceKind::King
                        ==> !danger@.contains(t)) && (kind != PieceKind::King && king is Some && pin_rays@.contains(from.idx())
                        ==> pin_rays@.intersect(line_through_spec(from.idx(), king->0.idx())).contains(t)),
                    targets@.subset_of(atks@),
                    list_ok(moves@, s, captures_only),
                    pcs@ == squares_with(s.pieces, pce),
                    pcs@.contains(from.idx()),
                    !rest@.contains(from.idx()),
                    forall|x: Move| #[trigger] moves@.contains(x) ==> m0.contains(x) || (x is Regular && pcs@.contains(
                        x.spec_from().idx(),
                    ) && !rest@.contains(x.spec_from().idx()) && (x.spec_from() == from ==> !targets@.contains(
                        x.spec_to().idx(),
                    ))),
                    dup0 == (no_dup(m0) && (forall|x: Move| #[trigger] m0.contains(x) ==> !piece_moved(s, x, kind))),
                    dup0 ==> no_dup(moves@),
                    safe ==> ctx,
                    safe ==> list_safe(moves@, s),
                    ctx == (if kind == PieceKind::King {
                        sane(s) ==> danger@ == danger_spec(s)
                    } else {
                        gen_ctx(s, blocking_sqs@, pin_rays@, king)
                    }),
                decreases targets@.len(),
            {
                proof {
                    crate::bitboard::lemma_view_finite(targets.0);
                }
                let to = targets.first_sq();
                targets = targets.without_first();
                proof {
                    crate::bitboard::lemma_view_finite(targets.0);
                    assert(atks@.contains(to.idx()));
                    Square::lemma_idx_injective(from, to);
                    if safe && sane(s) {
                        let m = Move::Regular(from, to);
                        if kind == PieceKind::King {
                            lemma_king_move_safe(s, m);
                        } else {
                            let k = king->0.idx();
                            assert(answers_check(s, k, to.idx()));
                            assert(guarded(s, m, k, pin_rays@));
                            lemma_guarded_move_safe(s, m, k, pin_rays@);
                        }
                    }
                }
                proof {
                    let m = Move::Regular(from, to);
                    if moves@.contains(m) && !m0.contains(m) {
                        assert(!targets@.contains(to.idx()));
                    }
                    if dup0 && m0.contains(m) {
                        assert(!piece_moved(s, m, kind));
                    }
                }
                push_safe(moves, Move::Regular(from, to), Ghost(s), Ghost(captures_only), Ghost(safe));
            }
        }
    }

    /// Adds the castling move of the player to move on side `side`, if it has the right, the
    /// squares between king and rook are empty, the king's path is not in `danger`, and
    /// king and rook stand on their squares.
    fn gen_castling_move(&self, position: &Position, side: Side, danger: Bitboard, moves: &mut MoveList)
        requires
            self.wf(),
            position.wf(),
            danger@ == danger_spec(position@),
            list_ok(old(moves)@, position@, false),
        ensures
            list_ok(final(moves)@, position@, false),
            list_safe(old(moves)@, position@) ==> list_safe(final(moves)@, position@),
            grows(old(moves)@, final(moves)@),
            final(moves)@.len() < 256 && legal_shape(position@, castling_move(position@.to_move, side))
                ==> final(moves)@.contains(castling_move(position@.to_move, side)),
            forall|x: Move| #[trigger] final(moves)@.contains(x) ==> old(moves)@.contains(x) || x == castling_move(
                position@.to_move,
                side,
            ),
            no_dup(old(moves)@) && !old(moves)@.contains(castling_move(position@.to_move, side)) ==> no_dup(final(moves)@),
    {
        let ghost s = position@;
        let ghost safe = list_safe(moves@, s);
        let us = position.to_move();
        if !position.castling().get(us, side) {
            proof {
                assert(side_of(castling_move(us, side).spec_to()) == side);
            }
            return;
        }
        let (castling_sqs, no_occ_sqs) = match (us, side) {
            (Color::White, Side::KingSide) => (
                Bitboard::from_sq(Square::E1).add_sq(Square::F1).add_sq(Square::G1),
                Bitboard::from_sq(Square::F1).add_sq(Square::G1),
            ),
            (Color::Black, Side::KingSide) => (
                Bitboard::from_sq(Square::E8).add_sq(Square::F8).add_sq(Square::G8),
                Bitboard::from_sq(Square::F8).add_sq(Square::G8),
            ),
            (Color::White, Side::QueenSide) => (
                Bitboard::from_sq(Square::E1).add_sq(Square::D1).add_sq(Square::C1),
                Bitboard::from_sq(Square::D1).add_sq(Square::C1).add_sq(Square::B1),
            ),
            (Color::Black, Side::QueenSide) => (
                Bitboard::from_sq(Square::E8).add_sq(Square::D8).add_sq(Square::C8),
                Bitboard::from_sq(Square::D8).add_sq(Square::C8).add_sq(Square::B8),
            ),
        };
        proof {
            assert(castling_sqs@ =~= castling_king_path(us, side));
            assert(no_occ_sqs@ =~= castling_empty_sqs(us, side));
        }
        let pieces = position.pieces();
        let occ = pieces.get_occ();
        let king_from = crate::util::get_king_sq(us);
        let rook_from = CastlingRights::get_rook_sq(us, side);
        let to = CastlingRights::get_castling_sq(us, side);
        let blocked = castling_sqs.intersect(danger).union(no_occ_sqs.intersect(occ));
        if blocked.is_empty() && pieces.get(
            king_from,
        ) == Some(Piece(PieceKind::King, us)) && pieces.get(rook_from) == Some(Piece(PieceKind::Rook, us)) {
            proof {
                pieces.lemma_len();
                assert(side_of(to) == side);
                assert forall|i: int| #[trigger] castling_empty_sqs(us, side).contains(i) implies s.pieces[i] is None by {
                    assert(!blocked@.contains(i));
                }
                assert(castling_king_path(us, side).disjoint(danger_spec(s))) by {
                    assert forall|i: int| castling_king_path(us, side).contains(i) implies !danger_spec(s).contains(i) by {
                        assert(!blocked@.contains(i));
                    }
                }
                assert(castling_empty_sqs(us, side).contains(crate::castling::castling_rook_sq_spec(us, side).idx()));
                assert(castling_empty_sqs(us, side).contains(to.idx()));
                assert(s.pieces[to.idx()] is None);
                assert(applicable(s, Move::Castling(king_from, to)));
                assert(legal_shape(s, Move::Castling(king_from, to)));
                assert(move_ok(s, Move::Castling(king_from, to), false));
            }
            proof {
                if sane(s) {
                    lemma_castling_safe(s, Move::Castling(king_from, to));
                }
            }
            proof {
                assert(Move::Castling(king_from, to) == castling_move(us, side));
            }
            push_safe(moves, Move::Castling(king_from, to), Ghost(s), Ghost(false), Ghost(safe));
        } else {
            proof {
                let m = castling_move(us, side);
                assert(side_of(m.spec_to()) == side);
                if legal_shape(s, m) {
                    pieces.lemma_len();
                    assert forall|i: int| !blocked@.contains(i) by {
                        if castling_sqs@.contains(i) {
                            assert(castling_king_path(us, side).contains(i));
                        }
                        if no_occ_sqs@.contains(i) {
                            assert(castling_empty_sqs(us, side).contains(i));
                        }
                    }
                    assert(blocked@ =~= Set::<int>::empty());
                }
            }
        }
    }

    /// The moves of the player to move (only the captures if `captures_only`), and whether
    /// its king is in check.
    fn gen_moves(&self, position: &Position, captures_only: bool) -> (r: (MoveList, bool))
        requires
            self.wf(),
            position.wf(),
        ensures
            list_ok(r.0@, position@, captures_only),
            list_safe(r.0@, position@),
            gen_complete(r.0@, position@, captures_only),
            no_dup(r.0@),
            r.1 == in_check(position@),
    {
        let ghost s = position@;
        let us = position.to_move();
        let mut moves = MoveList::new();
        let danger = self.gen_danger_sqs(position);
        let king = self.king_sq(position, us);
        let (pin_rays, check) = match king {
            Some(k) => (self.pin_rays(position, k), danger.contains(k)),
            None => (Bitboard::new(), false),
        };
        let all = Bitboard::full();
        proof {
            assert(list_safe(moves@, s));
            if sane(s) {
                assert(king_ctx(s, pin_rays@, king));
            }
        }
        let mut unrestricted = !check;
        if check {
            let checkers = self.checkers(position);
            if checkers.len() >= 2 {
                let ghost l0 = moves@;
                self.gen_non_pawn_moves(position, PieceKind::King, all, pin_rays, king, danger, captures_only, &mut moves);
                proof {
                    if sane(s) {
                        let k = king->0.idx();
                        crate::bitboard::lemma_view_finite(checkers.0);
                        assert(exists|c1: int| checkers@.contains(c1)) by {
                            if forall|c1: int| !checkers@.contains(c1) {
                                assert(checkers@ =~= Set::<int>::empty());
                            }
                        }
                        let c1 = choose|c1: int| checkers@.contains(c1);
                        assert(checkers@.remove(c1).len() >= 1);
                        assert(exists|c2: int| checkers@.remove(c1).contains(c2)) by {
                            if forall|c2: int| !checkers@.remove(c1).contains(c2) {
                                assert(checkers@.remove(c1) =~= Set::<int>::empty());
                            }
                        }
                        let c2 = choose|c2: int| checkers@.remove(c1).contains(c2);
                        assert(c1 != c2 && checkers_spec(s, k).contains(c1) && checkers_spec(s, k).contains(c2));
                    }
                    lemma_complete(
                        s, moves@, l0, l0, l0, l0, l0, moves@, l0, l0, all@, all@, pin_rays@, king, danger@,
                        captures_only, true,
                    );
                }
            } else if !checkers.is_empty() {
                let king_sq = match king {
                    Some(k) => k,
                    None => Square::A1,
                };
                let checking_sq = checkers.first_sq();
                // Block the check, or take the checking piece (a knight or a pawn gives no
                // line to block).
                let blocking_sqs = self.tables.ray_to(king_sq, checking_sq).add_sq(checking_sq);
                proof {
                    if sane(s) {
                        let k = king_sq.idx();
                        let c = checking_sq.idx();
                        crate::bitboard::lemma_view_finite(checkers.0);
                        lemma_single(checkers@, c);
                        assert forall|t: int| #[trigger] blocking_sqs@.contains(t) implies answers_check(s, k, t) by {
                            assert(checkers_spec(s, k) == Set::<int>::empty().insert(c) && (ray_to_spec(k, c).contains(t) || t == c));
                        }
                        assert(gen_ctx(s, blocking_sqs@, pin_rays@, king));
                    }
                }
                let ghost l0 = moves@;
                self.gen_pawn_moves(position, blocking_sqs, pin_rays, king, captures_only, &mut moves);
                let ghost lp = moves@;
                self.gen_non_pawn_moves(position, PieceKind::Knight, blocking_sqs, pin_rays, king, danger, captures_only, &mut moves);
                let ghost ln = moves@;
                self.gen_non_pawn_moves(position, PieceKind::Bishop, blocking_sqs, pin_rays, king, danger, captures_only, &mut moves);
                let ghost lb = moves@;
                self.gen_non_pawn_moves(position, PieceKind::Rook, blocking_sqs, pin_rays, king, danger, captures_only, &mut moves);
                let ghost lr = moves@;
                self.gen_non_pawn_moves(position, PieceKind::Queen, blocking_sqs, pin_rays, king, danger, captures_only, &mut moves);
                let ghost lq = moves@;
                self.gen_non_pawn_moves(position, PieceKind::King, all, pin_rays, king, danger, captures_only, &mut moves);
                proof {
                    if sane(s) {
                        let k = king_sq.idx();
                        let c = checking_sq.idx();
                        assert(checkers_spec(s, k) == Set::<int>::empty().insert(c));
                        assert forall|t: int| (#[trigger] ray_to_spec(k, c).contains(t) || t == c) implies blocking_sqs@.contains(t) by {}
                    }
                    lemma_complete(
                        s, moves@, lp, ln, lb, lr, lq, moves@, l0, l0, blocking_sqs@, all@, pin_rays@, king, danger@,
                        captures_only, false,
                    );
                }
            } else {
                proof {
                    if sane(s) {
                        lemma_check_has_checker(s, king->0.idx());
                    }
                }
                unrestricted = true;
            }
        }
        if unrestricted {
            proof {
                if sane(s) {
                    assert(!in_check(s));
                    assert(gen_ctx(s, all@, pin_rays@, king));
                }
            }
            self.gen_pawn_moves(position, all, pin_rays, king, captures_only, &mut moves);
            let ghost lp = moves@;
            self.gen_non_pawn_moves(position, PieceKind::Knight, all, pin_rays, king, danger, captures_only, &mut moves);
            let ghost ln = moves@;
            self.gen_non_pawn_moves(position, PieceKind::Bishop, all, pin_rays, king, danger, captures_only, &mut moves);
            let ghost lb = moves@;
            self.gen_non_pawn_moves(position, PieceKind::Rook, all, pin_rays, king, danger, captures_only, &mut moves);
            let ghost lr = moves@;
            self.gen_non_pawn_moves(position, PieceKind::Queen, all, pin_rays, king, danger, captures_only, &mut moves);
            let ghost lq = moves@;
            self.gen_non_pawn_moves(position, PieceKind::King, all, pin_rays, king, danger, captures_only, &mut moves);
            let ghost lk = moves@;
            if !captures_only {
                self.gen_castling_move(position, Side::KingSide, danger, &mut moves);
            }
            let ghost lck = moves@;
            if !captures_only {
                self.gen_castling_move(position, Side::QueenSide, danger, &mut moves);
            }
            proof {
                lemma_complete(
                    s, moves@, lp, ln, lb, lr, lq, lk, lck, moves@, all@, all@, pin_rays@, king, danger@,
                    captures_only, false,
                );
            }
        }
        (moves, check)
    }

    /// The moves of the player to move, each listed once. Each can be made and moves its
    /// piece as the rules say (see `legal_shape`). In a position that play reaches (see
    /// `sane`) they are exactly the legal moves: each leaves the king of the player to move
    /// unattacked, and every such move is among them unless the list is full (256 moves).
    pub fn gen_all_moves(&self, position: &Position) -> (r: MoveList)
        requires
            self.wf(),
            position.wf(),
        ensures
            list_ok(r@, position@, false),
            sane(position@) ==> forall|i: int| 0 <= i < r@.len() ==> legal_move(position@, #[trigger] r@[i]),
            sane(position@) && r@.len() < 256 ==> forall|m: Move| #[trigger] legal_move(position@, m) ==> r@.contains(m),
            no_dup(r@),
    {
        self.gen_moves(position, false).0
    }

    /// The moves of the player to move (as `gen_all_moves`), and whether its king is in check.
    pub fn gen_all_moves_and_check(&self, position: &Position) -> (r: (MoveList, bool))
        requires
            self.wf(),
            position.wf(),
        ensures
            list_ok(r.0@, position@, false),
            sane(position@) ==> forall|i: int| 0 <= i < r.0@.len() ==> legal_move(position@, #[trigger] r.0@[i]),
            sane(position@) && r.0@.len() < 256 ==> forall|m: Move| #[trigger] legal_move(position@, m) ==> r.0@.contains(m),
            no_dup(r.0@),
            r.1 == in_check(position@),
    {
        self.gen_moves(position, false)
    }

    /// The moves of the player to move that take a piece: in a position that play reaches,
    /// exactly the legal captures (as `gen_all_moves` says of the legal moves).
    pub fn gen_captures(&self, position: &Position) -> (r: MoveList)
        requires
            self.wf(),
            position.wf(),
        ensures
            list_ok(r@, position@, true),
            sane(position@) ==> forall|i: int| 0 <= i < r@.len() ==> legal_move(position@, #[trigger] r@[i]),
            sane(position@) && r@.len() < 256 ==> forall|m: Move|
                #[trigger] legal_move(position@, m) && is_capture(position@, m) ==> r@.contains(m),
            no_dup(r@),
    {
        self.gen_moves(position, true).0
    }
}

} // verus!
