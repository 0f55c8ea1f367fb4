use vstd::prelude::*;

use crate::moves::Move;
use crate::move_gen::{
    attacked_by, attacks_from_set, checkers_spec, danger_spec, enemy_on, has_king, in_check,
    is_first_king, king_square, legal_shape, lemma_first_king_unique, not_own, occupied, pawn_capture, pawn_double_push,
    pawn_push, pawn_vecs, piece_attacks, pin_rays_spec, pinners_spec, pins_one, rays_of,
};
use crate::piece_map::{squares_of_color, squares_with};
use crate::piece::{Color, Piece, PieceKind};
use crate::position::{applicable, ep_capture_sq, made_pieces, make_spec, side_of, up_dir, PositionState};
use crate::castling::{castling_rook_sq_spec, castling_sq_spec, king_sq_spec, rook_sq_spec};
use crate::move_gen::{castling_king_path, lemma_bishop_sym, lemma_rook_sym};
use crate::square::{file_of, on_board, rank_of};
use crate::bitboard::{anti_diag_set, diag_set, file_set, rank_set};
use crate::tables::{
    aligned, bishop_attacks, black_pawn_vecs, king_vecs, knight_vecs, line_through_spec, ray_clear, ray_to_spec, sign, ray_on, ray_reaches, ray_set, ray_sq,
    rook_attacks, step_ok, step_set, step_target, times, unit_dir, white_pawn_vecs,
};

verus! {

/// Square `x` lies `t` steps (backwards if `t` is negative) from square `k` in direction
/// (`dr`, `df`).
pub open spec fn at_step(k: int, dr: int, df: int, t: int, x: int) -> bool {
    &&& 0 <= x < 64
    &&& rank_of(x) == rank_of(k) + times(dr, t)
    &&& file_of(x) == file_of(k) + times(df, t)
}

/// The square of a ray lies on it, at its distance.
proof fn lemma_ray_at_step(sq: int, dr: int, df: int, d: int)
    requires
        0 <= sq < 64,
        ray_on(sq, dr, df, d),
    ensures
        at_step(sq, dr, df, d, ray_sq(sq, dr, df, d)),
{
}

/// A square on the line through `k` is at a single distance from `k`.
proof fn lemma_step_unique(k: int, dr: int, df: int, t1: int, t2: int, x: int)
    requires
        unit_dir(dr, df),
        at_step(k, dr, df, t1, x),
        at_step(k, dr, df, t2, x),
    ensures
        t1 == t2,
{
}

/// The square `t` steps from `k` is the square of the ray from `k` at distance `t`.
proof fn lemma_at_step_ray_sq(k: int, dr: int, df: int, t: int, x: int)
    requires
        0 <= k < 64,
        at_step(k, dr, df, t, x),
    ensures
        x == ray_sq(k, dr, df, t),
        ray_on(k, dr, df, t),
{
}



/// When two squares on the line through `k` in direction `u` are joined by `m` steps in
/// direction `v`, then `v` is `u` or its opposite and `m` the distance between them.
proof fn lemma_collinear(k: int, ur: int, uf: int, a: int, x: int, j: int, y: int, vr: int, vf: int, m: int)
    requires
        unit_dir(ur, uf),
        unit_dir(vr, vf),
        m >= 1,
        at_step(k, ur, uf, a, x),
        at_step(k, ur, uf, j, y),
        at_step(x, vr, vf, m, y),
    ensures
        (j > a && m == j - a && vr == ur && vf == uf) || (j < a && m == a - j && vr == -ur && vf == -uf),
{
    assert(rank_of(y) - rank_of(x) == times(ur, j) - times(ur, a));
    assert(file_of(y) - file_of(x) == times(uf, j) - times(uf, a));
}

/// No square strictly between distances `a` and `j` on the line through `k` in direction
/// (`ur`, `uf`) is occupied.
pub open spec fn line_clear(k: int, ur: int, uf: int, a: int, j: int, occ: Set<int>) -> bool {
    forall|i: int| (a < i < j || j < i < a) ==> !occ.contains(#[trigger] ray_sq(k, ur, uf, i))
}

/// A slider's path from `x` to `y` along the line through `k` holds no piece.
proof fn lemma_slide_clear(
    k: int,
    ur: int,
    uf: int,
    a: int,
    x: int,
    j: int,
    y: int,
    vr: int,
    vf: int,
    m: int,
    occ: Set<int>,
)
    requires
        0 <= k < 64,
        0 <= x < 64,
        unit_dir(ur, uf),
        unit_dir(vr, vf),
        at_step(k, ur, uf, a, x),
        at_step(k, ur, uf, j, y),
        ray_reaches(x, vr, vf, occ, m),
        y == ray_sq(x, vr, vf, m),
    ensures
        line_clear(k, ur, uf, a, j, occ),
        a != j,
{
    lemma_ray_at_step(x, vr, vf, m);
    lemma_collinear(k, ur, uf, a, x, j, y, vr, vf, m);
    assert forall|i: int| (a < i < j || j < i < a) implies !occ.contains(#[trigger] ray_sq(k, ur, uf, i)) by {
        if a < i < j {
            let q = ray_sq(x, vr, vf, i - a);
            crate::tables::lemma_ray_on_between(x, vr, vf, i - a, m);
            lemma_ray_at_step(x, vr, vf, i - a);
            assert(at_step(k, ur, uf, i, q));
            lemma_at_step_ray_sq(k, ur, uf, i, q);
        } else {
            let q = ray_sq(x, vr, vf, a - i);
            crate::tables::lemma_ray_on_between(x, vr, vf, a - i, m);
            lemma_ray_at_step(x, vr, vf, a - i);
            assert(at_step(k, ur, uf, i, q));
            lemma_at_step_ray_sq(k, ur, uf, i, q);
        }
    }
}

/// A single step from `x` to a square `y` on the line through `k` leaves nothing between.
proof fn lemma_step_clear(k: int, ur: int, uf: int, a: int, x: int, j: int, y: int, vr: int, vf: int, occ: Set<int>)
    requires
        unit_dir(ur, uf),
        unit_dir(vr, vf),
        at_step(k, ur, uf, a, x),
        at_step(k, ur, uf, j, y),
        at_step(x, vr, vf, 1, y),
    ensures
        line_clear(k, ur, uf, a, j, occ),
        a != j,
{
    lemma_collinear(k, ur, uf, a, x, j, y, vr, vf, 1);
}

/// A slider on `x` attacking `y` along one of its rays, with `y` on the line through `k`,
/// passes over no piece on that line.
proof fn lemma_ray_set_clear(
    k: int,
    ur: int,
    uf: int,
    a: int,
    x: int,
    j: int,
    y: int,
    vr: int,
    vf: int,
    occ: Set<int>,
)
    requires
        0 <= k < 64,
        0 <= x < 64,
        unit_dir(ur, uf),
        unit_dir(vr, vf),
        at_step(k, ur, uf, a, x),
        at_step(k, ur, uf, j, y),
        ray_set(x, vr, vf, occ).contains(y),
    ensures
        line_clear(k, ur, uf, a, j, occ),
        a != j,
{
    let m = choose|m: int| ray_reaches(x, vr, vf, occ, m) && y == #[trigger] ray_sq(x, vr, vf, m);
    lemma_slide_clear(k, ur, uf, a, x, j, y, vr, vf, m, occ);
}

/// A bishop, rook or queen on `x` attacking `y` on the line through `k` passes over no
/// piece on that line.
proof fn lemma_slider_clear(k: int, ur: int, uf: int, a: int, x: int, j: int, y: int, occ: Set<int>, rook: bool, bishop: bool)
    requires
        0 <= k < 64,
        0 <= x < 64,
        unit_dir(ur, uf),
        at_step(k, ur, uf, a, x),
        at_step(k, ur, uf, j, y),
        (bishop && bishop_attacks(x, occ).contains(y)) || (rook && rook_attacks(x, occ).contains(y)),
    ensures
        line_clear(k, ur, uf, a, j, occ),
        a != j,
{
    if bishop && bishop_attacks(x, occ).contains(y) {
        if ray_set(x, 1, 1, occ).contains(y) {
            lemma_ray_set_clear(k, ur, uf, a, x, j, y, 1, 1, occ);
        } else if ray_set(x, -1, 1, occ).contains(y) {
            lemma_ray_set_clear(k, ur, uf, a, x, j, y, -1, 1, occ);
        } else if ray_set(x, -1, -1, occ).contains(y) {
            lemma_ray_set_clear(k, ur, uf, a, x, j, y, -1, -1, occ);
        } else {
            lemma_ray_set_clear(k, ur, uf, a, x, j, y, 1, -1, occ);
        }
    } else {
        if ray_set(x, 1, 0, occ).contains(y) {
            lemma_ray_set_clear(k, ur, uf, a, x, j, y, 1, 0, occ);
        } else if ray_set(x, 0, 1, occ).contains(y) {
            lemma_ray_set_clear(k, ur, uf, a, x, j, y, 0, 1, occ);
        } else if ray_set(x, -1, 0, occ).contains(y) {
            lemma_ray_set_clear(k, ur, uf, a, x, j, y, -1, 0, occ);
        } else {
            lemma_ray_set_clear(k, ur, uf, a, x, j, y, 0, -1, occ);
        }
    }
}

/// A one-step pawn capture from `x` to `y`, on the line through `k`, passes over nothing.
proof fn lemma_pawn_capture_clear(k: int, ur: int, uf: int, a: int, x: int, j: int, y: int, c: Color, occ: Set<int>)
    requires
        0 <= k < 64,
        0 <= x < 64,
        unit_dir(ur, uf),
        at_step(k, ur, uf, a, x),
        at_step(k, ur, uf, j, y),
        step_set(x, pawn_vecs(c)).contains(y),
    ensures
        line_clear(k, ur, uf, a, j, occ),
        a != j,
{
    let v = pawn_vecs(c);
    let i = choose|i: int| 0 <= i < v.len() && step_ok(x, v[i]) && y == step_target(x, #[trigger] v[i]);
    let vr = v[i].0 as int;
    let vf = v[i].1 as int;
    assert(at_step(x, vr, vf, 1, y));
    lemma_step_clear(k, ur, uf, a, x, j, y, vr, vf, occ);
}

/// A pawn push from `x` to `y`, one or two steps up for `c` over an empty square, on the
/// line through `k`, passes over nothing.
proof fn lemma_pawn_push_clear(k: int, ur: int, uf: int, a: int, x: int, j: int, y: int, c: Color, n: int, occ: Set<int>)
    requires
        0 <= k < 64,
        0 <= x < 64,
        unit_dir(ur, uf),
        at_step(k, ur, uf, a, x),
        at_step(k, ur, uf, j, y),
        n == 1 || n == 2,
        y == x + n * up_dir(c).spec_offset(),
        n == 2 ==> !occ.contains(x + up_dir(c).spec_offset()),
    ensures
        line_clear(k, ur, uf, a, j, occ),
        a != j,
{
    let vr = up_dir(c).spec_dr();
    assert(at_step(x, vr, 0, n, y));
    assert(ray_on(x, vr, 0, n));
    if n == 2 {
        assert(ray_sq(x, vr, 0, 1) == x + up_dir(c).spec_offset());
    }
    assert(ray_reaches(x, vr, 0, occ, n));
    lemma_slide_clear(k, ur, uf, a, x, j, y, vr, 0, n, occ);
}

/// A knight never moves along a line.
proof fn lemma_knight_off_line(k: int, ur: int, uf: int, a: int, x: int, j: int, y: int)
    requires
        0 <= x < 64,
        unit_dir(ur, uf),
        at_step(k, ur, uf, a, x),
        at_step(k, ur, uf, j, y),
    ensures
        !step_set(x, knight_vecs()).contains(y),
{
    if step_set(x, knight_vecs()).contains(y) {
        let v = knight_vecs();
        let i = choose|i: int| 0 <= i < v.len() && step_ok(x, v[i]) && y == step_target(x, #[trigger] v[i]);
        assert(rank_of(y) - rank_of(x) == v[i].0);
        assert(file_of(y) - file_of(x) == v[i].1);
    }
}

/// A move of a piece other than the king, from distance `a` to distance `j` on the line
/// through `k`, is no knight's and passes over no piece.
pub proof fn lemma_move_path(s: PositionState, m: Move, k: int, ur: int, uf: int, a: int, j: int)
    requires
        legal_shape(s, m),
        m is Regular || m is Promotion,
        s.pieces[m.spec_from().idx()].unwrap().0 != PieceKind::King,
        0 <= k < 64,
        unit_dir(ur, uf),
        at_step(k, ur, uf, a, m.spec_from().idx()),
        at_step(k, ur, uf, j, m.spec_to().idx()),
    ensures
        a != j,
        line_clear(k, ur, uf, a, j, occupied(s)),
{
    let x = m.spec_from().idx();
    let y = m.spec_to().idx();
    let occ = occupied(s);
    let us = s.to_move;
    let p = s.pieces[x].unwrap();
    m.spec_from().lemma_idx_bound();
    if p.0 == PieceKind::Pawn || m is Promotion {
        if pawn_push(s, x, y) {
            lemma_pawn_push_clear(k, ur, uf, a, x, j, y, us, 1, occ);
        } else if pawn_double_push(s, x, y) && m is Regular {
            lemma_pawn_push_clear(k, ur, uf, a, x, j, y, us, 2, occ);
        } else {
            lemma_pawn_capture_clear(k, ur, uf, a, x, j, y, us, occ);
        }
    } else if p.0 == PieceKind::Knight {
        lemma_knight_off_line(k, ur, uf, a, x, j, y);
    } else {
        lemma_slider_clear(
            k,
            ur,
            uf,
            a,
            x,
            j,
            y,
            occ,
            p.0 == PieceKind::Rook || p.0 == PieceKind::Queen,
            p.0 == PieceKind::Bishop || p.0 == PieceKind::Queen,
        );
    }
}

/// The directions in which a bishop (`rook` false) or a rook (`rook` true) moves.
pub open spec fn slider_dir(rook: bool, vr: int, vf: int) -> bool {
    &&& unit_dir(vr, vf)
    &&& if rook {
        vr == 0 || vf == 0
    } else {
        vr != 0 && vf != 0
    }
}

/// Whether a slider on `e` attacks `x` along one of its rays decides only on the squares
/// other than `x`.
proof fn lemma_ray_target(e: int, vr: int, vf: int, occ1: Set<int>, occ2: Set<int>, x: int)
    requires
        0 <= e < 64,
        unit_dir(vr, vf),
        forall|y: int| y != x ==> (occ1.contains(y) <==> occ2.contains(y)),
        ray_set(e, vr, vf, occ1).contains(x),
    ensures
        ray_set(e, vr, vf, occ2).contains(x),
{
    let d = choose|d: int| ray_reaches(e, vr, vf, occ1, d) && x == #[trigger] ray_sq(e, vr, vf, d);
    assert forall|j: int| 1 <= j < d implies !occ2.contains(#[trigger] ray_sq(e, vr, vf, j)) by {
        crate::tables::lemma_ray_on_between(e, vr, vf, j, d);
        lemma_ray_at_step(e, vr, vf, j);
        lemma_ray_at_step(e, vr, vf, d);
        if ray_sq(e, vr, vf, j) == x {
            lemma_step_unique(e, vr, vf, j, d, x);
        }
    }
    assert(ray_reaches(e, vr, vf, occ2, d));
}

/// The bishop and rook attacks of `e` on `x` decide only on the squares other than `x`.
proof fn lemma_slider_target(e: int, occ1: Set<int>, occ2: Set<int>, x: int)
    requires
        0 <= e < 64,
        forall|y: int| y != x ==> (occ1.contains(y) <==> occ2.contains(y)),
    ensures
        bishop_attacks(e, occ1).contains(x) <==> bishop_attacks(e, occ2).contains(x),
        rook_attacks(e, occ1).contains(x) <==> rook_attacks(e, occ2).contains(x),
{
    assert forall|vr: int, vf: int| unit_dir(vr, vf) implies (ray_set(e, vr, vf, occ1).contains(x)
        <==> ray_set(e, vr, vf, occ2).contains(x)) by {
        if ray_set(e, vr, vf, occ1).contains(x) {
            lemma_ray_target(e, vr, vf, occ1, occ2, x);
        }
        if ray_set(e, vr, vf, occ2).contains(x) {
            lemma_ray_target(e, vr, vf, occ2, occ1, x);
        }
    }
    assert(unit_dir(1, 1) && unit_dir(-1, 1) && unit_dir(-1, -1) && unit_dir(1, -1));
    assert(unit_dir(1, 0) && unit_dir(0, 1) && unit_dir(-1, 0) && unit_dir(0, -1));
}

/// Whether a piece on `e` attacks `x` decides only on the squares other than `x`.
pub proof fn lemma_attacks_target(p: Piece, e: int, occ1: Set<int>, occ2: Set<int>, x: int)
    requires
        0 <= e < 64,
        forall|y: int| y != x ==> (occ1.contains(y) <==> occ2.contains(y)),
    ensures
        piece_attacks(p, e, occ1).contains(x) <==> piece_attacks(p, e, occ2).contains(x),
{
    lemma_slider_target(e, occ1, occ2, x);
}

/// A slider on `e` that attacks `x` with the squares of `occ_new` occupied but not with
/// those of `occ_old` does so along a ray that crosses a square of `occ_old`: the result
/// is the direction, the distance of `x` and the distance of that square.
proof fn lemma_ray_vacated(e: int, vr: int, vf: int, occ_old: Set<int>, occ_new: Set<int>, x: int) -> (r: (int, int))
    requires
        0 <= e < 64,
        unit_dir(vr, vf),
        ray_set(e, vr, vf, occ_new).contains(x),
        !ray_set(e, vr, vf, occ_old).contains(x),
    ensures
        ray_reaches(e, vr, vf, occ_new, r.0),
        x == ray_sq(e, vr, vf, r.0),
        1 <= r.1 < r.0,
        occ_old.contains(ray_sq(e, vr, vf, r.1)),
{
    let d = choose|d: int| ray_reaches(e, vr, vf, occ_new, d) && x == #[trigger] ray_sq(e, vr, vf, d);
    assert(!ray_reaches(e, vr, vf, occ_old, d));
    let i = choose|i: int| 1 <= i < d && occ_old.contains(#[trigger] ray_sq(e, vr, vf, i));
    (d, i)
}

/// A bishop, rook or queen on `e` attacking `x` does so along a ray in one of its
/// directions: the result is that direction.
proof fn lemma_slider_ray(p: Piece, e: int, occ: Set<int>, x: int) -> (r: (int, int))
    requires
        p.0 == PieceKind::Bishop || p.0 == PieceKind::Rook || p.0 == PieceKind::Queen,
        piece_attacks(p, e, occ).contains(x),
    ensures
        ray_set(e, r.0, r.1, occ).contains(x),
        slider_dir(r.0 == 0 || r.1 == 0, r.0, r.1),
        p.0 == PieceKind::Bishop ==> slider_dir(false, r.0, r.1),
        p.0 == PieceKind::Rook ==> slider_dir(true, r.0, r.1),
{
    if (p.0 == PieceKind::Bishop || p.0 == PieceKind::Queen) && bishop_attacks(e, occ).contains(x) {
        if ray_set(e, 1, 1, occ).contains(x) {
            (1, 1)
        } else if ray_set(e, -1, 1, occ).contains(x) {
            (-1, 1)
        } else if ray_set(e, -1, -1, occ).contains(x) {
            (-1, -1)
        } else {
            (1, -1)
        }
    } else {
        if ray_set(e, 1, 0, occ).contains(x) {
            (1, 0)
        } else if ray_set(e, 0, 1, occ).contains(x) {
            (0, 1)
        } else if ray_set(e, -1, 0, occ).contains(x) {
            (-1, 0)
        } else {
            (0, -1)
        }
    }
}

/// A ray in a bishop's (rook's) direction is part of the bishop's (rook's) attacks.
proof fn lemma_ray_in_slider(e: int, vr: int, vf: int, occ: Set<int>, x: int)
    requires
        unit_dir(vr, vf),
        ray_set(e, vr, vf, occ).contains(x),
    ensures
        vr != 0 && vf != 0 ==> bishop_attacks(e, occ).contains(x),
        (vr == 0 || vf == 0) ==> rook_attacks(e, occ).contains(x),
{
}

/// When `e` is `n` steps from `k` in direction `u`, the squares from `k` towards `e` are
/// those at distances 1 to `n`.
pub proof fn lemma_ray_to_steps(k: int, ur: int, uf: int, n: int, e: int)
    requires
        0 <= k < 64,
        unit_dir(ur, uf),
        n >= 1,
        at_step(k, ur, uf, n, e),
    ensures
        forall|t: int| ray_to_spec(k, e).contains(t) <==> exists|i: int| 1 <= i <= n && t == #[trigger] ray_sq(k, ur, uf, i),
{
    assert(k != e);
    assert(aligned(k, e));
    assert(sign(rank_of(e) - rank_of(k)) == ur);
    assert(sign(file_of(e) - file_of(k)) == uf);
    lemma_at_step_ray_sq(k, ur, uf, n, e);
    let one = Set::empty().insert(e);
    assert forall|t: int| ray_to_spec(k, e).contains(t) implies exists|i: int| 1 <= i <= n && t == #[trigger] ray_sq(k, ur, uf, i) by {
        let d = choose|d: int| ray_reaches(k, ur, uf, one, d) && t == #[trigger] ray_sq(k, ur, uf, d);
        if d > n {
            assert(one.contains(ray_sq(k, ur, uf, n)));
        }
        assert(1 <= d <= n && t == ray_sq(k, ur, uf, d));
    }
    assert forall|t: int| (exists|i: int| 1 <= i <= n && t == #[trigger] ray_sq(k, ur, uf, i)) implies ray_to_spec(k, e).contains(t) by {
        let i = choose|i: int| 1 <= i <= n && t == #[trigger] ray_sq(k, ur, uf, i);
        crate::tables::lemma_ray_on_between(k, ur, uf, i, n);
        assert forall|j: int| 1 <= j < i implies !one.contains(#[trigger] ray_sq(k, ur, uf, j)) by {
            crate::tables::lemma_ray_on_between(k, ur, uf, j, n);
            lemma_ray_at_step(k, ur, uf, j);
            if ray_sq(k, ur, uf, j) == e {
                lemma_step_unique(k, ur, uf, j, n, e);
            }
        }
        assert(ray_reaches(k, ur, uf, one, i));
    }
}

/// A square on the line through `x` and `k`, where `x` is `a` steps from `k` in
/// direction `u`, is some number of steps from `k` in that direction.
pub proof fn lemma_line_through_step(k: int, ur: int, uf: int, a: int, x: int, y: int) -> (j: int)
    requires
        0 <= k < 64,
        unit_dir(ur, uf),
        a != 0,
        at_step(k, ur, uf, a, x),
        line_through_spec(x, k).contains(y),
    ensures
        at_step(k, ur, uf, j, y),
{
    let dy = rank_of(y) - rank_of(k);
    let dx = file_of(y) - file_of(k);
    assert(0 <= y < 64);
    if ur == 1 {
        dy
    } else if ur == -1 {
        -dy
    } else if uf == 1 {
        dx
    } else {
        -dx
    }
}

/// The king of `c` stands on no square that the pieces of the other side attack.
pub open spec fn king_safe(s: PositionState, c: Color) -> bool {
    forall|k: int|
        #[trigger] squares_with(s.pieces, Piece(PieceKind::King, c)).contains(k) ==> !attacked_by(
            s,
            c.spec_opp(),
            occupied(s),
        ).contains(k)
}

/// Move `m` is legal in `s`: it follows the way its piece moves (see `legal_shape`) and
/// leaves the king of the player who makes it unattacked.
pub open spec fn legal_move(s: PositionState, m: Move) -> bool {
    legal_shape(s, m) && king_safe(make_spec(s, m), s.to_move)
}

/// A position of the kind that play reaches: the player to move has exactly one king, and
/// the opponent's king does not stand next to it.
pub open spec fn sane(s: PositionState) -> bool {
    let us = s.to_move;
    let kings = squares_with(s.pieces, Piece(PieceKind::King, us));
    &&& s.pieces.len() == 64
    &&& has_king(s, us)
    &&& forall|a: int, b: int| #[trigger] kings.contains(a) && #[trigger] kings.contains(b) ==> a == b
    &&& forall|q: int|
        #[trigger] squares_with(s.pieces, Piece(PieceKind::King, us.spec_opp())).contains(q) ==> !step_set(
            q,
            king_vecs(),
        ).contains(king_square(s, us))
}

/// A square attacked by the pieces of `c` of kind `kind` is attacked by one of them: the
/// result is its square.
proof fn lemma_attacker_kind(s: PositionState, c: Color, kind: PieceKind, occ: Set<int>, x: int) -> (e: int)
    requires
        attacks_from_set(Piece(kind, c), squares_with(s.pieces, Piece(kind, c)), occ).contains(x),
    ensures
        0 <= e < 64,
        s.pieces[e] == Some(Piece(kind, c)),
        piece_attacks(Piece(kind, c), e, occ).contains(x),
{
    choose|f: int| squares_with(s.pieces, Piece(kind, c)).contains(f) && #[trigger] piece_attacks(Piece(kind, c), f, occ).contains(x)
}

/// A square attacked by the pieces of `c` is attacked by one of them: the result is its
/// square.
pub proof fn lemma_attacker(s: PositionState, c: Color, occ: Set<int>, x: int) -> (e: int)
    requires
        attacked_by(s, c, occ).contains(x),
    ensures
        0 <= e < 64,
        s.pieces[e] is Some,
        s.pieces[e].unwrap().1 == c,
        piece_attacks(s.pieces[e].unwrap(), e, occ).contains(x),
{
    let a = |kind: PieceKind| attacks_from_set(Piece(kind, c), squares_with(s.pieces, Piece(kind, c)), occ);
    if a(PieceKind::Pawn).contains(x) {
        lemma_attacker_kind(s, c, PieceKind::Pawn, occ, x)
    } else if a(PieceKind::Knight).contains(x) {
        lemma_attacker_kind(s, c, PieceKind::Knight, occ, x)
    } else if a(PieceKind::Bishop).contains(x) {
        lemma_attacker_kind(s, c, PieceKind::Bishop, occ, x)
    } else if a(PieceKind::Rook).contains(x) {
        lemma_attacker_kind(s, c, PieceKind::Rook, occ, x)
    } else if a(PieceKind::Queen).contains(x) {
        lemma_attacker_kind(s, c, PieceKind::Queen, occ, x)
    } else {
        lemma_attacker_kind(s, c, PieceKind::King, occ, x)
    }
}

/// A square that a piece of `c` attacks is attacked by the pieces of `c`.
pub proof fn lemma_attacker_in(s: PositionState, c: Color, occ: Set<int>, e: int, x: int)
    requires
        0 <= e < 64,
        s.pieces[e] is Some,
        s.pieces[e].unwrap().1 == c,
        piece_attacks(s.pieces[e].unwrap(), e, occ).contains(x),
    ensures
        attacked_by(s, c, occ).contains(x),
{
    let p = s.pieces[e].unwrap();
    assert(squares_with(s.pieces, p).contains(e));
    assert(attacks_from_set(p, squares_with(s.pieces, p), occ).contains(x));
}

/// Counting from the far end of a ray: the square `t` steps back from `k`, where `k` is
/// `n` steps from `e`, is `n - t` steps from `e`.
proof fn lemma_ray_flip(e: int, vr: int, vf: int, n: int, k: int, t: int)
    requires
        unit_dir(vr, vf),
        at_step(e, vr, vf, n, k),
    ensures
        ray_sq(k, -vr, -vf, t) == ray_sq(e, vr, vf, n - t),
{
}

/// Square `t` answers a check of the king on `k`: when the king is in check, its one
/// checking piece stands on `t`, or `t` lies between that piece and the king.
pub open spec fn answers_check(s: PositionState, k: int, t: int) -> bool {
    in_check(s) ==> exists|c: int|
        checkers_spec(s, k) == Set::<int>::empty().insert(c) && (#[trigger] ray_to_spec(k, c).contains(t) || t == c)
}

/// What the generator checks before it adds move `m` of a piece other than the king, with
/// the king of the player to move on `k` and the pin rays `pin`: the pin rays allow the
/// move, and in check it lands on the checking piece or between it and the king.
pub open spec fn guarded(s: PositionState, m: Move, k: int, pin: Set<int>) -> bool {
    let from = m.spec_from().idx();
    let to = m.spec_to().idx();
    &&& is_first_king(s, s.to_move, k)
    &&& pin == pin_rays_spec(s, k)
    &&& !(pin.contains(from) && !pin.intersect(line_through_spec(from, k)).contains(to))
    &&& answers_check(s, k, to)
}

/// After a move of one piece (not castling, not en passant), the board is the same but on
/// its start and end squares.
proof fn lemma_after_simple_move(s: PositionState, m: Move)
    requires
        applicable(s, m),
        m is Regular || m is Promotion,
    ensures
        ({
            let r = make_spec(s, m);
            let from = m.spec_from().idx();
            let to = m.spec_to().idx();
            &&& r.pieces.len() == 64
            &&& r.to_move == s.to_move.spec_opp()
            &&& r.pieces[from] is None
            &&& r.pieces[to] is Some
            &&& r.pieces[to].unwrap().1 == s.to_move
            &&& (m is Regular ==> r.pieces[to] == s.pieces[from])
            &&& (m matches Move::Promotion(_, _, kind) ==> r.pieces[to] == Some(Piece(kind, s.to_move)))
            &&& forall|y: int| 0 <= y < 64 && y != from && y != to ==> r.pieces[y] == s.pieces[y]
            &&& forall|y: int|
                #[trigger] occupied(r).contains(y) <==> (0 <= y < 64 && (y == to || (y != from && occupied(
                    s,
                ).contains(y))))
        }),
{
    reveal(make_spec);
    m.spec_from().lemma_idx_bound();
    m.spec_to().lemma_idx_bound();
    crate::square::Square::lemma_idx_injective(m.spec_from(), m.spec_to());
}

/// The pinners are pieces of the opponent.
proof fn lemma_pinner_enemy(s: PositionState, k: int, p: int)
    requires
        pinners_spec(s, k).contains(p),
    ensures
        0 <= p < 64,
        enemy_on(s, p),
{
}

/// In a sane position, a piece of the opponent on `e` that attacks the king on `k` is
/// one of its checkers.
pub proof fn lemma_attacker_checks(s: PositionState, k: int, e: int)
    requires
        sane(s),
        is_first_king(s, s.to_move, k),
        0 <= e < 64,
        enemy_on(s, e),
        piece_attacks(s.pieces[e].unwrap(), e, occupied(s)).contains(k),
    ensures
        in_check(s),
        checkers_spec(s, k).contains(e),
{
    let us = s.to_move;
    let them = us.spec_opp();
    let p = s.pieces[e].unwrap();
    let occ = occupied(s);
    let kings = squares_with(s.pieces, Piece(PieceKind::King, us));
    lemma_first_king_unique(s, us, k);
    assert(kings.contains(k));
    if p.0 == PieceKind::King {
        assert(squares_with(s.pieces, Piece(PieceKind::King, them)).contains(e));
    }
    let occ2 = occ.difference(kings);
    assert forall|y: int| y != k implies (occ.contains(y) <==> occ2.contains(y)) by {
        if kings.contains(y) {
            assert(kings.contains(y) && kings.contains(k));
        }
    }
    lemma_attacks_target(p, e, occ, occ2, k);
    lemma_attacker_in(s, them, occ2, e, k);
}

/// Taking or blocking the only checker on `e` leaves it no attack on the king on `k`.
proof fn lemma_checker_answered(s: PositionState, m: Move, k: int, pin: Set<int>, e: int)
    requires
        sane(s),
        legal_shape(s, m),
        m is Regular || m is Promotion,
        guarded(s, m, k, pin),
        0 <= e < 64,
        e != m.spec_from().idx(),
        e != m.spec_to().idx(),
        enemy_on(s, e),
        piece_attacks(s.pieces[e].unwrap(), e, occupied(s)).contains(k),
    ensures
        !piece_attacks(s.pieces[e].unwrap(), e, occupied(make_spec(s, m))).contains(k),
{
    let us = s.to_move;
    let them = us.spec_opp();
    let p = s.pieces[e].unwrap();
    let to = m.spec_to().idx();
    let occ2 = occupied(make_spec(s, m));
    lemma_after_simple_move(s, m);
    lemma_attacker_checks(s, k, e);
    let c = choose|c: int|
        checkers_spec(s, k) == Set::<int>::empty().insert(c) && (#[trigger] ray_to_spec(k, c).contains(to) || to == c);
    assert(checkers_spec(s, k).contains(e));
    assert(c == e);
    assert(ray_to_spec(k, e).contains(to));
    if piece_attacks(p, e, occ2).contains(k) {
        if p.0 == PieceKind::Pawn {
            lemma_pawn_ray_to(k, e, them, to);
        } else if p.0 == PieceKind::Knight {
            lemma_knight_ray_to(k, e, to);
        } else {
            lemma_slider_ray_to(k, e, p, occ2, to);
        }
    }
}

/// Only the pawn itself lies on the way from the square it attacks to the pawn.
proof fn lemma_pawn_ray_to(k: int, e: int, c: Color, t: int)
    requires
        0 <= k < 64,
        0 <= e < 64,
        step_set(e, pawn_vecs(c)).contains(k),
        ray_to_spec(k, e).contains(t),
    ensures
        t == e,
{
    let v = pawn_vecs(c);
    let i = choose|i: int| 0 <= i < v.len() && step_ok(e, v[i]) && k == step_target(e, #[trigger] v[i]);
    let vr = v[i].0 as int;
    let vf = v[i].1 as int;
    assert(at_step(k, -vr, -vf, 1, e));
    lemma_ray_to_steps(k, -vr, -vf, 1, e);
    let j = choose|j: int| 1 <= j <= 1 && t == #[trigger] ray_sq(k, -vr, -vf, j);
    lemma_at_step_ray_sq(k, -vr, -vf, 1, e);
}

/// Nothing lies on the way from the square a knight attacks to the knight.
proof fn lemma_knight_ray_to(k: int, e: int, t: int)
    requires
        0 <= e < 64,
        step_set(e, knight_vecs()).contains(k),
    ensures
        !ray_to_spec(k, e).contains(t),
{
    let v = knight_vecs();
    let i = choose|i: int| 0 <= i < v.len() && step_ok(e, v[i]) && k == step_target(e, #[trigger] v[i]);
    assert(!aligned(k, e));
}

/// A square on the way from the square a slider attacks to the slider, other than the
/// slider's own, is empty.
proof fn lemma_slider_ray_to(k: int, e: int, p: Piece, occ: Set<int>, t: int)
    requires
        0 <= k < 64,
        0 <= e < 64,
        p.0 == PieceKind::Bishop || p.0 == PieceKind::Rook || p.0 == PieceKind::Queen,
        piece_attacks(p, e, occ).contains(k),
        ray_to_spec(k, e).contains(t),
        t != e,
    ensures
        !occ.contains(t),
{
    let (vr, vf) = lemma_slider_ray(p, e, occ, k);
    let n = choose|n: int| ray_reaches(e, vr, vf, occ, n) && k == #[trigger] ray_sq(e, vr, vf, n);
    lemma_ray_at_step(e, vr, vf, n);
    assert(at_step(k, -vr, -vf, n, e));
    lemma_ray_to_steps(k, -vr, -vf, n, e);
    let j = choose|j: int| 1 <= j <= n && t == #[trigger] ray_sq(k, -vr, -vf, j);
    lemma_at_step_ray_sq(k, -vr, -vf, n, e);
    lemma_ray_flip(e, vr, vf, n, k, j);
    assert(ray_sq(e, vr, vf, n - j) == t);
}

/// A slider that attacks the king on `k` only once `from` is vacated pins the piece on
/// `from`: that square is on the pin rays of the king.
proof fn lemma_discovered_pin(
    s: PositionState,
    k: int,
    e: int,
    vr: int,
    vf: int,
    n: int,
    a: int,
    from: int,
    occ2: Set<int>,
)
    requires
        s.pieces.len() == 64,
        0 <= k < 64,
        0 <= e < 64,
        enemy_on(s, e),
        s.pieces[e].unwrap().0 == PieceKind::Bishop ==> slider_dir(false, vr, vf),
        s.pieces[e].unwrap().0 == PieceKind::Rook ==> slider_dir(true, vr, vf),
        s.pieces[e].unwrap().0 == PieceKind::Bishop || s.pieces[e].unwrap().0 == PieceKind::Rook
            || s.pieces[e].unwrap().0 == PieceKind::Queen,
        unit_dir(vr, vf),
        ray_reaches(e, vr, vf, occ2, n),
        k == ray_sq(e, vr, vf, n),
        1 <= a < n,
        from == ray_sq(e, vr, vf, n - a),
        occupied(s).contains(from),
        !enemy_on(s, from),
        forall|y: int| #[trigger] occupied(s).contains(y) && y != from ==> occ2.contains(y),
    ensures
        pin_rays_spec(s, k).contains(from),
        at_step(k, -vr, -vf, n, e),
        at_step(k, -vr, -vf, a, from),
{
    let ur = -vr;
    let uf = -vf;
    let them = s.to_move.spec_opp();
    let occ = occupied(s);
    let opp_occ = squares_of_color(s.pieces, them);
    lemma_ray_at_step(e, vr, vf, n);
    crate::tables::lemma_ray_on_between(e, vr, vf, n - a, n);
    lemma_ray_at_step(e, vr, vf, n - a);
    assert(at_step(k, ur, uf, n, e));
    assert(at_step(k, ur, uf, a, from));
    lemma_at_step_ray_sq(k, ur, uf, n, e);
    // The pinner attacks the king through the opponent's pieces alone.
    assert forall|t: int| 1 <= t < n implies !opp_occ.contains(#[trigger] ray_sq(k, ur, uf, t)) by {
        lemma_ray_flip(e, vr, vf, n, k, t);
        let q = ray_sq(e, vr, vf, n - t);
        assert(!occ2.contains(q));
        if opp_occ.contains(q) {
            assert(occ.contains(q));
            assert(q != from);
        }
    }
    assert(ray_reaches(k, ur, uf, opp_occ, n));
    assert(ray_set(k, ur, uf, opp_occ).contains(e));
    lemma_ray_in_slider(k, ur, uf, opp_occ, e);
    let pinners = pinners_spec(s, k);
    assert(pinners.contains(e));
    // The line from the king to the pinner holds one piece that is no pinner: `from`.
    lemma_ray_to_steps(k, ur, uf, n, e);
    let x = ray_to_spec(k, e).difference(pinners).intersect(occ);
    assert forall|t: int| x.contains(t) <==> t == from by {
        if x.contains(t) {
            let j = choose|j: int| 1 <= j <= n && t == #[trigger] ray_sq(k, ur, uf, j);
            if j < n {
                lemma_ray_flip(e, vr, vf, n, k, j);
                assert(!occ2.contains(ray_sq(e, vr, vf, n - j)));
            }
        }
        if t == from {
            lemma_at_step_ray_sq(k, ur, uf, a, from);
            assert(ray_to_spec(k, e).contains(from));
            if pinners.contains(from) {
                lemma_pinner_enemy(s, k, from);
            }
        }
    }
    assert(x =~= Set::<int>::empty().insert(from));
    assert(pins_one(s, k, e));
    lemma_at_step_ray_sq(k, ur, uf, a, from);
    assert(ray_to_spec(k, e).contains(from));
    assert(rays_of(s, k, pinners).contains(from));
}

/// A slider on `e` that does not attack the king on `k` does not attack it after a move
/// that the pin rays allow.
proof fn lemma_discovered_answered(s: PositionState, m: Move, k: int, pin: Set<int>, e: int)
    requires
        sane(s),
        legal_shape(s, m),
        m is Regular || m is Promotion,
        s.pieces[m.spec_from().idx()].unwrap().0 != PieceKind::King,
        guarded(s, m, k, pin),
        0 <= e < 64,
        e != m.spec_from().idx(),
        e != m.spec_to().idx(),
        enemy_on(s, e),
        !piece_attacks(s.pieces[e].unwrap(), e, occupied(s)).contains(k),
    ensures
        !piece_attacks(s.pieces[e].unwrap(), e, occupied(make_spec(s, m))).contains(k),
{
    let p = s.pieces[e].unwrap();
    let from = m.spec_from().idx();
    let to = m.spec_to().idx();
    let occ = occupied(s);
    let occ2 = occupied(make_spec(s, m));
    lemma_after_simple_move(s, m);
    if piece_attacks(p, e, occ2).contains(k) {
        let (vr, vf) = lemma_slider_ray(p, e, occ2, k);
        if ray_set(e, vr, vf, occ).contains(k) {
            lemma_ray_in_slider(e, vr, vf, occ, k);
        }
        let (n, i) = lemma_ray_vacated(e, vr, vf, occ, occ2, k);
        let x = ray_sq(e, vr, vf, i);
        assert(!occ2.contains(x));
        assert(x == from);
        let a = n - i;
        m.spec_from().lemma_idx_bound();
        lemma_discovered_pin(s, k, e, vr, vf, n, a, from, occ2);
        let ur = -vr;
        let uf = -vf;
        assert(pin.intersect(line_through_spec(from, k)).contains(to));
        let j = lemma_line_through_step(k, ur, uf, a, from, to);
        lemma_move_path(s, m, k, ur, uf, a, j);
        lemma_at_step_ray_sq(k, ur, uf, j, to);
        lemma_at_step_ray_sq(k, ur, uf, n, e);
        assert(ray_sq(k, ur, uf, 0) == k);
        assert(s.pieces[k] == Some(Piece(PieceKind::King, s.to_move)));
        assert(occ.contains(k));
        if j == 0 {
            assert(to == k);
        } else if j < 0 {
            assert(!occ.contains(ray_sq(k, ur, uf, 0)));
        } else if j > n {
            assert(!occ.contains(ray_sq(k, ur, uf, n)));
        } else if j == n {
            assert(to == e);
        } else {
            lemma_ray_flip(e, vr, vf, n, k, j);
            assert(!occ2.contains(ray_sq(e, vr, vf, n - j)));
        }
    }
}

/// A move of a piece other than the king that the pin rays allow, and that in check takes
/// or blocks the checking piece, leaves the king unattacked.
pub proof fn lemma_guarded_move_safe(s: PositionState, m: Move, k: int, pin: Set<int>)
    requires
        sane(s),
        legal_shape(s, m),
        m is Regular || m is Promotion,
        s.pieces[m.spec_from().idx()].unwrap().0 != PieceKind::King,
        guarded(s, m, k, pin),
    ensures
        king_safe(make_spec(s, m), s.to_move),
{
    let us = s.to_move;
    let them = us.spec_opp();
    let r = make_spec(s, m);
    let from = m.spec_from().idx();
    let to = m.spec_to().idx();
    let occ2 = occupied(r);
    lemma_after_simple_move(s, m);
    let kings = squares_with(s.pieces, Piece(PieceKind::King, us));
    assert(kings.contains(k));
    assert forall|q: int| #[trigger] squares_with(r.pieces, Piece(PieceKind::King, us)).contains(q) implies !attacked_by(
        r,
        them,
        occ2,
    ).contains(q) by {
        assert(q != from && q != to);
        assert(kings.contains(q) && kings.contains(k));
        assert(q == k);
        if attacked_by(r, them, occ2).contains(k) {
            let e = lemma_attacker(r, them, occ2, k);
            assert(e != from && e != to);
            assert(s.pieces[e] == r.pieces[e]);
            if piece_attacks(s.pieces[e].unwrap(), e, occupied(s)).contains(k) {
                lemma_checker_answered(s, m, k, pin, e);
            } else {
                lemma_discovered_answered(s, m, k, pin, e);
            }
        }
    }
}

/// A king move to a square that the opponent does not attack, looking through the king,
/// leaves the king unattacked.
pub proof fn lemma_king_move_safe(s: PositionState, m: Move)
    requires
        sane(s),
        legal_shape(s, m),
        m is Regular,
        s.pieces[m.spec_from().idx()].unwrap().0 == PieceKind::King,
        !danger_spec(s).contains(m.spec_to().idx()),
    ensures
        king_safe(make_spec(s, m), s.to_move),
{
    let us = s.to_move;
    let them = us.spec_opp();
    let r = make_spec(s, m);
    let from = m.spec_from().idx();
    let to = m.spec_to().idx();
    let occ = occupied(s);
    let occ2 = occupied(r);
    lemma_after_simple_move(s, m);
    let kings = squares_with(s.pieces, Piece(PieceKind::King, us));
    assert(kings.contains(from));
    let d = occ.difference(kings);
    assert forall|y: int| y != to implies (occ2.contains(y) <==> d.contains(y)) by {
        if kings.contains(y) {
            assert(kings.contains(y) && kings.contains(from));
        }
    }
    assert forall|q: int| #[trigger] squares_with(r.pieces, Piece(PieceKind::King, us)).contains(q) implies !attacked_by(
        r,
        them,
        occ2,
    ).contains(q) by {
        if q != to {
            assert(q != from);
            assert(kings.contains(q) && kings.contains(from));
        }
        if attacked_by(r, them, occ2).contains(to) {
            let e = lemma_attacker(r, them, occ2, to);
            assert(e != from && e != to);
            assert(s.pieces[e] == r.pieces[e]);
            lemma_attacks_target(s.pieces[e].unwrap(), e, occ2, d, to);
            lemma_attacker_in(s, them, d, e, to);
        }
    }
}

/// No ray reaches the square next to a corner that the castling king lands on by passing
/// over the corner.
proof fn lemma_corner_not_between(e: int, vr: int, vf: int, j: int, n: int, c: int, t: int)
    requires
        0 <= e < 64,
        unit_dir(vr, vf),
        1 <= j < n,
        at_step(e, vr, vf, n, t),
        rank_of(t) == rank_of(c),
        (file_of(c) == 7 && file_of(t) == 6) || (file_of(c) == 0 && file_of(t) == 2),
    ensures
        !at_step(e, vr, vf, j, c),
{
}

/// Castling, with a king path that the opponent does not attack, leaves the king
/// unattacked.
pub proof fn lemma_castling_safe(s: PositionState, m: Move)
    requires
        sane(s),
        legal_shape(s, m),
        m is Castling,
    ensures
        king_safe(make_spec(s, m), s.to_move),
{
    reveal(make_spec);
    let us = s.to_move;
    let them = us.spec_opp();
    let side = side_of(m.spec_to());
    let r = make_spec(s, m);
    let from = m.spec_from().idx();
    let to = m.spec_to().idx();
    let rf = rook_sq_spec(us, side).idx();
    let rt = castling_rook_sq_spec(us, side).idx();
    let occ = occupied(s);
    let occ2 = occupied(r);
    let kings = squares_with(s.pieces, Piece(PieceKind::King, us));
    assert(from == king_sq_spec(us).idx());
    assert(to == castling_sq_spec(us, side).idx());
    assert(kings.contains(from));
    let d = occ.difference(kings);
    assert(castling_king_path(us, side).contains(to));
    assert(!danger_spec(s).contains(to));
    assert(rank_of(to) == rank_of(rf));
    assert((file_of(rf) == 7 && file_of(to) == 6) || (file_of(rf) == 0 && file_of(to) == 2));
    assert forall|y: int| 0 <= y < 64 && y != from && y != rf && y != to && y != rt implies r.pieces[y] == s.pieces[y] by {}
    assert forall|q: int| #[trigger] squares_with(r.pieces, Piece(PieceKind::King, us)).contains(q) implies !attacked_by(
        r,
        them,
        occ2,
    ).contains(q) by {
        if q != to {
            assert(q != from && q != rf && q != rt);
            assert(kings.contains(q) && kings.contains(from));
        }
        if attacked_by(r, them, occ2).contains(to) {
            let e = lemma_attacker(r, them, occ2, to);
            assert(e != from && e != to && e != rf && e != rt);
            let p = s.pieces[e].unwrap();
            assert(s.pieces[e] == r.pieces[e]);
            if p.0 == PieceKind::Bishop || p.0 == PieceKind::Rook || p.0 == PieceKind::Queen {
                let (vr, vf) = lemma_slider_ray(p, e, occ2, to);
                let n = choose|n: int| ray_reaches(e, vr, vf, occ2, n) && to == #[trigger] ray_sq(e, vr, vf, n);
                lemma_ray_at_step(e, vr, vf, n);
                assert forall|j: int| 1 <= j < n implies !d.contains(#[trigger] ray_sq(e, vr, vf, j)) by {
                    let y = ray_sq(e, vr, vf, j);
                    assert(!occ2.contains(y));
                    if d.contains(y) {
                        crate::tables::lemma_ray_on_between(e, vr, vf, j, n);
                        lemma_ray_at_step(e, vr, vf, j);
                        if kings.contains(y) {
                            assert(kings.contains(y) && kings.contains(from));
                        }
                        assert(y == rf);
                        lemma_corner_not_between(e, vr, vf, j, n, rf, to);
                    }
                }
                assert(ray_reaches(e, vr, vf, d, n));
                lemma_ray_in_slider(e, vr, vf, d, to);
            }
            lemma_attacker_in(s, them, d, e, to);
        }
    }
}

/// The opponent's bishops and queens (`rook` false), or rooks and queens (`rook` true).
pub open spec fn sliders_of(s: PositionState, c: Color, rook: bool) -> Set<int> {
    if rook {
        squares_with(s.pieces, Piece(PieceKind::Rook, c)) + squares_with(s.pieces, Piece(PieceKind::Queen, c))
    } else {
        squares_with(s.pieces, Piece(PieceKind::Bishop, c)) + squares_with(s.pieces, Piece(PieceKind::Queen, c))
    }
}

/// What the generator checks before it adds the en passant capture `m`, with the king of
/// the player to move on `k`: once the two pawns have moved, no bishop, rook or queen of
/// the opponent attacks the king, and in check the captured pawn is the checking piece or
/// stands between it and the king.
pub open spec fn ep_guarded(s: PositionState, m: Move, k: int) -> bool {
    let us = s.to_move;
    let them = us.spec_opp();
    let occ2 = occupied(make_spec(s, m));
    let cap = ep_capture_sq(m.spec_to(), us).idx();
    &&& is_first_king(s, us, k)
    &&& bishop_attacks(k, occ2).intersect(sliders_of(s, them, false)).is_empty()
    &&& rook_attacks(k, occ2).intersect(sliders_of(s, them, true)).is_empty()
    &&& (answers_check(s, k, cap) || answers_check(s, k, m.spec_to().idx()))
}

/// After an en passant capture, the board is the same but on the squares of the two pawns
/// and the square the capturing pawn lands on.
pub proof fn lemma_after_ep(s: PositionState, m: Move)
    requires
        applicable(s, m),
        m is EnPassant,
    ensures
        ({
            let r = make_spec(s, m);
            let from = m.spec_from().idx();
            let to = m.spec_to().idx();
            let cap = ep_capture_sq(m.spec_to(), s.to_move).idx();
            &&& r.pieces.len() == 64
            &&& r.pieces[from] is None
            &&& r.pieces[cap] is None
            &&& r.pieces[to] == Some(Piece(PieceKind::Pawn, s.to_move))
            &&& forall|y: int| 0 <= y < 64 && y != from && y != to && y != cap ==> r.pieces[y] == s.pieces[y]
            &&& forall|y: int|
                #[trigger] occupied(r).contains(y) <==> (0 <= y < 64 && (y == to || (y != from && y != cap
                    && occupied(s).contains(y))))
        }),
{
    reveal(make_spec);
    let us = s.to_move;
    m.spec_from().lemma_idx_bound();
    m.spec_to().lemma_idx_bound();
    ep_capture_sq(m.spec_to(), us).lemma_idx_bound();
    crate::square::Square::lemma_idx_injective(m.spec_from(), m.spec_to());
    crate::square::Square::lemma_idx_injective(m.spec_from(), ep_capture_sq(m.spec_to(), us));
    crate::square::Square::lemma_idx_injective(m.spec_to(), ep_capture_sq(m.spec_to(), us));
}

/// An en passant capture that exposes the king to no bishop, rook or queen, and that in
/// check takes the checking pawn, leaves the king unattacked.
pub proof fn lemma_ep_safe(s: PositionState, m: Move, k: int)
    requires
        sane(s),
        legal_shape(s, m),
        m is EnPassant,
        ep_guarded(s, m, k),
    ensures
        king_safe(make_spec(s, m), s.to_move),
{
    let us = s.to_move;
    let them = us.spec_opp();
    let r = make_spec(s, m);
    let from = m.spec_from().idx();
    let to = m.spec_to().idx();
    let cap = ep_capture_sq(m.spec_to(), us).idx();
    let occ2 = occupied(r);
    lemma_after_ep(s, m);
    let kings = squares_with(s.pieces, Piece(PieceKind::King, us));
    assert(kings.contains(k));
    assert forall|q: int| #[trigger] squares_with(r.pieces, Piece(PieceKind::King, us)).contains(q) implies !attacked_by(
        r,
        them,
        occ2,
    ).contains(q) by {
        assert(q != from && q != to && q != cap);
        assert(kings.contains(q) && kings.contains(k));
        assert(q == k);
        if attacked_by(r, them, occ2).contains(k) {
            let e = lemma_attacker(r, them, occ2, k);
            assert(e != from && e != to && e != cap);
            assert(s.pieces[e] == r.pieces[e]);
            let p = s.pieces[e].unwrap();
            if p.0 == PieceKind::Bishop || p.0 == PieceKind::Rook || p.0 == PieceKind::Queen {
                let (vr, vf) = lemma_slider_ray(p, e, occ2, k);
                lemma_ray_in_slider(e, vr, vf, occ2, k);
                lemma_bishop_sym(e, k, occ2);
                lemma_rook_sym(e, k, occ2);
                if vr != 0 && vf != 0 {
                    assert(bishop_attacks(k, occ2).intersect(sliders_of(s, them, false)).contains(e));
                } else {
                    assert(rook_attacks(k, occ2).intersect(sliders_of(s, them, true)).contains(e));
                }
            } else {
                assert(piece_attacks(p, e, occupied(s)).contains(k));
                lemma_attacker_checks(s, k, e);
                if answers_check(s, k, cap) {
                    let c = choose|c: int|
                        checkers_spec(s, k) == Set::<int>::empty().insert(c) && (#[trigger] ray_to_spec(k, c).contains(cap) || cap == c);
                    assert(checkers_spec(s, k).contains(e));
                    assert(c == e);
                    if p.0 == PieceKind::Pawn {
                        lemma_pawn_ray_to(k, e, them, cap);
                    } else {
                        lemma_knight_ray_to(k, e, cap);
                    }
                } else {
                    let c = choose|c: int|
                        checkers_spec(s, k) == Set::<int>::empty().insert(c) && (#[trigger] ray_to_spec(k, c).contains(to) || to == c);
                    assert(checkers_spec(s, k).contains(e));
                    assert(c == e);
                    if p.0 == PieceKind::Pawn {
                        lemma_pawn_ray_to(k, e, them, to);
                    } else {
                        lemma_knight_ray_to(k, e, to);
                    }
                }
            }
        }
    }
}

/// Every move of `l` leaves the king of the player to move unattacked, when `s` is sane.
pub open spec fn list_safe(l: Seq<Move>, s: PositionState) -> bool {
    sane(s) ==> forall|i: int| 0 <= i < l.len() ==> king_safe(make_spec(s, #[trigger] l[i]), s.to_move)
}

/// The king of the player to move stands on `king` (its first one) and `pin` holds its pin
/// rays.
pub open spec fn king_ctx(s: PositionState, pin: Set<int>, king: Option<crate::square::Square>) -> bool {
    &&& king is Some
    &&& is_first_king(s, s.to_move, king->0.idx())
    &&& pin == pin_rays_spec(s, king->0.idx())
}

/// What the generator knows, in a sane position, when it adds moves of pieces other than
/// the king that land on the squares of `targets`: the king and its pin rays are right,
/// and each of those squares answers a check.
pub open spec fn gen_ctx(s: PositionState, targets: Set<int>, pin: Set<int>, king: Option<crate::square::Square>) -> bool {
    sane(s) ==> king_ctx(s, pin, king) && forall|t: int| #[trigger] targets.contains(t) ==> answers_check(s, king->0.idx(), t)
}

/// Adding a move that leaves the king unattacked keeps a list safe.
pub proof fn lemma_list_safe_push(l: Seq<Move>, s: PositionState, m: Move)
    requires
        list_safe(l, s),
        sane(s) ==> king_safe(make_spec(s, m), s.to_move),
    ensures
        list_safe(l.push(m), s),
{
    if sane(s) {
        assert forall|i: int| 0 <= i < l.push(m).len() implies king_safe(make_spec(s, #[trigger] l.push(m)[i]), s.to_move) by {
            if i < l.len() {
                assert(l.push(m)[i] == l[i]);
            }
        }
    }
}

/// A set of one element.
pub proof fn lemma_single(x: Set<int>, c: int)
    requires
        x.finite(),
        x.len() == 1,
        x.contains(c),
    ensures
        x == Set::<int>::empty().insert(c),
{
    x.remove(c).lemma_len0_is_empty();
    assert(x =~= Set::<int>::empty().insert(c));
}

/// In a sane position in check, the king has a checking piece other than a king.
pub proof fn lemma_check_has_checker(s: PositionState, k: int)
    requires
        sane(s),
        is_first_king(s, s.to_move, k),
        in_check(s),
    ensures
        checkers_spec(s, k) != Set::<int>::empty(),
{
    let us = s.to_move;
    let them = us.spec_opp();
    let occ = occupied(s);
    let kings = squares_with(s.pieces, Piece(PieceKind::King, us));
    lemma_first_king_unique(s, us, k);
    let occ2 = occ.difference(kings);
    let e = lemma_attacker(s, them, occ2, k);
    assert forall|y: int| y != k implies (occ.contains(y) <==> occ2.contains(y)) by {
        if kings.contains(y) {
            assert(kings.contains(y) && kings.contains(k));
        }
    }
    lemma_attacks_target(s.pieces[e].unwrap(), e, occ2, occ, k);
    lemma_attacker_checks(s, k, e);
}

/// The squares on the way from the king on `k` to a piece on `c` that attacks it, other
/// than `c` itself, are empty.
proof fn lemma_checker_ray_to(s: PositionState, k: int, c: int, t: int)
    requires
        0 <= k < 64,
        0 <= c < 64,
        s.pieces[c] is Some,
        s.pieces[c].unwrap().0 != PieceKind::King,
        piece_attacks(s.pieces[c].unwrap(), c, occupied(s)).contains(k),
        ray_to_spec(k, c).contains(t),
        t != c,
    ensures
        !occupied(s).contains(t),
{
    let p = s.pieces[c].unwrap();
    if p.0 == PieceKind::Pawn {
        lemma_pawn_ray_to(k, c, p.1, t);
    } else if p.0 == PieceKind::Knight {
        lemma_knight_ray_to(k, c, t);
    } else {
        lemma_slider_ray_to(k, c, p, occupied(s), t);
    }
}

/// The squares on the way from `k` to `c` lie on one line with `k`, at a distance from it
/// in the direction of `c`; the result is that direction and the distances of `t` and `c`.
proof fn lemma_ray_to_dir(k: int, c: int, t: int) -> (r: (int, int, int, int))
    requires
        0 <= k < 64,
        0 <= c < 64,
        k != c,
        ray_to_spec(k, c).contains(t),
    ensures
        unit_dir(r.0, r.1),
        1 <= r.2 <= r.3,
        at_step(k, r.0, r.1, r.2, t),
        at_step(k, r.0, r.1, r.3, c),
        t == ray_sq(k, r.0, r.1, r.2),
{
    let ur = sign(rank_of(c) - rank_of(k));
    let uf = sign(file_of(c) - file_of(k));
    assert(aligned(k, c));
    let n = if ur != 0 { (rank_of(c) - rank_of(k)) * ur } else { (file_of(c) - file_of(k)) * uf };
    assert(at_step(k, ur, uf, n, c));
    lemma_ray_to_steps(k, ur, uf, n, c);
    let i = choose|i: int| 1 <= i <= n && t == #[trigger] ray_sq(k, ur, uf, i);
    crate::tables::lemma_ray_on_between(k, ur, uf, i, n);
    lemma_ray_at_step(k, ur, uf, i);
    (ur, uf, i, n)
}

/// A square at some distance from `k` in direction `u` lies on the line through `k` and
/// any other square of that direction.
proof fn lemma_step_on_line(k: int, ur: int, uf: int, a: int, x: int, i: int, t: int)
    requires
        0 <= k < 64,
        unit_dir(ur, uf),
        a >= 1,
        at_step(k, ur, uf, a, x),
        at_step(k, ur, uf, i, t),
    ensures
        line_through_spec(x, k).contains(t),
{
}

/// A move that takes or blocks neither of two pieces checking the king, nor one twice,
/// answers at most one of them: the result says which checker it leaves unanswered.
proof fn lemma_one_answer(s: PositionState, m: Move, k: int, c1: int, c2: int) -> (c: int)
    requires
        legal_shape(s, m),
        m is Regular || m is Promotion || m is EnPassant,
        is_first_king(s, s.to_move, k),
        c1 != c2,
        checkers_spec(s, k).contains(c1),
        checkers_spec(s, k).contains(c2),
    ensures
        c == c1 || c == c2,
        !answered(s, m, k, c),
{
    let to = m.spec_to().idx();
    let occ = occupied(s);
    let us = s.to_move;
    m.spec_to().lemma_idx_bound();
    if !answered(s, m, k, c1) {
        c1
    } else if !answered(s, m, k, c2) {
        c2
    } else {
        let cap = ep_capture_sq(m.spec_to(), us).idx();
        if m is EnPassant {
            assert(!occ.contains(to));
        }
        if to == c1 || (m is EnPassant && cap == c1) {
            if ray_to_spec(k, c2).contains(to) && to != c2 && !(m is EnPassant && cap == c2) {
                if to == c1 {
                    lemma_checker_ray_to(s, k, c2, to);
                } else {
                    lemma_ep_not_on_line(s, m, k, c1, c2);
                }
            }
        } else {
            assert(ray_to_spec(k, c1).contains(to) && to != c1);
            lemma_checker_ray_to(s, k, c1, to);
            if ray_to_spec(k, c2).contains(to) && to != c2 && !(m is EnPassant && cap == c2) {
                let (ur1, uf1, i1, n1) = lemma_ray_to_dir(k, c1, to);
                let (ur2, uf2, i2, n2) = lemma_ray_to_dir(k, c2, to);
                assert(at_step(k, ur1, uf1, 0, k));
                lemma_collinear(k, ur1, uf1, 0, k, i1, to, ur2, uf2, i2);
                if n1 < n2 {
                    lemma_ray_to_steps(k, ur1, uf1, n2, c2);
                    lemma_at_step_ray_sq(k, ur1, uf1, n1, c1);
                    assert(ray_to_spec(k, c2).contains(c1));
                    lemma_checker_ray_to(s, k, c2, c1);
                } else if n2 < n1 {
                    lemma_ray_to_steps(k, ur1, uf1, n1, c1);
                    lemma_at_step_ray_sq(k, ur1, uf1, n2, c2);
                    assert(ray_to_spec(k, c1).contains(c2));
                    lemma_checker_ray_to(s, k, c1, c2);
                } else {
                    lemma_step_unique(k, ur1, uf1, n1, n2, c2);
                }
            } else if m is EnPassant && cap == c2 {
                lemma_ep_not_on_line(s, m, k, c2, c1);
            }
        }
        c1
    }
}

/// Move `m` takes the piece on `c`, or lands between it and the king on `k`.
pub open spec fn answered(s: PositionState, m: Move, k: int, c: int) -> bool {
    let to = m.spec_to().idx();
    ||| ray_to_spec(k, c).contains(to)
    ||| to == c
    ||| (m is EnPassant && ep_capture_sq(m.spec_to(), s.to_move).idx() == c)
}

/// When the pawn taken en passant checks the king, the capturing pawn cannot land between
/// another checking piece and the king.
proof fn lemma_ep_not_on_line(s: PositionState, m: Move, k: int, cp: int, c: int)
    requires
        legal_shape(s, m),
        m is EnPassant,
        ep_capture_sq(m.spec_to(), s.to_move).idx() == cp,
        0 <= k < 64,
        checkers_spec(s, k).contains(cp),
        checkers_spec(s, k).contains(c),
        cp != c,
    ensures
        !ray_to_spec(k, c).contains(m.spec_to().idx()),
{
    let us = s.to_move;
    let them = us.spec_opp();
    let to = m.spec_to().idx();
    m.spec_to().lemma_idx_bound();
    assert(s.pieces[cp] == Some(Piece(PieceKind::Pawn, them)));
    assert(step_set(cp, pawn_vecs(them)).contains(k));
    let v = pawn_vecs(them);
    let i = choose|i: int| 0 <= i < v.len() && step_ok(cp, v[i]) && k == step_target(cp, #[trigger] v[i]);
    assert(0 <= to - up_dir(us).spec_offset() < 64);
    crate::square::Square::lemma_from_index_spec(to - up_dir(us).spec_offset());
    assert(rank_of(to) == rank_of(cp) + up_dir(us).spec_dr());
    assert(file_of(to) == file_of(cp));
    assert(!aligned(k, to));
    if ray_to_spec(k, c).contains(to) {
        let (ur, uf, j, n) = lemma_ray_to_dir(k, c, to);
    }
}

/// One of the squares that move `m` empties or fills.
pub open spec fn moved_sq(s: PositionState, m: Move, y: int) -> bool {
    ||| y == m.spec_from().idx()
    ||| y == m.spec_to().idx()
    ||| (m is EnPassant && y == ep_capture_sq(m.spec_to(), s.to_move).idx())
}

/// After a move that is not castling, the board is the same but on the squares it empties
/// or fills; its piece stands on the end square and the king of the mover, unless it moved,
/// stays where it was.
proof fn lemma_after_move(s: PositionState, m: Move)
    requires
        legal_shape(s, m),
        m is Regular || m is Promotion || m is EnPassant,
    ensures
        ({
            let r = make_spec(s, m);
            let us = s.to_move;
            let to = m.spec_to().idx();
            &&& r.pieces.len() == 64
            &&& r.pieces[to] is Some
            &&& r.pieces[to].unwrap().1 == us
            &&& (m is Regular ==> r.pieces[to] == s.pieces[m.spec_from().idx()])
            &&& (m is Promotion || m is EnPassant ==> r.pieces[to].unwrap().0 != PieceKind::King)
            &&& forall|y: int| 0 <= y < 64 && !moved_sq(s, m, y) ==> r.pieces[y] == s.pieces[y]
            &&& forall|y: int|
                #[trigger] occupied(r).contains(y) <==> (0 <= y < 64 && (y == to || (!moved_sq(s, m, y)
                    && occupied(s).contains(y))))
            &&& !occupied(s).contains(to) || enemy_on(s, to)
            &&& s.pieces[m.spec_from().idx()] is Some && s.pieces[m.spec_from().idx()].unwrap().1 == us
            &&& (m is EnPassant ==> s.pieces[ep_capture_sq(m.spec_to(), us).idx()] == Some(
                Piece(PieceKind::Pawn, us.spec_opp()),
            ))
        }),
{
    m.spec_to().lemma_idx_bound();
    if m is EnPassant {
        lemma_after_ep(s, m);
    } else {
        lemma_after_simple_move(s, m);
    }
}

/// No piece attacks its own square.
proof fn lemma_attacks_not_self(p: Piece, e: int, occ: Set<int>)
    requires
        0 <= e < 64,
    ensures
        !piece_attacks(p, e, occ).contains(e),
{
    crate::tables::lemma_ray_not_self(e, 1, 1, occ);
    crate::tables::lemma_ray_not_self(e, -1, 1, occ);
    crate::tables::lemma_ray_not_self(e, -1, -1, occ);
    crate::tables::lemma_ray_not_self(e, 1, -1, occ);
    crate::tables::lemma_ray_not_self(e, 1, 0, occ);
    crate::tables::lemma_ray_not_self(e, 0, 1, occ);
    crate::tables::lemma_ray_not_self(e, -1, 0, occ);
    crate::tables::lemma_ray_not_self(e, 0, -1, occ);
    if piece_attacks(p, e, occ).contains(e) {
        let v = if p.0 == PieceKind::Pawn {
            pawn_vecs(p.1)
        } else if p.0 == PieceKind::Knight {
            knight_vecs()
        } else {
            king_vecs()
        };
        let i = choose|i: int| 0 <= i < v.len() && step_ok(e, v[i]) && e == step_target(e, #[trigger] v[i]);
    }
}

/// A king move to a square that the opponent attacks, looking through the king, leaves
/// the king attacked.
pub proof fn lemma_king_into_danger(s: PositionState, m: Move)
    requires
        sane(s),
        legal_shape(s, m),
        m is Regular,
        s.pieces[m.spec_from().idx()].unwrap().0 == PieceKind::King,
        danger_spec(s).contains(m.spec_to().idx()),
    ensures
        !king_safe(make_spec(s, m), s.to_move),
{
    let us = s.to_move;
    let them = us.spec_opp();
    let r = make_spec(s, m);
    let from = m.spec_from().idx();
    let to = m.spec_to().idx();
    let occ = occupied(s);
    let occ2 = occupied(r);
    lemma_after_simple_move(s, m);
    let kings = squares_with(s.pieces, Piece(PieceKind::King, us));
    assert(kings.contains(from));
    let d = occ.difference(kings);
    assert forall|y: int| y != to implies (occ2.contains(y) <==> d.contains(y)) by {
        if kings.contains(y) {
            assert(kings.contains(y) && kings.contains(from));
        }
    }
    let e = lemma_attacker(s, them, d, to);
    lemma_attacks_not_self(s.pieces[e].unwrap(), e, d);
    assert(e != from && e != to);
    assert(r.pieces[e] == s.pieces[e]);
    lemma_attacks_target(s.pieces[e].unwrap(), e, d, occ2, to);
    lemma_attacker_in(r, them, occ2, e, to);
    assert(squares_with(r.pieces, Piece(PieceKind::King, us)).contains(to));
}

/// The king on `k` stands where it stood after a move of another piece.
proof fn lemma_king_stays(s: PositionState, m: Move, k: int)
    requires
        legal_shape(s, m),
        m is Regular || m is Promotion || m is EnPassant,
        m is Regular ==> s.pieces[m.spec_from().idx()].unwrap().0 != PieceKind::King,
        is_first_king(s, s.to_move, k),
    ensures
        !moved_sq(s, m, k),
        squares_with(make_spec(s, m).pieces, Piece(PieceKind::King, s.to_move)).contains(k),
{
    lemma_after_move(s, m);
    if m is EnPassant {
        assert(s.pieces[ep_capture_sq(m.spec_to(), s.to_move).idx()] != s.pieces[k]);
    }
}

/// A move of a piece other than the king that neither takes nor blocks a piece checking
/// the king leaves the king attacked.
pub proof fn lemma_unanswered_check(s: PositionState, m: Move, k: int, c: int)
    requires
        legal_shape(s, m),
        m is Regular || m is Promotion || m is EnPassant,
        m is Regular ==> s.pieces[m.spec_from().idx()].unwrap().0 != PieceKind::King,
        is_first_king(s, s.to_move, k),
        checkers_spec(s, k).contains(c),
        !answered(s, m, k, c),
    ensures
        !king_safe(make_spec(s, m), s.to_move),
{
    let us = s.to_move;
    let them = us.spec_opp();
    let r = make_spec(s, m);
    let to = m.spec_to().idx();
    let occ = occupied(s);
    let occ2 = occupied(r);
    lemma_after_move(s, m);
    lemma_king_stays(s, m, k);
    let p = s.pieces[c].unwrap();
    assert(!moved_sq(s, m, c));
    assert(r.pieces[c] == s.pieces[c]);
    if p.0 == PieceKind::Bishop || p.0 == PieceKind::Rook || p.0 == PieceKind::Queen {
        let (vr, vf) = lemma_slider_ray(p, c, occ, k);
        let n = choose|n: int| ray_reaches(c, vr, vf, occ, n) && k == #[trigger] ray_sq(c, vr, vf, n);
        lemma_ray_at_step(c, vr, vf, n);
        assert(at_step(k, -vr, -vf, n, c));
        lemma_ray_to_steps(k, -vr, -vf, n, c);
        assert forall|j: int| 1 <= j < n implies !occ2.contains(#[trigger] ray_sq(c, vr, vf, j)) by {
            let y = ray_sq(c, vr, vf, j);
            assert(!occ.contains(y));
            if y == to {
                lemma_ray_flip(c, vr, vf, n, k, n - j);
                assert(ray_sq(k, -vr, -vf, n - j) == y);
                assert(ray_to_spec(k, c).contains(to));
            }
        }
        assert(ray_reaches(c, vr, vf, occ2, n));
        lemma_ray_in_slider(c, vr, vf, occ2, k);
    }
    lemma_attacker_in(r, them, occ2, c, k);
}

/// With two pieces checking the king, every move of another piece leaves it attacked.
pub proof fn lemma_double_check(s: PositionState, m: Move, k: int, c1: int, c2: int)
    requires
        legal_shape(s, m),
        m is Regular || m is Promotion || m is EnPassant,
        m is Regular ==> s.pieces[m.spec_from().idx()].unwrap().0 != PieceKind::King,
        is_first_king(s, s.to_move, k),
        c1 != c2,
        checkers_spec(s, k).contains(c1),
        checkers_spec(s, k).contains(c2),
    ensures
        !king_safe(make_spec(s, m), s.to_move),
{
    let c = lemma_one_answer(s, m, k, c1, c2);
    lemma_unanswered_check(s, m, k, c);
}

/// A pinner attacks the king's square along a ray through the opponent's pieces alone, in
/// a direction in which it moves: the result is that direction and the distance.
proof fn lemma_pinner_ray(s: PositionState, k: int, e: int) -> (r: (int, int, int))
    requires
        0 <= k < 64,
        pinners_spec(s, k).contains(e),
    ensures
        unit_dir(r.0, r.1),
        ray_reaches(k, r.0, r.1, squares_of_color(s.pieces, s.to_move.spec_opp()), r.2),
        e == ray_sq(k, r.0, r.1, r.2),
        r.0 != 0 && r.1 != 0 ==> s.pieces[e] == Some(Piece(PieceKind::Bishop, s.to_move.spec_opp()))
            || s.pieces[e] == Some(Piece(PieceKind::Queen, s.to_move.spec_opp())),
        r.0 == 0 || r.1 == 0 ==> s.pieces[e] == Some(Piece(PieceKind::Rook, s.to_move.spec_opp()))
            || s.pieces[e] == Some(Piece(PieceKind::Queen, s.to_move.spec_opp())),
{
    let them = s.to_move.spec_opp();
    let opp = squares_of_color(s.pieces, them);
    let bq = squares_with(s.pieces, Piece(PieceKind::Bishop, them)) + squares_with(s.pieces, Piece(PieceKind::Queen, them));
    let (vr, vf) = if bishop_attacks(k, opp).intersect(bq).contains(e) {
        if ray_set(k, 1, 1, opp).contains(e) {
            (1, 1)
        } else if ray_set(k, -1, 1, opp).contains(e) {
            (-1, 1)
        } else if ray_set(k, -1, -1, opp).contains(e) {
            (-1, -1)
        } else {
            (1, -1)
        }
    } else {
        if ray_set(k, 1, 0, opp).contains(e) {
            (1, 0)
        } else if ray_set(k, 0, 1, opp).contains(e) {
            (0, 1)
        } else if ray_set(k, -1, 0, opp).contains(e) {
            (-1, 0)
        } else {
            (0, -1)
        }
    };
    let n = choose|n: int| ray_reaches(k, vr, vf, opp, n) && e == #[trigger] ray_sq(k, vr, vf, n);
    (vr, vf, n)
}

/// The occupied squares are finite.
proof fn lemma_occupied_finite(s: PositionState)
    ensures
        occupied(s).finite(),
{
    vstd::set_lib::lemma_int_range(0, 64);
    assert(occupied(s).subset_of(vstd::set_lib::set_int_range(0, 64)));
    vstd::set_lib::lemma_len_subset(occupied(s), vstd::set_lib::set_int_range(0, 64));
}

/// A move of a pinned piece off the line of its pin leaves the king attacked.
pub proof fn lemma_leaves_pin(s: PositionState, m: Move, k: int)
    requires
        legal_shape(s, m),
        m is Regular || m is Promotion || m is EnPassant,
        m is Regular ==> s.pieces[m.spec_from().idx()].unwrap().0 != PieceKind::King,
        is_first_king(s, s.to_move, k),
        pin_rays_spec(s, k).contains(m.spec_from().idx()),
        !pin_rays_spec(s, k).intersect(line_through_spec(m.spec_from().idx(), k)).contains(m.spec_to().idx()),
    ensures
        !king_safe(make_spec(s, m), s.to_move),
{
    let us = s.to_move;
    let them = us.spec_opp();
    let r = make_spec(s, m);
    let from = m.spec_from().idx();
    let to = m.spec_to().idx();
    let occ = occupied(s);
    let occ2 = occupied(r);
    let opp = squares_of_color(s.pieces, them);
    let pinners = pinners_spec(s, k);
    lemma_after_move(s, m);
    lemma_king_stays(s, m, k);
    let e = choose|p: int| pinners.contains(p) && pins_one(s, k, p) && #[trigger] ray_to_spec(k, p).contains(from);
    lemma_pinner_enemy(s, k, e);
    let (ur, uf, n) = lemma_pinner_ray(s, k, e);
    lemma_ray_at_step(k, ur, uf, n);
    lemma_ray_to_steps(k, ur, uf, n, e);
    let a = choose|i: int| 1 <= i <= n && from == #[trigger] ray_sq(k, ur, uf, i);
    assert(a < n);
    crate::tables::lemma_ray_on_between(k, ur, uf, a, n);
    lemma_ray_at_step(k, ur, uf, a);
    // Between the king and the pinner, only `from` is occupied.
    let x = ray_to_spec(k, e).difference(pinners).intersect(occ);
    lemma_occupied_finite(s);
    assert(x.subset_of(occ));
    vstd::set_lib::lemma_len_subset(x, occ);
    assert(x.contains(from)) by {
        if pinners.contains(from) {
            lemma_pinner_enemy(s, k, from);
        }
    }
    assert forall|i: int| 1 <= i < n && i != a implies !occ.contains(#[trigger] ray_sq(k, ur, uf, i)) by {
        let y = ray_sq(k, ur, uf, i);
        crate::tables::lemma_ray_on_between(k, ur, uf, i, n);
        lemma_ray_at_step(k, ur, uf, i);
        if occ.contains(y) {
            assert(y != from) by {
                if y == from {
                    lemma_step_unique(k, ur, uf, i, a, y);
                }
            }
            assert(ray_to_spec(k, e).contains(y));
            if pinners.contains(y) {
                lemma_pinner_enemy(s, k, y);
                assert(opp.contains(y));
            } else {
                assert(x.contains(y));
                x.remove(from).lemma_len0_is_empty();
                assert(x.remove(from).contains(y));
            }
        }
    }
    // The move does not land on the pin's line.
    assert(!ray_to_spec(k, e).contains(to)) by {
        if ray_to_spec(k, e).contains(to) {
            let j = choose|i: int| 1 <= i <= n && to == #[trigger] ray_sq(k, ur, uf, i);
            crate::tables::lemma_ray_on_between(k, ur, uf, j, n);
            lemma_ray_at_step(k, ur, uf, j);
            lemma_step_on_line(k, ur, uf, a, from, j, to);
            assert(rays_of(s, k, pinners).contains(to));
        }
    }
    assert(ray_to_spec(k, e).contains(e));
    assert(!moved_sq(s, m, e)) by {
        if m is EnPassant && e == ep_capture_sq(m.spec_to(), us).idx() {
            assert(s.pieces[e] == Some(Piece(PieceKind::Pawn, them)));
        }
    }
    assert(r.pieces[e] == s.pieces[e]);
    // The pinner attacks the king once the move is made.
    assert(at_step(e, -ur, -uf, n, k));
    assert forall|j: int| 1 <= j < n implies !occ2.contains(#[trigger] ray_sq(e, -ur, -uf, j)) by {
        lemma_ray_flip(k, ur, uf, n, e, j);
        let y = ray_sq(e, -ur, -uf, j);
        assert(y == ray_sq(k, ur, uf, n - j));
        assert(ray_to_spec(k, e).contains(y));
        if occ2.contains(y) {
            if n - j == a {
                assert(y == from);
            } else {
                assert(!occ.contains(y));
            }
        }
    }
    lemma_at_step_ray_sq(e, -ur, -uf, n, k);
    assert(ray_reaches(e, -ur, -uf, occ2, n));
    lemma_ray_in_slider(e, -ur, -uf, occ2, k);
    lemma_attacker_in(r, them, occ2, e, k);
}

/// An en passant capture after which a bishop, rook or queen of the opponent attacks the
/// king leaves the king attacked.
pub proof fn lemma_ep_exposed(s: PositionState, m: Move, k: int, rook: bool, e: int)
    requires
        legal_shape(s, m),
        m is EnPassant,
        is_first_king(s, s.to_move, k),
        sliders_of(s, s.to_move.spec_opp(), rook).contains(e),
        rook ==> rook_attacks(k, occupied(make_spec(s, m))).contains(e),
        !rook ==> bishop_attacks(k, occupied(make_spec(s, m))).contains(e),
    ensures
        !king_safe(make_spec(s, m), s.to_move),
{
    let us = s.to_move;
    let them = us.spec_opp();
    let r = make_spec(s, m);
    let occ2 = occupied(r);
    lemma_after_move(s, m);
    lemma_king_stays(s, m, k);
    assert(!moved_sq(s, m, e));
    assert(r.pieces[e] == s.pieces[e]);
    lemma_bishop_sym(e, k, occ2);
    lemma_rook_sym(e, k, occ2);
    lemma_attacker_in(r, them, occ2, e, k);
}

/// What a legal move tells in a sane position with the king of the player to move on `k`:
/// a king move avoids the squares the opponent attacks, another piece's move keeps to the
/// line of its pin, answers the single check if there is one and is made in no double
/// check; an en passant capture exposes the king to no bishop, rook or queen; castling
/// happens out of check.
pub proof fn lemma_legal_facts(s: PositionState, m: Move, k: int)
    requires
        sane(s),
        is_first_king(s, s.to_move, k),
        legal_move(s, m),
    ensures
        m is Regular && s.pieces[m.spec_from().idx()].unwrap().0 == PieceKind::King ==> !danger_spec(s).contains(
            m.spec_to().idx(),
        ),
        !(m is Castling) && !(m is Regular && s.pieces[m.spec_from().idx()].unwrap().0 == PieceKind::King) ==> {
            &&& !(pin_rays_spec(s, k).contains(m.spec_from().idx()) && !pin_rays_spec(s, k).intersect(
                line_through_spec(m.spec_from().idx(), k),
            ).contains(m.spec_to().idx()))
            &&& forall|c: int| #[trigger] checkers_spec(s, k).contains(c) ==> answered(s, m, k, c)
            &&& forall|c1: int, c2: int|
                #[trigger] checkers_spec(s, k).contains(c1) && #[trigger] checkers_spec(s, k).contains(c2) ==> c1 == c2
        },
        m is EnPassant ==> {
            let occ2 = occupied(make_spec(s, m));
            let them = s.to_move.spec_opp();
            &&& bishop_attacks(k, occ2).intersect(sliders_of(s, them, false)).is_empty()
            &&& rook_attacks(k, occ2).intersect(sliders_of(s, them, true)).is_empty()
        },
        m is Castling ==> !in_check(s),
{
    let us = s.to_move;
    let them = us.spec_opp();
    let from = m.spec_from().idx();
    let to = m.spec_to().idx();
    lemma_first_king_unique(s, us, k);
    if m is Regular && s.pieces[from].unwrap().0 == PieceKind::King {
        if danger_spec(s).contains(to) {
            lemma_king_into_danger(s, m);
        }
    }
    if !(m is Castling) && !(m is Regular && s.pieces[from].unwrap().0 == PieceKind::King) {
        if pin_rays_spec(s, k).contains(from) && !pin_rays_spec(s, k).intersect(line_through_spec(from, k)).contains(to) {
            lemma_leaves_pin(s, m, k);
        }
        assert forall|c: int| #[trigger] checkers_spec(s, k).contains(c) implies answered(s, m, k, c) by {
            if !answered(s, m, k, c) {
                lemma_unanswered_check(s, m, k, c);
            }
        }
        assert forall|c1: int, c2: int|
            #[trigger] checkers_spec(s, k).contains(c1) && #[trigger] checkers_spec(s, k).contains(c2) implies c1 == c2 by {
            if c1 != c2 {
                lemma_double_check(s, m, k, c1, c2);
            }
        }
    }
    if m is EnPassant {
        let occ2 = occupied(make_spec(s, m));
        let b = bishop_attacks(k, occ2).intersect(sliders_of(s, them, false));
        let r = rook_attacks(k, occ2).intersect(sliders_of(s, them, true));
        if !b.is_empty() {
            assert(exists|e: int| b.contains(e)) by {
                if forall|e: int| !b.contains(e) {
                    assert(b =~= Set::<int>::empty());
                }
            }
            let e = choose|e: int| b.contains(e);
            lemma_ep_exposed(s, m, k, false, e);
        }
        if !r.is_empty() {
            assert(exists|e: int| r.contains(e)) by {
                if forall|e: int| !r.contains(e) {
                    assert(r =~= Set::<int>::empty());
                }
            }
            let e = choose|e: int| r.contains(e);
            lemma_ep_exposed(s, m, k, true, e);
        }
    }
    if m is Castling {
        let side = side_of(m.spec_to());
        let kings = squares_with(s.pieces, Piece(PieceKind::King, us));
        assert(kings.contains(from) && kings.contains(k));
        assert(castling_king_path(us, side).contains(from));
    }
}

} // verus!
