use vstd::prelude::*;

use crate::castling::{
    castling_rook_sq_spec, castling_sq_spec, king_sq_spec, rook_sq_spec, CastlingRights,
};
use crate::direction::Direction;
use crate::moves::Move;
use crate::piece::{Color, Piece, PieceKind, Side};
use crate::piece_map::BitboardPieceMap;
use crate::square::{on_board, Square};
use crate::zobrist::{
    castling_key, castling_key_exec, ep_key, ep_key_exec, key, key_spec, piece_key,
    piece_key_exec, pieces_hash, lemma_pieces_hash_update, side_key, side_key_exec,
};
use crate::bitboard::Bitboard;
use crate::fen::{parse, parse_classic_spec, parse_fen_spec, parse_fields, FenError, FenParseError};
use crate::piece_map::{occupied_squares, squares_of_color, squares_with};

verus! {

/// What a position is: the pieces on the 64 squares, the player to move, the castling
/// rights, the en passant square, the ply clock and the move number.
pub ghost struct PositionState {
    pub pieces: Seq<Option<Piece>>,
    pub to_move: Color,
    pub castling: CastlingRights,
    pub en_passant_sq: Option<Square>,
    pub ply_clock: u8,
    pub move_number: u32,
}

/// What a move changed, so that it can be taken back.
#[derive(Clone, Copy, Debug, PartialEq, Eq, Structural)]
pub struct Unmake {
    pub mv: Move,
    pub capture: Option<Piece>,
    pub castling: CastlingRights,
    pub en_passant_sq: Option<Square>,
    pub ply_clock: u8,
    pub zobrist: u64,
}

/// The hash of everything but the pieces.
pub open spec fn other_hash(s: PositionState) -> u64 {
    side_key(s.to_move) ^ castling_key(s.castling) ^ ep_key(s.en_passant_sq)
}

/// The Zobrist hash of a position.
pub open spec fn state_hash(s: PositionState) -> u64 {
    pieces_hash(s.pieces, 64) ^ other_hash(s)
}

/// The direction in which the pawns of `c` move.
pub open spec fn up_dir(c: Color) -> Direction {
    match c {
        Color::White => Direction::North,
        Color::Black => Direction::South,
    }
}

/// The rank (0-based) from which the pawns of `c` start.
pub open spec fn second_rank(c: Color) -> int {
    match c {
        Color::White => 1,
        Color::Black => 6,
    }
}

/// The rank (0-based) that the pawns of `c` reach with a double step.
pub open spec fn fourth_rank(c: Color) -> int {
    match c {
        Color::White => 3,
        Color::Black => 4,
    }
}

/// The side of a castling move, by the square the king moves to.
pub open spec fn side_of(to: Square) -> Side {
    if to == Square::G1 || to == Square::G8 {
        Side::KingSide
    } else {
        Side::QueenSide
    }
}

/// The square of the pawn taken by an en passant capture of `us` landing on `to`.
pub open spec fn ep_capture_sq(to: Square, us: Color) -> Square {
    Square::from_index_spec(to.idx() - up_dir(us).spec_offset())
}

/// The rights after a move of `opp`'s opponent to `to`, which takes a rook off its
/// corner if there is one.
pub open spec fn rook_capture_rights(c: CastlingRights, opp: Color, to: Square) -> CastlingRights {
    if to == rook_sq_spec(opp, Side::KingSide) {
        c.spec_remove(opp, 1)
    } else if to == rook_sq_spec(opp, Side::QueenSide) {
        c.spec_remove(opp, 2)
    } else {
        c
    }
}

/// The rights after a move of `us` from `from` that is not a pawn move.
pub open spec fn own_move_rights(c: CastlingRights, us: Color, from: Square) -> CastlingRights {
    if from == rook_sq_spec(us, Side::KingSide) {
        c.spec_remove(us, 1)
    } else if from == rook_sq_spec(us, Side::QueenSide) {
        c.spec_remove(us, 2)
    } else if from == king_sq_spec(us) {
        c.spec_remove(us, 3)
    } else {
        c
    }
}

/// Whether move `m` increments the ply clock.
pub open spec fn ply_increments(s: PositionState, m: Move) -> bool {
    match m {
        Move::Regular(from, to) => s.pieces[to.idx()] is None && s.pieces[from.idx()].unwrap().0
            != PieceKind::Pawn,
        Move::Castling(_, _) => true,
        _ => false,
    }
}

/// Whether `m` can be made in `s`: the pieces it moves are where it says.
pub open spec fn applicable(s: PositionState, m: Move) -> bool {
    let us = s.to_move;
    &&& s.pieces.len() == 64
    &&& match m {
        Move::Regular(from, to) => from != to && s.pieces[from.idx()] is Some
            && s.pieces[from.idx()].unwrap().1 == us,
        Move::Castling(from, to) => {
            let side = side_of(to);
            &&& from == king_sq_spec(us)
            &&& to == castling_sq_spec(us, side)
            &&& s.pieces[from.idx()] == Some(Piece(PieceKind::King, us))
            &&& s.pieces[rook_sq_spec(us, side).idx()] == Some(Piece(PieceKind::Rook, us))
            &&& s.pieces[to.idx()] is None
            &&& s.pieces[castling_rook_sq_spec(us, side).idx()] is None
        },
        Move::Promotion(from, to, _) => from != to && s.pieces[from.idx()] == Some(
            Piece(PieceKind::Pawn, us),
        ),
        Move::EnPassant(from, to) => {
            &&& from != to
            &&& s.pieces[from.idx()] == Some(Piece(PieceKind::Pawn, us))
            &&& s.pieces[to.idx()] is None
            &&& on_board(to.spec_rank() - up_dir(us).spec_dr(), to.spec_file())
            &&& ep_capture_sq(to, us) != from
            &&& s.pieces[ep_capture_sq(to, us).idx()] == Some(Piece(PieceKind::Pawn, us.spec_opp()))
        },
    }
}

/// The pieces after move `m`.
pub open spec fn made_pieces(s: PositionState, m: Move) -> Seq<Option<Piece>> {
    let us = s.to_move;
    match m {
        Move::Regular(from, to) => s.pieces.update(from.idx(), None).update(
            to.idx(),
            s.pieces[from.idx()],
        ),
        Move::Castling(from, to) => {
            let side = side_of(to);
            s.pieces.update(from.idx(), None).update(rook_sq_spec(us, side).idx(), None).update(
                to.idx(),
                Some(Piece(PieceKind::King, us)),
            ).update(castling_rook_sq_spec(us, side).idx(), Some(Piece(PieceKind::Rook, us)))
        },
        Move::Promotion(from, to, kind) => s.pieces.update(to.idx(), Some(Piece(kind, us))).update(
            from.idx(),
            None,
        ),
        Move::EnPassant(from, to) => s.pieces.update(to.idx(), Some(Piece(PieceKind::Pawn, us)))
            .update(from.idx(), None).update(ep_capture_sq(to, us).idx(), None),
    }
}

/// Whether move `m` moves a pawn with a regular move.
pub open spec fn is_pawn_move(s: PositionState, m: Move) -> bool {
    m is Regular && s.pieces[m.spec_from().idx()] is Some && s.pieces[m.spec_from().idx()].unwrap().0
        == PieceKind::Pawn
}

/// The castling rights after move `m`.
pub open spec fn made_castling(s: PositionState, m: Move) -> CastlingRights {
    let us = s.to_move;
    let them = us.spec_opp();
    match m {
        Move::Regular(from, to) => {
            let c1 = rook_capture_rights(s.castling, them, to);
            if is_pawn_move(s, m) {
                c1
            } else {
                own_move_rights(c1, us, from)
            }
        },
        Move::Castling(_, _) => s.castling.spec_remove(us, 3),
        Move::Promotion(_, to, _) => rook_capture_rights(s.castling, them, to),
        Move::EnPassant(_, _) => s.castling,
    }
}

/// The en passant square after move `m`: set by a double step of a pawn.
pub open spec fn made_ep(s: PositionState, m: Move) -> Option<Square> {
    let us = s.to_move;
    match m {
        Move::Regular(from, to) => if is_pawn_move(s, m) && from.spec_rank() == second_rank(us)
            && to.spec_rank() == fourth_rank(us) {
            Some(Square::from_index_spec(from.idx() + up_dir(us).spec_offset()))
        } else {
            None
        },
        _ => None,
    }
}

/// The ply clock after move `m`: reset by captures and pawn moves, incremented otherwise.
pub open spec fn made_ply(s: PositionState, m: Move) -> u8 {
    if ply_increments(s, m) {
        vstd::wrapping::u8_specs::wrapping_add(s.ply_clock, 1)
    } else {
        0
    }
}

/// The position after move `m`.
#[verifier::opaque]
pub open spec fn make_spec(s: PositionState, m: Move) -> PositionState {
    let us = s.to_move;
    PositionState {
        pieces: made_pieces(s, m),
        to_move: us.spec_opp(),
        castling: made_castling(s, m),
        en_passant_sq: made_ep(s, m),
        ply_clock: made_ply(s, m),
        move_number: if us == Color::Black {
            vstd::wrapping::u32_specs::wrapping_add(s.move_number, 1)
        } else {
            s.move_number
        },
    }
}

/// Whether move `m` takes a piece: a regular move or promotion onto an occupied square,
/// or an en passant capture.
pub open spec fn takes_piece(s: PositionState, m: Move) -> bool {
    match m {
        Move::Regular(_, to) => s.pieces[to.idx()] is Some,
        Move::Promotion(_, to, _) => s.pieces[to.idx()] is Some,
        Move::EnPassant(_, _) => true,
        Move::Castling(_, _) => false,
    }
}

/// Whether move `m` moves a pawn.
pub open spec fn moves_pawn(s: PositionState, m: Move) -> bool {
    match m {
        Move::Regular(from, _) => s.pieces[from.idx()] is Some && s.pieces[from.idx()].unwrap().0
            == PieceKind::Pawn,
        Move::Promotion(_, _, _) => true,
        Move::EnPassant(_, _) => true,
        Move::Castling(_, _) => false,
    }
}

/// What a move does, whatever its kind: the other player moves next; the ply clock
/// starts again at 0 exactly on a capture or a pawn move and else counts one more ply;
/// the move number goes up after a move of black; castling rights are only ever lost, a
/// move of the king from its square loses both of its player's rights, a move of a piece
/// from a rook's corner loses that rook's right and a move onto the opponent's rook corner
/// loses the opponent's right there; a regular move puts the piece of its origin on its
/// target, a promotion puts the new piece there, and either empties its origin and leaves
/// every other square as it was.
pub proof fn lemma_make_facts(s: PositionState, m: Move)
    requires
        applicable(s, m),
        s.ply_clock < 255,
    ensures
        make_spec(s, m).to_move == s.to_move.spec_opp(),
        (make_spec(s, m).ply_clock == 0) == (takes_piece(s, m) || moves_pawn(s, m)),
        make_spec(s, m).ply_clock != 0 ==> make_spec(s, m).ply_clock == s.ply_clock + 1,
        make_spec(s, m).move_number == if s.to_move == Color::Black {
            vstd::wrapping::u32_specs::wrapping_add(s.move_number, 1)
        } else {
            s.move_number
        },
        forall|c: Color, side: Side| #[trigger] make_spec(s, m).castling.spec_get(c, side) ==> s.castling.spec_get(c, side),
        s.pieces[m.spec_from().idx()] == Some(Piece(PieceKind::King, s.to_move)) && m.spec_from() == king_sq_spec(
            s.to_move,
        ) ==> !make_spec(s, m).castling.spec_get(s.to_move, Side::KingSide) && !make_spec(s, m).castling.spec_get(
            s.to_move,
            Side::QueenSide,
        ),
        forall|side: Side|
            m is Regular && !moves_pawn(s, m) && m.spec_from() == #[trigger] rook_sq_spec(s.to_move, side)
                ==> !make_spec(s, m).castling.spec_get(s.to_move, side),
        forall|side: Side|
            (m is Regular || m is Promotion) && m.spec_to() == #[trigger] rook_sq_spec(s.to_move.spec_opp(), side)
                ==> !make_spec(s, m).castling.spec_get(s.to_move.spec_opp(), side),
        m is Regular ==> make_spec(s, m).pieces[m.spec_to().idx()] == s.pieces[m.spec_from().idx()],
        m matches Move::Promotion(_, to, kind) ==> make_spec(s, m).pieces[to.idx()] == Some(Piece(kind, s.to_move)),
        m is Regular || m is Promotion ==> make_spec(s, m).pieces[m.spec_from().idx()] is None,
        m is Regular || m is Promotion ==> forall|i: int|
            0 <= i < 64 && i != m.spec_from().idx() && i != m.spec_to().idx() ==> #[trigger] make_spec(s, m).pieces[i]
                == s.pieces[i],
{
    reveal(make_spec);
    let us = s.to_move;
    let them = us.spec_opp();
    let r = make_spec(s, m);
    s.castling.lemma_spec_remove(us, 3);
    s.castling.lemma_spec_remove(us, 1);
    s.castling.lemma_spec_remove(us, 2);
    s.castling.lemma_spec_remove(them, 1);
    s.castling.lemma_spec_remove(them, 2);
    let c1 = rook_capture_rights(s.castling, them, m.spec_to());
    c1.lemma_spec_remove(us, 3);
    c1.lemma_spec_remove(us, 1);
    c1.lemma_spec_remove(us, 2);
    assert(us != them) by {
        assert(us.spec_opp() != us);
    }
    m.spec_from().lemma_idx_bound();
    m.spec_to().lemma_idx_bound();
    assert(rook_sq_spec(us, Side::KingSide) != king_sq_spec(us));
    assert(rook_sq_spec(us, Side::QueenSide) != king_sq_spec(us));
    assert(rook_sq_spec(us, Side::QueenSide) != rook_sq_spec(us, Side::KingSide));
    assert(rook_sq_spec(them, Side::QueenSide) != rook_sq_spec(them, Side::KingSide));
}

/// What making `m` in `s` records, so that it can be taken back.
pub open spec fn entry_spec(s: PositionState, m: Move) -> Unmake {
    Unmake {
        mv: m,
        capture: match m {
            Move::Regular(_, to) => s.pieces[to.idx()],
            Move::Promotion(_, to, _) => s.pieces[to.idx()],
            _ => None,
        },
        castling: s.castling,
        en_passant_sq: s.en_passant_sq,
        ply_clock: s.ply_clock,
        zobrist: state_hash(s),
    }
}

/// The position after taking back the move that `e` records, from position `t`.
#[verifier::opaque]
pub open spec fn unmake_spec(t: PositionState, e: Unmake) -> PositionState {
    let us = t.to_move.spec_opp();
    let move_number = if t.to_move == Color::White {
        vstd::wrapping::u32_specs::wrapping_sub(t.move_number, 1)
    } else {
        t.move_number
    };
    let pieces = match e.mv {
        Move::Regular(from, to) => t.pieces.update(from.idx(), t.pieces[to.idx()]).update(
            to.idx(),
            e.capture,
        ),
        Move::Castling(from, to) => {
            let side = side_of(to);
            t.pieces.update(from.idx(), Some(Piece(PieceKind::King, us))).update(
                rook_sq_spec(us, side).idx(),
                Some(Piece(PieceKind::Rook, us)),
            ).update(to.idx(), None).update(castling_rook_sq_spec(us, side).idx(), None)
        },
        Move::Promotion(from, to, _) => t.pieces.update(from.idx(), Some(Piece(PieceKind::Pawn, us)))
            .update(to.idx(), e.capture),
        Move::EnPassant(from, to) => t.pieces.update(from.idx(), Some(Piece(PieceKind::Pawn, us)))
            .update(to.idx(), None).update(
            ep_capture_sq(to, us).idx(),
            Some(Piece(PieceKind::Pawn, us.spec_opp())),
        ),
    };
    let castling = match e.mv {
        Move::EnPassant(_, _) => t.castling,
        _ => e.castling,
    };
    PositionState {
        pieces,
        to_move: us,
        castling,
        en_passant_sq: e.en_passant_sq,
        ply_clock: e.ply_clock,
        move_number,
    }
}

/// Taking back a move restores the position it was made in.
pub proof fn lemma_unmake_undoes_make(s: PositionState, m: Move)
    requires
        applicable(s, m),
    ensures
        unmake_spec(make_spec(s, m), entry_spec(s, m)) == s,
{
    reveal(make_spec);
    reveal(unmake_spec);
    let t = make_spec(s, m);
    let u = unmake_spec(t, entry_spec(s, m));
    let us = s.to_move;
    Square::lemma_idx_bound_all();
    match m {
        Move::Regular(from, to) => {
            assert(u.pieces =~= s.pieces);
        },
        Move::Castling(from, to) => {
            assert(u.pieces =~= s.pieces);
        },
        Move::Promotion(from, to, _) => {
            assert(u.pieces =~= s.pieces);
        },
        Move::EnPassant(from, to) => {
            assert(u.pieces =~= s.pieces);
        },
    }
}


pub proof fn lemma_xor_swap(a: u64, b: u64, c: u64)
    ensures
        (a ^ b) ^ c == (a ^ c) ^ b,
        a ^ 0 == a,
{
    assert((a ^ b) ^ c == (a ^ c) ^ b) by (bit_vector);
    assert(a ^ 0 == a) by (bit_vector);
}

/// A chess position, with the history of the moves made in it.
pub struct Position {
    pieces: BitboardPieceMap,
    to_move: Color,
    castling: CastlingRights,
    en_passant_sq: Option<Square>,
    ply_clock: u8,
    move_number: u32,
    history: Vec<Unmake>,
    zobrist: u64,
    states: Ghost<Seq<PositionState>>,
}

impl View for Position {
    type V = PositionState;

    closed spec fn view(&self) -> PositionState {
        PositionState {
            pieces: self.pieces@,
            to_move: self.to_move,
            castling: self.castling,
            en_passant_sq: self.en_passant_sq,
            ply_clock: self.ply_clock,
            move_number: self.move_number,
        }
    }
}

impl Position {
    /// The moves made so far, with what they changed.
    pub closed spec fn spec_history(&self) -> Seq<Unmake> {
        self.history@
    }

    /// The positions the moves were made in, followed by the current one.
    pub closed spec fn spec_states(&self) -> Seq<PositionState> {
        self.states@
    }

    /// The Zobrist hash kept with the position.
    pub closed spec fn spec_zobrist(&self) -> u64 {
        self.zobrist
    }

    /// The piece map is consistent and the hash is that of the position.
    closed spec fn core_wf(&self) -> bool {
        &&& self.pieces.wf()
        &&& self.zobrist == state_hash(self@)
    }

    /// The position is consistent and each recorded move led from one recorded
    /// position to the next, the last of which is the current one.
    pub closed spec fn wf(&self) -> bool {
        &&& self.core_wf()
        &&& history_ok(self.history@, self.states@, self@)
    }

    pub proof fn lemma_wf(&self)
        requires
            self.wf(),
        ensures
            self@.pieces.len() == 64,
            self.spec_zobrist() == state_hash(self@),
            history_ok(self.spec_history(), self.spec_states(), self@),
    {
        self.pieces.lemma_len();
    }

    /// Puts `pce` on the empty square `sq`.
    fn put(&mut self, sq: Square, pce: Piece)
        requires
            old(self).core_wf(),
            old(self)@.pieces[sq.idx()] is None,
        ensures
            final(self).core_wf(),
            final(self)@ == (PositionState { pieces: old(self)@.pieces.update(sq.idx(), Some(pce)), ..old(self)@ }),
            final(self).history == old(self).history,
            final(self).states == old(self).states,
    {
        proof {
            self.pieces.lemma_len();
            lemma_pieces_hash_update(self@.pieces, sq.idx(), Some(pce), 64);
            let o = other_hash(self@);
            let p = pieces_hash(self@.pieces, 64);
            let k = piece_key(Some(pce), sq.idx());
            lemma_xor_swap(p, o, k);
            lemma_xor_swap(k, 0, 0);
            assert(0 ^ k == k) by (bit_vector);
        }
        self.pieces.set_sq(sq, pce);
        self.zobrist = self.zobrist ^ piece_key_exec(pce, sq);
    }

    /// Removes the piece on `sq`, if any.
    fn take(&mut self, sq: Square)
        requires
            old(self).core_wf(),
        ensures
            final(self).core_wf(),
            final(self)@ == (PositionState { pieces: old(self)@.pieces.update(sq.idx(), None), ..old(self)@ }),
            final(self).history == old(self).history,
            final(self).states == old(self).states,
    {
        let old_pce = self.pieces.get(sq);
        proof {
            self.pieces.lemma_len();
            lemma_pieces_hash_update(self@.pieces, sq.idx(), None, 64);
            let o = other_hash(self@);
            let p = pieces_hash(self@.pieces, 64);
            let k = piece_key(old_pce, sq.idx());
            lemma_xor_swap(p, o, k);
            lemma_xor_swap(k, 0, 0);
        }
        self.pieces.unset_sq(sq);
        match old_pce {
            Some(pce) => {
                self.zobrist = self.zobrist ^ piece_key_exec(pce, sq);
            },
            None => {
                proof {
                    lemma_xor_swap(self.zobrist, 0, 0);
                }
            },
        }
    }

    /// Replaces the castling rights.
    fn change_castling(&mut self, c: CastlingRights)
        requires
            old(self).core_wf(),
        ensures
            final(self).core_wf(),
            final(self)@ == (PositionState { castling: c, ..old(self)@ }),
            final(self).history == old(self).history,
            final(self).states == old(self).states,
    {
        let old_key = castling_key_exec(&self.castling);
        let new_key = castling_key_exec(&c);
        proof {
            let p = pieces_hash(self@.pieces, 64);
            let a = side_key(self.to_move);
            let e = ep_key(self.en_passant_sq);
            assert(((p ^ ((a ^ old_key) ^ e)) ^ old_key) ^ new_key == p ^ ((a ^ new_key) ^ e))
                by (bit_vector);
        }
        self.castling = c;
        self.zobrist = self.zobrist ^ old_key ^ new_key;
    }

    /// Replaces the en passant square.
    fn change_ep(&mut self, ep: Option<Square>)
        requires
            old(self).core_wf(),
        ensures
            final(self).core_wf(),
            final(self)@ == (PositionState { en_passant_sq: ep, ..old(self)@ }),
            final(self).history == old(self).history,
            final(self).states == old(self).states,
    {
        let old_key = ep_key_exec(self.en_passant_sq);
        let new_key = ep_key_exec(ep);
        proof {
            let p = pieces_hash(self@.pieces, 64);
            let a = side_key(self.to_move);
            let c = castling_key(self.castling);
            assert(((p ^ ((a ^ c) ^ old_key)) ^ old_key) ^ new_key == p ^ ((a ^ c) ^ new_key))
                by (bit_vector);
        }
        self.en_passant_sq = ep;
        self.zobrist = self.zobrist ^ old_key ^ new_key;
    }

    /// Hands the move to the other player.
    fn change_side(&mut self)
        requires
            old(self).core_wf(),
        ensures
            final(self).core_wf(),
            final(self)@ == (PositionState { to_move: old(self)@.to_move.spec_opp(), ..old(self)@ }),
            final(self).history == old(self).history,
            final(self).states == old(self).states,
    {
        let k = key(768);
        proof {
            let p = pieces_hash(self@.pieces, 64);
            let c = castling_key(self.castling);
            let e = ep_key(self.en_passant_sq);
            assert(((p ^ ((0u64 ^ c) ^ e)) ^ k) == p ^ ((k ^ c) ^ e)) by (bit_vector);
            assert(((p ^ ((k ^ c) ^ e)) ^ k) == p ^ ((0u64 ^ c) ^ e)) by (bit_vector);
        }
        self.to_move = self.to_move.opp();
        self.zobrist = self.zobrist ^ k;
    }
}

impl Position {
    /// Removes the castling right that a move to `to` takes away from the opponent by
    /// landing on one of its rook corners.
    fn remove_castling_on_rook_capture(&mut self, to: Square)
        requires
            old(self).core_wf(),
        ensures
            final(self).core_wf(),
            final(self)@ == (PositionState {
                castling: rook_capture_rights(old(self)@.castling, old(self)@.to_move.spec_opp(), to),
                ..old(self)@
            }),
            final(self).history == old(self).history,
            final(self).states == old(self).states,
    {
        let opp = self.to_move.opp();
        let mut c = self.castling;
        if to == CastlingRights::get_rook_sq(opp, Side::KingSide) {
            c.remove(opp, 1);
            self.change_castling(c);
        } else if to == CastlingRights::get_rook_sq(opp, Side::QueenSide) {
            c.remove(opp, 2);
            self.change_castling(c);
        }
    }

    /// Removes castling rights of `color` (bit 0: king side, bit 1: queen side).
    fn remove_castling_rights(&mut self, color: Color, rights: u8)
        requires
            old(self).core_wf(),
            rights <= 3,
        ensures
            final(self).core_wf(),
            final(self)@ == (PositionState { castling: old(self)@.castling.spec_remove(color, rights), ..old(self)@ }),
            final(self).history == old(self).history,
            final(self).states == old(self).states,
    {
        let mut c = self.castling;
        c.remove(color, rights);
        self.change_castling(c);
    }

    /// The board, rights, en passant square and ply clock after the regular move
    /// `from`-`to`.
    fn make_regular(&mut self, from: Square, to: Square) -> (capture: Option<Piece>)
        requires
            old(self).core_wf(),
            applicable(old(self)@, Move::Regular(from, to)),
        ensures
            final(self).core_wf(),
            capture == old(self)@.pieces[to.idx()],
            final(self)@ == (PositionState {
                pieces: made_pieces(old(self)@, Move::Regular(from, to)),
                castling: made_castling(old(self)@, Move::Regular(from, to)),
                en_passant_sq: made_ep(old(self)@, Move::Regular(from, to)),
                ply_clock: made_ply(old(self)@, Move::Regular(from, to)),
                ..old(self)@
            }),
            final(self).history == old(self).history,
            final(self).states == old(self).states,
    {
        let ghost s0 = self@;
        proof {
            self.pieces.lemma_len();
            Square::lemma_idx_bound_all();
        }
        let us = self.to_move;
        self.change_ep(None);
        let pce = match self.pieces.get(from) {
            Some(p) => p,
            None => Piece(PieceKind::Pawn, us),
        };
        let dest = self.pieces.get(to);
        self.take(from);
        match dest {
            Some(_) => {
                self.take(to);
                self.ply_clock = 0;
            },
            None => {
                if pce.kind() != PieceKind::Pawn {
                    self.ply_clock = self.ply_clock.wrapping_add(1);
                }
            },
        }
        self.put(to, pce);
        self.remove_castling_on_rook_capture(to);
        if pce.kind() == PieceKind::Pawn {
            self.ply_clock = 0;
            let (snd_rank, frth_rank, up) = match us {
                Color::White => (1u8, 3u8, Direction::North),
                Color::Black => (6u8, 4u8, Direction::South),
            };
            if from.rank() == snd_rank && to.rank() == frth_rank {
                let ep = from.shift(up);
                proof {
                    Square::lemma_from_index_spec_idx(ep);
                }
                self.change_ep(Some(ep));
            }
        } else {
            let (king_sq, king_rook_sq, queen_rook_sq) = match us {
                Color::White => (Square::E1, Square::H1, Square::A1),
                Color::Black => (Square::E8, Square::H8, Square::A8),
            };
            if from == king_rook_sq {
                self.remove_castling_rights(us, 1);
            } else if from == queen_rook_sq {
                self.remove_castling_rights(us, 2);
            } else if from == king_sq {
                self.remove_castling_rights(us, 3);
            }
        }
        proof {
            assert(self@.pieces =~= made_pieces(s0, Move::Regular(from, to)));
        }
        dest
    }

    /// The board, rights and ply clock after the castling move `from`-`to`.
    fn make_castling(&mut self, from: Square, to: Square)
        requires
            old(self).core_wf(),
            applicable(old(self)@, Move::Castling(from, to)),
        ensures
            final(self).core_wf(),
            final(self)@ == (PositionState {
                pieces: made_pieces(old(self)@, Move::Castling(from, to)),
                castling: made_castling(old(self)@, Move::Castling(from, to)),
                en_passant_sq: made_ep(old(self)@, Move::Castling(from, to)),
                ply_clock: made_ply(old(self)@, Move::Castling(from, to)),
                ..old(self)@
            }),
            final(self).history == old(self).history,
            final(self).states == old(self).states,
    {
        let ghost s0 = self@;
        proof {
            self.pieces.lemma_len();
            Square::lemma_idx_bound_all();
        }
        let us = self.to_move;
        self.change_ep(None);
        let side = if to == Square::G1 || to == Square::G8 {
            Side::KingSide
        } else {
            Side::QueenSide
        };
        let rook_sq = CastlingRights::get_rook_sq(us, side);
        let castling_rook_sq = CastlingRights::get_castling_rook_sq(us, side);
        self.take(from);
        self.take(rook_sq);
        self.put(to, Piece(PieceKind::King, us));
        self.put(castling_rook_sq, Piece(PieceKind::Rook, us));
        self.remove_castling_rights(us, 3);
        self.ply_clock = self.ply_clock.wrapping_add(1);
        proof {
            assert(self@.pieces =~= made_pieces(s0, Move::Castling(from, to)));
        }
    }

    /// The board, rights and ply clock after the promotion `from`-`to` to `kind`.
    fn make_promotion(&mut self, from: Square, to: Square, kind: PieceKind) -> (capture: Option<Piece>)
        requires
            old(self).core_wf(),
            applicable(old(self)@, Move::Promotion(from, to, kind)),
        ensures
            final(self).core_wf(),
            capture == old(self)@.pieces[to.idx()],
            final(self)@ == (PositionState {
                pieces: made_pieces(old(self)@, Move::Promotion(from, to, kind)),
                castling: made_castling(old(self)@, Move::Promotion(from, to, kind)),
                en_passant_sq: made_ep(old(self)@, Move::Promotion(from, to, kind)),
                ply_clock: made_ply(old(self)@, Move::Promotion(from, to, kind)),
                ..old(self)@
            }),
            final(self).history == old(self).history,
            final(self).states == old(self).states,
    {
        let ghost s0 = self@;
        proof {
            self.pieces.lemma_len();
            Square::lemma_idx_bound_all();
        }
        let us = self.to_move;
        self.change_ep(None);
        let dest = self.pieces.get(to);
        self.take(to);
        self.put(to, Piece(kind, us));
        self.take(from);
        self.remove_castling_on_rook_capture(to);
        self.ply_clock = 0;
        proof {
            assert(self@.pieces =~= made_pieces(s0, Move::Promotion(from, to, kind)));
        }
        dest
    }

    /// The board and ply clock after the en passant capture `from`-`to`.
    fn make_en_passant(&mut self, from: Square, to: Square)
        requires
            old(self).core_wf(),
            applicable(old(self)@, Move::EnPassant(from, to)),
        ensures
            final(self).core_wf(),
            final(self)@ == (PositionState {
                pieces: made_pieces(old(self)@, Move::EnPassant(from, to)),
                castling: made_castling(old(self)@, Move::EnPassant(from, to)),
                en_passant_sq: made_ep(old(self)@, Move::EnPassant(from, to)),
                ply_clock: made_ply(old(self)@, Move::EnPassant(from, to)),
                ..old(self)@
            }),
            final(self).history == old(self).history,
            final(self).states == old(self).states,
    {
        let ghost s0 = self@;
        proof {
            self.pieces.lemma_len();
            Square::lemma_idx_bound_all();
        }
        let us = self.to_move;
        self.change_ep(None);
        let down = match us {
            Color::White => Direction::South,
            Color::Black => Direction::North,
        };
        self.put(to, Piece(PieceKind::Pawn, us));
        self.take(from);
        let captured_pawn_sq = to.shift(down);
        proof {
            Square::lemma_from_index_spec_idx(captured_pawn_sq);
            assert(captured_pawn_sq == ep_capture_sq(to, us));
        }
        self.take(captured_pawn_sq);
        self.ply_clock = 0;
        proof {
            assert(self@.pieces =~= made_pieces(s0, Move::EnPassant(from, to)));
        }
    }

    /// Makes move `m`, which must be applicable, and records it so that it can be
    /// taken back.
    pub fn make_move(&mut self, m: Move)
        requires
            old(self).wf(),
            applicable(old(self)@, m),
        ensures
            final(self).wf(),
            final(self)@ == make_spec(old(self)@, m),
            final(self).spec_history() == old(self).spec_history().push(entry_spec(old(self)@, m)),
            final(self).spec_states() == old(self).spec_states().push(final(self)@),
    {
        let ghost s0 = self@;
        let ghost h0 = self.history@;
        let ghost st0 = self.states@;
        let castling0 = self.castling;
        let ep0 = self.en_passant_sq;
        let ply0 = self.ply_clock;
        let zobrist0 = self.zobrist;
        let us = self.to_move;
        let capture: Option<Piece> = match m {
            Move::Regular(from, to) => self.make_regular(from, to),
            Move::Castling(from, to) => {
                self.make_castling(from, to);
                None
            },
            Move::Promotion(from, to, kind) => self.make_promotion(from, to, kind),
            Move::EnPassant(from, to) => {
                self.make_en_passant(from, to);
                None
            },
        };
        if us == Color::Black {
            self.move_number = self.move_number.wrapping_add(1);
        }
        self.change_side();
        self.history.push(
            Unmake {
                mv: m,
                capture,
                castling: castling0,
                en_passant_sq: ep0,
                ply_clock: ply0,
                zobrist: zobrist0,
            },
        );
        proof {
            lemma_make_spec_parts(s0, m);
            lemma_history_push(h0, st0, s0, m);
            self.states@ = st0.push(self@);
        }
    }
}

impl Position {
    /// Puts back the piece of the regular move `from`-`to` made in `prev`, and what it took.
    fn unmake_regular(
        &mut self,
        from: Square,
        to: Square,
        capture: Option<Piece>,
        castling: CastlingRights,
        Ghost(prev): Ghost<PositionState>,
    )
        requires
            old(self).core_wf(),
            applicable(prev, Move::Regular(from, to)),
            old(self)@.pieces == made_pieces(prev, Move::Regular(from, to)),
            old(self)@.to_move == prev.to_move,
            capture == prev.pieces[to.idx()],
            castling == prev.castling,
        ensures
            final(self).core_wf(),
            final(self)@ == (PositionState { pieces: prev.pieces, castling: prev.castling, ..old(self)@ }),
            final(self).history == old(self).history,
            final(self).states == old(self).states,
    {
        proof {
            self.pieces.lemma_len();
            Square::lemma_idx_bound_all();
        }
        let pce = match self.pieces.get(to) {
            Some(p) => p,
            None => Piece(PieceKind::Pawn, self.to_move),
        };
        self.put(from, pce);
        self.take(to);
        match capture {
            Some(cap) => self.put(to, cap),
            None => {},
        }
        self.change_castling(castling);
        proof {
            assert(self@.pieces =~= prev.pieces);
        }
    }

    /// Puts back the king and rook of the castling move `from`-`to` made in `prev`.
    fn unmake_castling(
        &mut self,
        from: Square,
        to: Square,
        castling: CastlingRights,
        Ghost(prev): Ghost<PositionState>,
    )
        requires
            old(self).core_wf(),
            applicable(prev, Move::Castling(from, to)),
            old(self)@.pieces == made_pieces(prev, Move::Castling(from, to)),
            old(self)@.to_move == prev.to_move,
            castling == prev.castling,
        ensures
            final(self).core_wf(),
            final(self)@ == (PositionState { pieces: prev.pieces, castling: prev.castling, ..old(self)@ }),
            final(self).history == old(self).history,
            final(self).states == old(self).states,
    {
        proof {
            self.pieces.lemma_len();
            Square::lemma_idx_bound_all();
        }
        let us = self.to_move;
        let side = if to == Square::G1 || to == Square::G8 {
            Side::KingSide
        } else {
            Side::QueenSide
        };
        let rook_sq = CastlingRights::get_rook_sq(us, side);
        let castling_rook_sq = CastlingRights::get_castling_rook_sq(us, side);
        self.put(from, Piece(PieceKind::King, us));
        self.put(rook_sq, Piece(PieceKind::Rook, us));
        self.take(to);
        self.take(castling_rook_sq);
        self.change_castling(castling);
        proof {
            assert(self@.pieces =~= prev.pieces);
        }
    }

    /// Puts back the pawn of the promotion `from`-`to` made in `prev`, and what it took.
    fn unmake_promotion(
        &mut self,
        from: Square,
        to: Square,
        kind: PieceKind,
        capture: Option<Piece>,
        castling: CastlingRights,
        Ghost(prev): Ghost<PositionState>,
    )
        requires
            old(self).core_wf(),
            applicable(prev, Move::Promotion(from, to, kind)),
            old(self)@.pieces == made_pieces(prev, Move::Promotion(from, to, kind)),
            old(self)@.to_move == prev.to_move,
            capture == prev.pieces[to.idx()],
            castling == prev.castling,
        ensures
            final(self).core_wf(),
            final(self)@ == (PositionState { pieces: prev.pieces, castling: prev.castling, ..old(self)@ }),
            final(self).history == old(self).history,
            final(self).states == old(self).states,
    {
        proof {
            self.pieces.lemma_len();
            Square::lemma_idx_bound_all();
        }
        let us = self.to_move;
        self.put(from, Piece(PieceKind::Pawn, us));
        self.take(to);
        match capture {
            Some(cap) => self.put(to, cap),
            None => {},
        }
        self.change_castling(castling);
        proof {
            assert(self@.pieces =~= prev.pieces);
        }
    }

    /// Puts back both pawns of the en passant capture `from`-`to` made in `prev`.
    fn unmake_en_passant(&mut self, from: Square, to: Square, Ghost(prev): Ghost<PositionState>)
        requires
            old(self).core_wf(),
            applicable(prev, Move::EnPassant(from, to)),
            old(self)@.pieces == made_pieces(prev, Move::EnPassant(from, to)),
            old(self)@.to_move == prev.to_move,
            old(self)@.castling == prev.castling,
        ensures
            final(self).core_wf(),
            final(self)@ == (PositionState { pieces: prev.pieces, ..old(self)@ }),
            final(self).history == old(self).history,
            final(self).states == old(self).states,
    {
        proof {
            self.pieces.lemma_len();
            Square::lemma_idx_bound_all();
        }
        let us = self.to_move;
        let down = match us {
            Color::White => Direction::South,
            Color::Black => Direction::North,
        };
        let ep_pawn_sq = to.shift(down);
        proof {
            Square::lemma_from_index_spec_idx(ep_pawn_sq);
            assert(ep_pawn_sq == ep_capture_sq(to, us));
        }
        self.put(from, Piece(PieceKind::Pawn, us));
        self.take(to);
        self.put(ep_pawn_sq, Piece(PieceKind::Pawn, us.opp()));
        proof {
            assert(self@.pieces =~= prev.pieces);
        }
    }

    /// Takes back the last move made. There must be one.
    pub fn unmake_move(&mut self)
        requires
            old(self).wf(),
            old(self).spec_history().len() > 0,
        ensures
            final(self).wf(),
            final(self)@ == unmake_spec(old(self)@, old(self).spec_history().last()),
            final(self)@ == old(self).spec_states()[old(self).spec_states().len() - 2],
            final(self).spec_history() == old(self).spec_history().drop_last(),
            final(self).spec_states() == old(self).spec_states().drop_last(),
    {
        let ghost h0 = self.history@;
        let ghost st0 = self.states@;
        let ghost cur = self@;
        let ghost n = h0.len() - 1;
        let ghost prev = st0[n];
        proof {
            assert(step_ok(st0[n], h0[n], st0[n + 1]));
            lemma_step_ok(st0[n], h0[n], st0[n + 1]);
            lemma_make_spec_parts(prev, h0[n].mv);
            lemma_unmake_undoes_make(prev, h0[n].mv);
        }
        let unmake = match self.history.pop() {
            Some(u) => u,
            None => return,
        };
        self.change_ep(unmake.en_passant_sq);
        self.ply_clock = unmake.ply_clock;
        if self.to_move == Color::White {
            self.move_number = self.move_number.wrapping_sub(1);
        }
        self.change_side();
        match unmake.mv {
            Move::Regular(from, to) => self.unmake_regular(
                from,
                to,
                unmake.capture,
                unmake.castling,
                Ghost(prev),
            ),
            Move::Castling(from, to) => self.unmake_castling(from, to, unmake.castling, Ghost(prev)),
            Move::Promotion(from, to, kind) => self.unmake_promotion(
                from,
                to,
                kind,
                unmake.capture,
                unmake.castling,
                Ghost(prev),
            ),
            Move::EnPassant(from, to) => self.unmake_en_passant(from, to, Ghost(prev)),
        }
        proof {
            assert(self@ == prev);
            self.states@ = st0.drop_last();
            lemma_history_pop(h0, st0, cur);
        }
    }

    /// The last move made, if any.
    pub fn last_move(&self) -> (r: Option<Move>)
        requires
            self.wf(),
        ensures
            self.spec_history().len() == 0 ==> r is None,
            self.spec_history().len() > 0 ==> r == Some(self.spec_history().last().mv),
    {
        let n = self.history.len();
        if n == 0 {
            None
        } else {
            Some(self.history[n - 1].mv)
        }
    }
}

/// Forgetting the last recorded move keeps the history consistent.
pub proof fn lemma_history_pop(h: Seq<Unmake>, st: Seq<PositionState>, cur: PositionState)
    requires
        history_ok(h, st, cur),
        h.len() > 0,
    ensures
        history_ok(h.drop_last(), st.drop_last(), st[st.len() - 2]),
{
    let h2 = h.drop_last();
    let st2 = st.drop_last();
    assert forall|k: int| 0 <= k < h2.len() implies #[trigger] step_ok(st2[k], h2[k], st2[k + 1]) by {
        assert(step_ok(st[k], h[k], st[k + 1]));
    }
}

/// `make_spec` spelled out.
pub proof fn lemma_make_spec_parts(s: PositionState, m: Move)
    ensures
        make_spec(s, m) == (PositionState {
            pieces: made_pieces(s, m),
            to_move: s.to_move.spec_opp(),
            castling: made_castling(s, m),
            en_passant_sq: made_ep(s, m),
            ply_clock: made_ply(s, m),
            move_number: if s.to_move == Color::Black {
                vstd::wrapping::u32_specs::wrapping_add(s.move_number, 1)
            } else {
                s.move_number
            },
        }),
{
    reveal(make_spec);
}

/// Recording an applicable move keeps the history consistent.
pub proof fn lemma_history_push(h: Seq<Unmake>, st: Seq<PositionState>, s: PositionState, m: Move)
    requires
        history_ok(h, st, s),
        applicable(s, m),
    ensures
        history_ok(h.push(entry_spec(s, m)), st.push(make_spec(s, m)), make_spec(s, m)),
{
    let h2 = h.push(entry_spec(s, m));
    let st2 = st.push(make_spec(s, m));
    lemma_step_ok(s, entry_spec(s, m), make_spec(s, m));
    assert forall|k: int| 0 <= k < h2.len() implies #[trigger] step_ok(st2[k], h2[k], st2[k + 1]) by {
        if k < h.len() {
            assert(st2[k] == st[k]);
            assert(st2[k + 1] == st[k + 1]);
            assert(h2[k] == h[k]);
        }
    }
}

/// Move `e.mv`, recorded as `e`, was applicable in `a` and led to `b`.
#[verifier::opaque]
pub open spec fn step_ok(a: PositionState, e: Unmake, b: PositionState) -> bool {
    &&& applicable(a, e.mv)
    &&& b == make_spec(a, e.mv)
    &&& e == entry_spec(a, e.mv)
}

pub proof fn lemma_step_ok(a: PositionState, e: Unmake, b: PositionState)
    ensures
        step_ok(a, e, b) <==> (applicable(a, e.mv) && b == make_spec(a, e.mv) && e == entry_spec(
            a,
            e.mv,
        )),
{
    reveal(step_ok);
}

/// Each recorded move led from one recorded position to the next, the last of which is `cur`.
pub open spec fn history_ok(h: Seq<Unmake>, st: Seq<PositionState>, cur: PositionState) -> bool {
    &&& st.len() == h.len() + 1
    &&& st.last() == cur
    &&& forall|k: int| 0 <= k < h.len() ==> #[trigger] step_ok(st[k], h[k], st[k + 1])
}


/// The kind of piece that starts on file `f` of the back rank.
pub open spec fn back_rank_kind(f: int) -> PieceKind {
    if f == 0 || f == 7 {
        PieceKind::Rook
    } else if f == 1 || f == 6 {
        PieceKind::Knight
    } else if f == 2 || f == 5 {
        PieceKind::Bishop
    } else if f == 3 {
        PieceKind::Queen
    } else {
        PieceKind::King
    }
}

fn back_rank_kind_exec(f: u8) -> (r: PieceKind)
    ensures
        r == back_rank_kind(f as int),
{
    if f == 0 || f == 7 {
        PieceKind::Rook
    } else if f == 1 || f == 6 {
        PieceKind::Knight
    } else if f == 2 || f == 5 {
        PieceKind::Bishop
    } else if f == 3 {
        PieceKind::Queen
    } else {
        PieceKind::King
    }
}

/// The pieces of the starting position.
pub open spec fn starting_pieces() -> Seq<Option<Piece>> {
    Seq::new(
        64,
        |i: int|
            if i < 8 {
                Some(Piece(back_rank_kind(i), Color::White))
            } else if i < 16 {
                Some(Piece(PieceKind::Pawn, Color::White))
            } else if i < 48 {
                None
            } else if i < 56 {
                Some(Piece(PieceKind::Pawn, Color::Black))
            } else {
                Some(Piece(back_rank_kind(i - 56), Color::Black))
            },
    )
}

/// The starting position of a game.
pub open spec fn starting_state() -> PositionState {
    PositionState {
        pieces: starting_pieces(),
        to_move: Color::White,
        castling: CastlingRights::spec_new(true, true, true, true),
        en_passant_sq: None,
        ply_clock: 0,
        move_number: 1,
    }
}

/// How many of the last `n` recorded moves were made in a position with hash `z`.
pub open spec fn repetitions(h: Seq<Unmake>, z: u64, n: nat) -> nat
    decreases n,
{
    if n == 0 {
        0
    } else {
        (if h[h.len() - n].zobrist == z { 1nat } else { 0nat }) + repetitions(h, z, (n - 1) as nat)
    }
}

/// The number of recorded moves after the last capture or pawn move: the positions
/// before them are the only ones that can come back.
pub open spec fn reversible_window(h: Seq<Unmake>, ply_clock: u8) -> nat {
    if ply_clock < h.len() { ply_clock as nat } else { h.len() }
}

/// Whether a position with history `h` and hash `z` is drawn by the fifty-move rule or
/// by threefold repetition.
pub open spec fn is_draw_spec(s: PositionState, h: Seq<Unmake>, z: u64) -> bool {
    s.ply_clock >= 100 || repetitions(h, z, reversible_window(h, s.ply_clock)) >= 2
}

/// Whether two of the `w` positions before the last one of `st` have hash `z`.
pub open spec fn occurs_twice_before(st: Seq<PositionState>, z: u64, w: int) -> bool {
    exists|i: int, j: int|
        st.len() - 1 - w <= i < j < st.len() - 1 && state_hash(#[trigger] st[i]) == z && state_hash(
            #[trigger] st[j],
        ) == z
}

/// The number of repetitions in the last `n` recorded moves is at least one exactly
/// when one of them was made in a position with hash `z`, and at least two exactly when
/// two of them were.
proof fn lemma_repetitions_count(h: Seq<Unmake>, z: u64, n: nat)
    requires
        n <= h.len(),
    ensures
        (repetitions(h, z, n) >= 1) == (exists|i: int| h.len() - n <= i < h.len() && #[trigger] h[i].zobrist == z),
        (repetitions(h, z, n) >= 2) == (exists|i: int, j: int|
            h.len() - n <= i < j < h.len() && #[trigger] h[i].zobrist == z && #[trigger] h[j].zobrist == z),
    decreases n,
{
    if n > 0 {
        let m = (n - 1) as nat;
        let a = h.len() - n;
        lemma_repetitions_count(h, z, m);
        if h[a].zobrist == z {
            if repetitions(h, z, m) >= 1 {
                let i = choose|i: int| h.len() - m <= i < h.len() && #[trigger] h[i].zobrist == z;
                assert(h.len() - n <= a < i < h.len() && h[a].zobrist == z && h[i].zobrist == z);
            }
            if exists|i: int, j: int|
                h.len() - n <= i < j < h.len() && #[trigger] h[i].zobrist == z && #[trigger] h[j].zobrist == z {
                let (i, j) = choose|i: int, j: int|
                    h.len() - n <= i < j < h.len() && #[trigger] h[i].zobrist == z && #[trigger] h[j].zobrist == z;
                assert(h.len() - m <= j < h.len() && h[j].zobrist == z);
            }
        } else {
            if exists|i: int| h.len() - n <= i < h.len() && #[trigger] h[i].zobrist == z {
                let i = choose|i: int| h.len() - n <= i < h.len() && #[trigger] h[i].zobrist == z;
                assert(h.len() - m <= i < h.len() && h[i].zobrist == z);
            }
            if exists|i: int, j: int|
                h.len() - n <= i < j < h.len() && #[trigger] h[i].zobrist == z && #[trigger] h[j].zobrist == z {
                let (i, j) = choose|i: int, j: int|
                    h.len() - n <= i < j < h.len() && #[trigger] h[i].zobrist == z && #[trigger] h[j].zobrist == z;
                assert(h.len() - m <= i < j < h.len() && h[i].zobrist == z && h[j].zobrist == z);
            }
        }
    }
}

impl Position {
    /// Threefold repetition: with the ply clock below 100, a position is drawn exactly when
    /// its hash is that of two of the positions since the last capture or pawn move, not
    /// counting the current one (which makes three occurrences with it); at 100 or more it
    /// is drawn by the fifty-move rule.
    pub proof fn lemma_draw_by_repetition(&self)
        requires
            self.wf(),
        ensures
            is_draw_spec(self@, self.spec_history(), self.spec_zobrist()) == (self@.ply_clock >= 100
                || occurs_twice_before(
                self.spec_states(),
                state_hash(self@),
                if self@.ply_clock < self.spec_states().len() - 1 {
                    self@.ply_clock as int
                } else {
                    self.spec_states().len() - 1
                },
            )),
    {
        self.lemma_wf();
        let h = self.spec_history();
        let st = self.spec_states();
        let z = state_hash(self@);
        let w = reversible_window(h, self@.ply_clock);
        assert forall|k: int| 0 <= k < h.len() implies #[trigger] h[k].zobrist == state_hash(st[k]) by {
            assert(step_ok(st[k], h[k], st[k + 1]));
            lemma_step_ok(st[k], h[k], st[k + 1]);
        }
        lemma_repetitions_count(h, z, w);
        let ww: int = if self@.ply_clock < st.len() - 1 { self@.ply_clock as int } else { st.len() - 1 };
        assert(ww == w);
        if repetitions(h, z, w) >= 2 {
            let (i, j) = choose|i: int, j: int|
                h.len() - w <= i < j < h.len() && #[trigger] h[i].zobrist == z && #[trigger] h[j].zobrist == z;
            assert(state_hash(st[i]) == z && state_hash(st[j]) == z);
        }
        if occurs_twice_before(st, z, ww) {
            let (i, j) = choose|i: int, j: int|
                st.len() - 1 - ww <= i < j < st.len() - 1 && state_hash(#[trigger] st[i]) == z && state_hash(
                    #[trigger] st[j],
                ) == z;
            assert(h[i].zobrist == z && h[j].zobrist == z);
        }
    }
}

impl Position {
    /// A position with the given parts and no moves made.
    fn from_parts(
        pieces: BitboardPieceMap,
        to_move: Color,
        castling: CastlingRights,
        en_passant_sq: Option<Square>,
        ply_clock: u8,
        move_number: u32,
    ) -> (r: Position)
        requires
            pieces.wf(),
        ensures
            r.wf(),
            r@ == (PositionState { pieces: pieces@, to_move, castling, en_passant_sq, ply_clock, move_number }),
            r.spec_history() == Seq::<Unmake>::empty(),
    {
        let other = side_key_exec(to_move) ^ castling_key_exec(&castling) ^ ep_key_exec(en_passant_sq);
        let zobrist = pieces.hash() ^ other;
        let ghost st = PositionState { pieces: pieces@, to_move, castling, en_passant_sq, ply_clock, move_number };
        let states: Ghost<Seq<PositionState>> = Ghost(Seq::<PositionState>::empty().push(st));
        let r = Position {
            pieces,
            to_move,
            castling,
            en_passant_sq,
            ply_clock,
            move_number,
            history: Vec::new(),
            zobrist,
            states,
        };
        proof {
            assert(r@ == st);
            assert(r.states@.last() == st);
        }
        r
    }

    /// The starting position of a game.
    pub fn new() -> (r: Position)
        ensures
            r.wf(),
            r@ == starting_state(),
            r.spec_history() == Seq::<Unmake>::empty(),
    {
        let mut pieces = BitboardPieceMap::new();
        let mut f: u8 = 0;
        while f < 8
            invariant
                f <= 8,
                pieces.wf(),
                pieces@ == Seq::new(
                    64,
                    |i: int|
                        if i % 8 < f && (i < 16 || i >= 48) {
                            starting_pieces()[i]
                        } else {
                            None
                        },
                ),
            decreases 8 - f,
        {
            let kind = back_rank_kind_exec(f);
            let ghost before = pieces@;
            proof {
                Square::lemma_from_index_spec(f as int);
                Square::lemma_from_index_spec(8 + f);
                Square::lemma_from_index_spec(48 + f);
                Square::lemma_from_index_spec(56 + f);
            }
            pieces.set_sq(Square::from_index(f), Piece(kind, Color::White));
            pieces.set_sq(Square::from_index(8 + f), Piece(PieceKind::Pawn, Color::White));
            pieces.set_sq(Square::from_index(48 + f), Piece(PieceKind::Pawn, Color::Black));
            pieces.set_sq(Square::from_index(56 + f), Piece(kind, Color::Black));
            f = f + 1;
            proof {
                assert(pieces@ =~= Seq::new(
                    64,
                    |i: int|
                        if i % 8 < f && (i < 16 || i >= 48) {
                            starting_pieces()[i]
                        } else {
                            None
                        },
                ));
            }
        }
        proof {
            assert(pieces@ =~= starting_pieces());
        }
        Position::from_parts(pieces, Color::White, CastlingRights::new(true, true, true, true), None, 0, 1)
    }

    /// The starting position of a game.
    pub fn new_default() -> (r: Position)
        ensures
            r.wf(),
            r@ == starting_state(),
            r.spec_history() == Seq::<Unmake>::empty(),
    {
        Position::new()
    }

    /// The position that `fen` describes, with no moves made, or the error in `fen`.
    pub fn from_fen(fen: &str) -> (r: Result<Position, FenParseError>)
        ensures
            match parse_fen_spec(fen@) {
                Err(e) => r is Err && r->Err_0.message@ == e.spec_message(),
                Ok(st) => r is Ok && r->Ok_0.wf() && r->Ok_0@ == st && r->Ok_0.spec_history()
                    == Seq::<Unmake>::empty(),
            },
    {
        match parse_fields(fen) {
            Err(e) => Err(FenParseError::from_error(e)),
            Ok(parts) => Ok(
                Position::from_parts(
                    parts.pieces,
                    parts.to_move,
                    parts.castling,
                    parts.en_passant_sq,
                    parts.ply_clock,
                    parts.move_number,
                ),
            ),
        }
    }

    /// Replaces the position by the one that `fen` describes as the classic reader reads it
    /// (see `fen::parse`, which differs from `from_fen`: fields separated by any white
    /// space, every placement row filled to its end, no count of kings); on an error it is
    /// left as it was.
    pub fn set(&mut self, fen: &str) -> (r: Result<(), FenParseError>)
        requires
            old(self).wf(),
        ensures
            final(self).wf(),
            match parse_classic_spec(fen@) {
                Err(e) => r is Err && r->Err_0.message@ == e.spec_message() && *final(self) == *old(self),
                Ok(st) => r is Ok && final(self)@ == st && final(self).spec_history() == Seq::<
                    Unmake,
                >::empty(),
            },
    {
        match parse(fen) {
            Err(e) => Err(FenParseError::from_error(e)),
            Ok(parts) => {
                *self = Position::from_parts(
                    parts.pieces,
                    parts.to_move,
                    parts.castling,
                    parts.en_passant_sq,
                    parts.ply_clock,
                    parts.move_number,
                );
                Ok(())
            },
        }
    }

    /// Whether the game is drawn by the fifty-move rule or by threefold repetition, that is
    /// not by stalemate.
    pub fn is_draw(&self) -> (r: bool)
        requires
            self.wf(),
        ensures
            r == is_draw_spec(self@, self.spec_history(), self.spec_zobrist()),
            r == (self@.ply_clock >= 100 || occurs_twice_before(
                self.spec_states(),
                state_hash(self@),
                if self@.ply_clock < self.spec_states().len() - 1 {
                    self@.ply_clock as int
                } else {
                    self.spec_states().len() - 1
                },
            )),
    {
        proof {
            self.lemma_draw_by_repetition();
        }
        if self.ply_clock >= 100 {
            return true;
        }
        let len = self.history.len();
        let window: usize = if (self.ply_clock as usize) < len { self.ply_clock as usize } else { len };
        let mut count: usize = 0;
        let mut n: usize = 0;
        while n < window
            invariant
                n <= window,
                window <= len,
                len == self.history@.len(),
                window == reversible_window(self.history@, self.ply_clock),
                count == repetitions(self.history@, self.zobrist, n as nat),
                count <= n,
            decreases window - n,
        {
            n = n + 1;
            if self.history[len - n].zobrist == self.zobrist {
                count = count + 1;
            }
        }
        count >= 2
    }

    /// The pieces on the board.
    pub fn pieces(&self) -> (r: &BitboardPieceMap)
        requires
            self.wf(),
        ensures
            r.wf(),
            r@ == self@.pieces,
    {
        &self.pieces
    }

    /// The player to move.
    pub fn to_move(&self) -> (r: Color)
        ensures
            r == self@.to_move,
    {
        self.to_move
    }

    /// The castling rights.
    pub fn castling(&self) -> (r: &CastlingRights)
        ensures
            *r == self@.castling,
    {
        &self.castling
    }

    /// The square a pawn can be taken on en passant, if any.
    pub fn en_passant_sq(&self) -> (r: Option<Square>)
        ensures
            r == self@.en_passant_sq,
    {
        self.en_passant_sq
    }

    /// The number of plies since the last capture or pawn move.
    pub fn ply_clock(&self) -> (r: u8)
        ensures
            r == self@.ply_clock,
    {
        self.ply_clock
    }

    /// The number of the full move, starting at 1 and incremented after each move of black.
    pub fn move_number(&self) -> (r: u32)
        ensures
            r == self@.move_number,
    {
        self.move_number
    }

    /// The Zobrist hash of the position.
    pub fn zobrist(&self) -> (r: u64)
        requires
            self.wf(),
        ensures
            r == state_hash(self@),
            r == self.spec_zobrist(),
    {
        self.zobrist
    }

    /// The bitboard of `piece`.
    pub fn get_piece_bb(&self, piece: Piece) -> (r: Bitboard)
        requires
            self.wf(),
        ensures
            r@ == squares_with(self@.pieces, piece),
    {
        self.pieces.get_bb(piece)
    }

    /// The occupied squares.
    pub fn get_occupied(&self) -> (r: Bitboard)
        requires
            self.wf(),
        ensures
            r@ == occupied_squares(self@.pieces),
    {
        self.pieces.get_occ()
    }

    /// The squares occupied by pieces of `col`.
    pub fn get_color_bb(&self, col: Color) -> (r: Bitboard)
        requires
            self.wf(),
        ensures
            r@ == squares_of_color(self@.pieces, col),
    {
        self.pieces.get_occ_for(col)
    }

    /// The piece on `sq`, if any.
    pub fn get_piece_at_sq(&self, sq: Square) -> (r: Option<Piece>)
        requires
            self.wf(),
        ensures
            r == self@.pieces[sq.idx()],
    {
        self.pieces.get(sq)
    }

    /// The player to move.
    pub fn get_to_move(&self) -> (r: Color)
        ensures
            r == self@.to_move,
    {
        self.to_move
    }

    /// The castling rights.
    pub fn get_castling_rights(&self) -> (r: CastlingRights)
        ensures
            r == self@.castling,
    {
        self.castling
    }

    /// The square a pawn can be taken on en passant, if any.
    pub fn get_en_passant_sq(&self) -> (r: Option<Square>)
        ensures
            r == self@.en_passant_sq,
    {
        self.en_passant_sq
    }

    /// The squares the king of `col` goes to when castling king side and queen side.
    pub fn get_castling_squares(col: Color) -> (r: (Square, Square))
        ensures
            r == (castling_sq_spec(col, Side::KingSide), castling_sq_spec(col, Side::QueenSide)),
    {
        (
            CastlingRights::get_castling_sq(col, Side::KingSide),
            CastlingRights::get_castling_sq(col, Side::QueenSide),
        )
    }

    /// Whether the two positions are the same, their histories aside.
    pub fn same_state(&self, other: &Position) -> (r: bool)
        requires
            self.wf(),
            other.wf(),
        ensures
            r == (self@ == other@),
    {
        self.pieces.same_pieces(&other.pieces) && self.to_move == other.to_move && self.castling
            == other.castling && self.en_passant_sq == other.en_passant_sq && self.ply_clock
            == other.ply_clock && self.move_number == other.move_number
    }

    /// Whether move `m` can be made: the pieces it moves are where it says.
    pub fn can_make(&self, m: Move) -> (r: bool)
        requires
            self.wf(),
        ensures
            r == applicable(self@, m),
    {
        proof {
            self.pieces.lemma_len();
        }
        match m {
            Move::Regular(from, to) => self.can_make_regular(from, to),
            Move::Castling(from, to) => self.can_make_castling(from, to),
            Move::Promotion(from, to, kind) => self.can_make_promotion(from, to, kind),
            Move::EnPassant(from, to) => self.can_make_en_passant(from, to),
        }
    }

    fn can_make_regular(&self, from: Square, to: Square) -> (r: bool)
        requires
            self.wf(),
        ensures
            r == applicable(self@, Move::Regular(from, to)),
    {
        proof {
            self.pieces.lemma_len();
        }
        if from == to {
            return false;
        }
        match self.pieces.get(from) {
            Some(p) => p.color() == self.to_move,
            None => false,
        }
    }

    fn can_make_promotion(&self, from: Square, to: Square, kind: PieceKind) -> (r: bool)
        requires
            self.wf(),
        ensures
            r == applicable(self@, Move::Promotion(from, to, kind)),
    {
        proof {
            self.pieces.lemma_len();
        }
        if from == to {
            return false;
        }
        match self.pieces.get(from) {
            Some(p) => p.kind() == PieceKind::Pawn && p.color() == self.to_move,
            None => false,
        }
    }

    fn can_make_castling(&self, from: Square, to: Square) -> (r: bool)
        requires
            self.wf(),
        ensures
            r == applicable(self@, Move::Castling(from, to)),
    {
        proof {
            self.pieces.lemma_len();
        }
        let us = self.to_move;
        if to != CastlingRights::get_castling_sq(us, Side::KingSide) && to
            != CastlingRights::get_castling_sq(us, Side::QueenSide) {
            return false;
        }
        let side = if to == CastlingRights::get_castling_sq(us, Side::KingSide) {
            Side::KingSide
        } else {
            Side::QueenSide
        };
        proof {
            assert(side == side_of(to)) by {
                Square::lemma_idx_bound_all();
            }
        }
        from == crate::util::get_king_sq(us) && self.pieces.get(from) == Some(
            Piece(PieceKind::King, us),
        ) && self.pieces.get(CastlingRights::get_rook_sq(us, side)) == Some(
            Piece(PieceKind::Rook, us),
        ) && self.pieces.get(to).is_none() && self.pieces.get(
            CastlingRights::get_castling_rook_sq(us, side),
        ).is_none()
    }

    fn can_make_en_passant(&self, from: Square, to: Square) -> (r: bool)
        requires
            self.wf(),
        ensures
            r == applicable(self@, Move::EnPassant(from, to)),
    {
        proof {
            self.pieces.lemma_len();
        }
        let us = self.to_move;
        if from == to || self.pieces.get(from) != Some(Piece(PieceKind::Pawn, us))
            || self.pieces.get(to).is_some() {
            return false;
        }
        let down = match us {
            Color::White => Direction::South,
            Color::Black => Direction::North,
        };
        match to.add_vec(crate::square::SquareVec(down.rank_step(), 0)) {
            None => false,
            Some(cap) => {
                proof {
                    Square::lemma_from_index_spec_idx(cap);
                    Square::lemma_idx_bound(cap);
                    Square::lemma_idx_bound(to);
                    assert(cap.idx() == to.idx() - up_dir(us).spec_offset());
                    assert(cap == ep_capture_sq(to, us));
                }
                cap != from && self.pieces.get(cap) == Some(Piece(PieceKind::Pawn, us.opp()))
            },
        }
    }
}


impl Clone for Position {
    fn clone(&self) -> (r: Self)
        ensures
            r@ == self@,
            r.spec_history() == self.spec_history(),
            r.spec_states() == self.spec_states(),
            self.wf() ==> r.wf(),
    {
        let history = crate::piece_map::copy_vec(&self.history);
        Position {
            pieces: self.pieces.clone(),
            to_move: self.to_move,
            castling: self.castling,
            en_passant_sq: self.en_passant_sq,
            ply_clock: self.ply_clock,
            move_number: self.move_number,
            history,
            zobrist: self.zobrist,
            states: Ghost(self.states@),
        }
    }
}



/// The placement field of the starting FEN.
spec fn start_field0() -> Seq<char> {
    seq!['r', 'n', 'b', 'q', 'k', 'b', 'n', 'r', '/', 'p', 'p', 'p', 'p', 'p', 'p', 'p', 'p', '/', '8', '/', '8', '/', '8', '/', '8', '/', 'P', 'P', 'P', 'P', 'P', 'P', 'P', 'P', '/', 'R', 'N', 'B', 'Q', 'K', 'B', 'N', 'R']
}

/// The rows of the placement field of the starting FEN, rank 8 first.
spec fn start_rows() -> Seq<Seq<char>> {
    seq![seq!['r', 'n', 'b', 'q', 'k', 'b', 'n', 'r'], seq!['p', 'p', 'p', 'p', 'p', 'p', 'p', 'p'], seq!['8'], seq!['8'], seq!['8'], seq!['8'], seq!['P', 'P', 'P', 'P', 'P', 'P', 'P', 'P'], seq!['R', 'N', 'B', 'Q', 'K', 'B', 'N', 'R']]
}

/// The fields of the starting FEN.
spec fn start_fields() -> Seq<Seq<char>> {
    seq![start_field0(), seq!['w'], seq!['K', 'Q', 'k', 'q'], seq!['-'], seq!['0'], seq!['1']]
}

proof fn lemma_start_fields()
    ensures
        crate::fen::split_spec(crate::fen::STARTING_FEN@, ' ') == start_fields(),
{
    reveal_strlit("rnbqkbnr/pppppppp/8/8/8/8/PPPPPPPP/RNBQKBNR w KQkq - 0 1");
    let s = seq!['r', 'n', 'b', 'q', 'k', 'b', 'n', 'r', '/', 'p', 'p', 'p', 'p', 'p', 'p', 'p', 'p', '/', '8', '/', '8', '/', '8', '/', '8', '/', 'P', 'P', 'P', 'P', 'P', 'P', 'P', 'P', '/', 'R', 'N', 'B', 'Q', 'K', 'B', 'N', 'R', ' ', 'w', ' ', 'K', 'Q', 'k', 'q', ' ', '-', ' ', '0', ' ', '1'];
    assert(crate::fen::STARTING_FEN@ =~= s);
    let f0 = start_field0();
    let w = seq!['w'];
    let c = seq!['K', 'Q', 'k', 'q'];
    let e = seq!['-'];
    let p = seq!['0'];
    let m = seq!['1'];
    let r4 = p + seq![' '] + m;
    let r3 = e + seq![' '] + r4;
    let r2 = c + seq![' '] + r3;
    let r1 = w + seq![' '] + r2;
    assert(s =~= f0 + seq![' '] + r1);
    crate::fen::lemma_split_join(f0, r1, ' ');
    crate::fen::lemma_split_join(w, r2, ' ');
    crate::fen::lemma_split_join(c, r3, ' ');
    crate::fen::lemma_split_join(e, r4, ' ');
    crate::fen::lemma_split_join(p, m, ' ');
    crate::fen::lemma_split_none(f0, ' ');
    crate::fen::lemma_split_none(w, ' ');
    crate::fen::lemma_split_none(c, ' ');
    crate::fen::lemma_split_none(e, ' ');
    crate::fen::lemma_split_none(p, ' ');
    crate::fen::lemma_split_none(m, ' ');
    assert(crate::fen::split_spec(s, ' ') =~= start_fields());
}

proof fn lemma_start_rows()
    ensures
        crate::fen::split_spec(start_field0(), '/') == start_rows(),
{
    let rows = start_rows();
    let row0 = rows[0];
    let row1 = rows[1];
    let row2 = rows[2];
    let row3 = rows[3];
    let row4 = rows[4];
    let row5 = rows[5];
    let row6 = rows[6];
    let row7 = rows[7];
    let tail7 = row7;
    let tail6 = row6 + seq!['/'] + tail7;
    let tail5 = row5 + seq!['/'] + tail6;
    let tail4 = row4 + seq!['/'] + tail5;
    let tail3 = row3 + seq!['/'] + tail4;
    let tail2 = row2 + seq!['/'] + tail3;
    let tail1 = row1 + seq!['/'] + tail2;
    let tail0 = row0 + seq!['/'] + tail1;
    assert(start_field0() =~= tail0);
    crate::fen::lemma_split_join(row0, tail1, '/');
    crate::fen::lemma_split_join(row1, tail2, '/');
    crate::fen::lemma_split_join(row2, tail3, '/');
    crate::fen::lemma_split_join(row3, tail4, '/');
    crate::fen::lemma_split_join(row4, tail5, '/');
    crate::fen::lemma_split_join(row5, tail6, '/');
    crate::fen::lemma_split_join(row6, tail7, '/');
    crate::fen::lemma_split_none(row0, '/');
    crate::fen::lemma_split_none(row1, '/');
    crate::fen::lemma_split_none(row2, '/');
    crate::fen::lemma_split_none(row3, '/');
    crate::fen::lemma_split_none(row4, '/');
    crate::fen::lemma_split_none(row5, '/');
    crate::fen::lemma_split_none(row6, '/');
    crate::fen::lemma_split_none(row7, '/');
    assert(crate::fen::split_spec(start_field0(), '/') =~= rows);
}

/// The board after the first `r` ranks of the starting placement.
spec fn start_board(r: int) -> Seq<Option<Piece>> {
    Seq::new(64, |i: int| if i < 8 * r { starting_pieces()[i] } else { None })
}

/// The pieces of a row of `k` piece letters placed on rank `rank` of board `b`.
spec fn placed(row: Seq<char>, k: int, rank: int, b: Seq<Option<Piece>>) -> Seq<Option<Piece>> {
    Seq::new(
        64,
        |i: int|
            if 8 * rank <= i < 8 * rank + k {
                crate::piece::piece_of_char(row[i - 8 * rank])
            } else {
                b[i]
            },
    )
}

/// Reading a row of piece letters places them one after the other.
proof fn lemma_row_pieces(row: Seq<char>, k: nat, rank: int, b: Seq<Option<Piece>>)
    requires
        k <= row.len() <= 8,
        0 <= rank < 8,
        b.len() == 64,
        forall|j: int| 0 <= j < row.len() ==> (#[trigger] crate::piece::piece_of_char(row[j])) is Some && crate::fen::digit_of(row[j]) is None,
    ensures
        crate::fen::row_state(row, k, rank, b) == Ok::<(int, Seq<Option<Piece>>), FenError>((k as int, placed(row, k as int, rank, b))),
    decreases k,
{
    if k == 0 {
        assert(placed(row, 0, rank, b) =~= b);
    } else {
        lemma_row_pieces(row, (k - 1) as nat, rank, b);
        assert(crate::piece::piece_of_char(row[k - 1]) is Some);
        assert(placed(row, k - 1, rank, b).update(8 * rank + k - 1, crate::piece::piece_of_char(row[k - 1])) =~= placed(
            row,
            k as int,
            rank,
            b,
        ));
    }
}

#[verifier::rlimit(40)]
proof fn lemma_start_rank(r: nat)
    requires
        1 <= r <= 8,
        crate::fen::placement_spec(start_rows(), (r - 1) as nat) == Ok::<Seq<Option<Piece>>, FenError>(start_board(r - 1)),
    ensures
        crate::fen::placement_spec(start_rows(), r) == Ok::<Seq<Option<Piece>>, FenError>(start_board(r as int)),
{
    let row = start_rows()[8 - r];
    let b = start_board(r - 1);
    if 3 <= r <= 6 {
        assert(row =~= seq!['8']);
        assert(crate::fen::row_state(row, 1, r - 1, b) == Ok::<(int, Seq<Option<Piece>>), FenError>((8int, b)));
        assert(b =~= start_board(r as int));
    } else {
        lemma_row_pieces(row, 8, r - 1, b);
        assert(placed(row, 8, r - 1, b) =~= start_board(r as int));
    }
}

proof fn lemma_start_placement()
    ensures
        crate::fen::placement_spec(start_rows(), 8) == Ok::<Seq<Option<Piece>>, FenError>(starting_pieces()),
{
    assert(start_board(0) =~= crate::fen::empty_board());
    lemma_start_rank(1);
    lemma_start_rank(2);
    lemma_start_rank(3);
    lemma_start_rank(4);
    lemma_start_rank(5);
    lemma_start_rank(6);
    lemma_start_rank(7);
    lemma_start_rank(8);
    assert(start_board(8) =~= starting_pieces());
}

/// The FEN of the starting position, read, gives the starting position.
pub proof fn lemma_starting_fen()
    ensures
        parse_fen_spec(crate::fen::STARTING_FEN@) == Ok::<PositionState, FenError>(starting_state()),
{
    lemma_start_fields();
    lemma_start_rows();
    lemma_start_placement();
    assert(squares_with(starting_pieces(), Piece(PieceKind::King, Color::White)) =~= set![4int]);
    assert(squares_with(starting_pieces(), Piece(PieceKind::King, Color::Black)) =~= set![60int]);
    reveal_with_fuel(crate::fen::castling_state, 5);
    CastlingRights::lemma_grant_all();
    reveal_with_fuel(crate::fen::digits_value, 2);
    assert(crate::fen::parse_unsigned(seq!['0']) == Some(0int));
    assert(crate::fen::parse_unsigned(seq!['1']) == Some(1int));
    assert(seq!['w'] != seq!['b']) by {
        assert(seq!['w'][0] != seq!['b'][0]);
    }
}

} // verus!
