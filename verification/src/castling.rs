use vstd::prelude::*;

use crate::piece::{Color, Side};
use crate::square::Square;

verus! {

/// The square the king moves to when castling.
pub open spec fn castling_sq_spec(color: Color, side: Side) -> Square {
    match (color, side) {
        (Color::White, Side::KingSide) => Square::G1,
        (Color::White, Side::QueenSide) => Square::C1,
        (Color::Black, Side::KingSide) => Square::G8,
        (Color::Black, Side::QueenSide) => Square::C8,
    }
}

/// The square of the rook before castling.
pub open spec fn rook_sq_spec(color: Color, side: Side) -> Square {
    match (color, side) {
        (Color::White, Side::KingSide) => Square::H1,
        (Color::White, Side::QueenSide) => Square::A1,
        (Color::Black, Side::KingSide) => Square::H8,
        (Color::Black, Side::QueenSide) => Square::A8,
    }
}

/// The square of the rook after castling.
pub open spec fn castling_rook_sq_spec(color: Color, side: Side) -> Square {
    match (color, side) {
        (Color::White, Side::KingSide) => Square::F1,
        (Color::White, Side::QueenSide) => Square::D1,
        (Color::Black, Side::KingSide) => Square::F8,
        (Color::Black, Side::QueenSide) => Square::D8,
    }
}

/// The square of the king before castling.
pub open spec fn king_sq_spec(color: Color) -> Square {
    match color {
        Color::White => Square::E1,
        Color::Black => Square::E8,
    }
}

/// The four castling rights: white and black, king side and queen side.
#[derive(Clone, Copy, Debug, PartialEq, Eq, Structural)]
pub struct CastlingRights {
    w_king: bool,
    w_queen: bool,
    b_king: bool,
    b_queen: bool,
}

impl CastlingRights {
    /// Whether `color` may still castle on `side`.
    pub closed spec fn spec_get(self, color: Color, side: Side) -> bool {
        match (color, side) {
            (Color::White, Side::KingSide) => self.w_king,
            (Color::White, Side::QueenSide) => self.w_queen,
            (Color::Black, Side::KingSide) => self.b_king,
            (Color::Black, Side::QueenSide) => self.b_queen,
        }
    }

    /// Granting each of the four rights to no rights gives all four.
    pub proof fn lemma_grant_all()
        ensures
            CastlingRights::spec_new(false, false, false, false).spec_set(Color::White, Side::KingSide).spec_set(
                Color::White,
                Side::QueenSide,
            ).spec_set(Color::Black, Side::KingSide).spec_set(Color::Black, Side::QueenSide)
                == CastlingRights::spec_new(true, true, true, true),
    {
    }

    /// The rights made from four values have those values.
    pub proof fn lemma_new_get(w_king: bool, w_queen: bool, b_king: bool, b_queen: bool)
        ensures
            CastlingRights::spec_new(w_king, w_queen, b_king, b_queen).spec_get(Color::White, Side::KingSide)
                == w_king,
            CastlingRights::spec_new(w_king, w_queen, b_king, b_queen).spec_get(Color::White, Side::QueenSide)
                == w_queen,
            CastlingRights::spec_new(w_king, w_queen, b_king, b_queen).spec_get(Color::Black, Side::KingSide)
                == b_king,
            CastlingRights::spec_new(w_king, w_queen, b_king, b_queen).spec_get(Color::Black, Side::QueenSide)
                == b_queen,
    {
    }

    /// Granting one right adds that right and leaves the other three as they were.
    pub proof fn lemma_set_get(self, color: Color, side: Side)
        ensures
            forall|c: Color, s: Side| #[trigger] self.spec_set(color, side).spec_get(c, s) == (self.spec_get(c, s)
                || (c == color && s == side)),
    {
    }

    /// Two values with the same rights are equal.
    pub proof fn lemma_ext(a: CastlingRights, b: CastlingRights)
        requires
            forall|c: Color, s: Side| a.spec_get(c, s) == b.spec_get(c, s),
        ensures
            a == b,
    {
        assert(a.spec_get(Color::White, Side::KingSide) == b.spec_get(Color::White, Side::KingSide));
        assert(a.spec_get(Color::White, Side::QueenSide) == b.spec_get(Color::White, Side::QueenSide));
        assert(a.spec_get(Color::Black, Side::KingSide) == b.spec_get(Color::Black, Side::KingSide));
        assert(a.spec_get(Color::Black, Side::QueenSide) == b.spec_get(Color::Black, Side::QueenSide));
    }

    /// The rights with the given four values.
    pub closed spec fn spec_new(w_king: bool, w_queen: bool, b_king: bool, b_queen: bool) -> CastlingRights {
        CastlingRights { w_king, w_queen, b_king, b_queen }
    }

    pub fn new(w_king: bool, w_queen: bool, b_king: bool, b_queen: bool) -> (r: CastlingRights)
        ensures
            r == CastlingRights::spec_new(w_king, w_queen, b_king, b_queen),
            r.spec_get(Color::White, Side::KingSide) == w_king,
            r.spec_get(Color::White, Side::QueenSide) == w_queen,
            r.spec_get(Color::Black, Side::KingSide) == b_king,
            r.spec_get(Color::Black, Side::QueenSide) == b_queen,
    {
        CastlingRights { w_king, w_queen, b_king, b_queen }
    }

    /// The square the king of `color` moves to when castling on `side`.
    pub fn get_castling_sq(color: Color, side: Side) -> (r: Square)
        ensures
            r == castling_sq_spec(color, side),
    {
        match color {
            Color::White => match side {
                Side::KingSide => Square::G1,
                Side::QueenSide => Square::C1,
            },
            Color::Black => match side {
                Side::KingSide => Square::G8,
                Side::QueenSide => Square::C8,
            },
        }
    }

    /// The square of the rook of `color` on `side` before castling.
    pub fn get_rook_sq(color: Color, side: Side) -> (r: Square)
        ensures
            r == rook_sq_spec(color, side),
    {
        match color {
            Color::White => match side {
                Side::KingSide => Square::H1,
                Side::QueenSide => Square::A1,
            },
            Color::Black => match side {
                Side::KingSide => Square::H8,
                Side::QueenSide => Square::A8,
            },
        }
    }

    /// The square of the rook of `color` after castling on `side`.
    pub fn get_castling_rook_sq(color: Color, side: Side) -> (r: Square)
        ensures
            r == castling_rook_sq_spec(color, side),
    {
        match color {
            Color::White => match side {
                Side::KingSide => Square::F1,
                Side::QueenSide => Square::D1,
            },
            Color::Black => match side {
                Side::KingSide => Square::F8,
                Side::QueenSide => Square::D8,
            },
        }
    }

    /// Whether `color` may still castle on `side`.
    pub fn get(&self, color: Color, side: Side) -> (r: bool)
        ensures
            r == self.spec_get(color, side),
    {
        match color {
            Color::White => match side {
                Side::KingSide => self.w_king,
                Side::QueenSide => self.w_queen,
            },
            Color::Black => match side {
                Side::KingSide => self.b_king,
                Side::QueenSide => self.b_queen,
            },
        }
    }

    /// The rights with the right of `color` to castle on `side` granted.
    pub closed spec fn spec_set(self, color: Color, side: Side) -> CastlingRights {
        match (color, side) {
            (Color::White, Side::KingSide) => CastlingRights { w_king: true, ..self },
            (Color::White, Side::QueenSide) => CastlingRights { w_queen: true, ..self },
            (Color::Black, Side::KingSide) => CastlingRights { b_king: true, ..self },
            (Color::Black, Side::QueenSide) => CastlingRights { b_queen: true, ..self },
        }
    }

    /// Sets the right of `color` to castle on `side` to `value`.
    pub fn set(&mut self, color: Color, side: Side, value: bool)
        ensures
            final(self).spec_get(color, side) == value,
            forall|c: Color, s: Side| (c, s) != (color, side) ==> final(self).spec_get(c, s)
                == old(self).spec_get(c, s),
            value ==> *final(self) == old(self).spec_set(color, side),
    {
        match color {
            Color::White => match side {
                Side::KingSide => self.w_king = value,
                Side::QueenSide => self.w_queen = value,
            },
            Color::Black => match side {
                Side::KingSide => self.b_king = value,
                Side::QueenSide => self.b_queen = value,
            },
        };
    }

    /// The rights without those of `color` that the mask `rights` names: bit 0 of
    /// `rights` stands for the king side, bit 1 for the queen side.
    pub closed spec fn spec_remove(self, color: Color, rights: u8) -> CastlingRights {
        let k = removes_side(rights, Side::KingSide);
        let q = removes_side(rights, Side::QueenSide);
        match color {
            Color::White => CastlingRights {
                w_king: self.w_king && !k,
                w_queen: self.w_queen && !q,
                ..self
            },
            Color::Black => CastlingRights {
                b_king: self.b_king && !k,
                b_queen: self.b_queen && !q,
                ..self
            },
        }
    }

    pub proof fn lemma_spec_remove(self, color: Color, rights: u8)
        ensures
            forall|c: Color, s: Side| #[trigger] self.spec_remove(color, rights).spec_get(c, s)
                == (self.spec_get(c, s) && !(c == color && removes_side(rights, s))),
    {
    }

    /// Removes rights of `color`: bit 0 of `rights` stands for the king side, bit 1
    /// for the queen side.
    pub fn remove(&mut self, color: Color, rights: u8)
        requires
            rights <= 3,
        ensures
            *final(self) == old(self).spec_remove(color, rights),
            forall|c: Color, s: Side| #[trigger] final(self).spec_get(c, s) == (old(self).spec_get(c, s)
                && !(c == color && removes_side(rights, s))),
    {
        if rights == 1 || rights == 3 {
            self.set(color, Side::KingSide, false);
        }
        if rights == 2 || rights == 3 {
            self.set(color, Side::QueenSide, false);
        }
        proof {
            let r = old(self).spec_remove(color, rights);
            old(self).lemma_spec_remove(color, rights);
            CastlingRights::lemma_ext(*self, r);
        }
    }
}

/// Whether the mask `rights` (bit 0 king side, bit 1 queen side) covers `side`.
pub open spec fn removes_side(rights: u8, side: Side) -> bool {
    match side {
        Side::KingSide => rights == 1 || rights == 3,
        Side::QueenSide => rights == 2 || rights == 3,
    }
}

} // verus!
