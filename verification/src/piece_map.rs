use vstd::prelude::*;

use crate::bitboard::Bitboard;
use crate::piece::{Color, Piece, PieceKind};
use crate::square::Square;

verus! {

/// The squares holding piece `p` in the board `m`.
pub open spec fn squares_with(m: Seq<Option<Piece>>, p: Piece) -> Set<int> {
    Set::new(|i: int| 0 <= i < 64 && m[i] == Some(p))
}

/// The squares holding a piece of color `c` in the board `m`.
pub open spec fn squares_of_color(m: Seq<Option<Piece>>, c: Color) -> Set<int> {
    Set::new(|i: int| 0 <= i < 64 && m[i] is Some && m[i].unwrap().1 == c)
}

/// The occupied squares of the board `m`.
pub open spec fn occupied_squares(m: Seq<Option<Piece>>) -> Set<int> {
    Set::new(|i: int| 0 <= i < 64 && m[i] is Some)
}

/// The bitboards of the pieces of one color.
#[derive(Clone, Copy, Debug, PartialEq, Eq, Structural)]
struct PieceBoards {
    pawn: Bitboard,
    knight: Bitboard,
    bishop: Bitboard,
    rook: Bitboard,
    queen: Bitboard,
    king: Bitboard,
    occupied: Bitboard,
}

impl PieceBoards {
    spec fn spec_get(self, kind: PieceKind) -> Bitboard {
        match kind {
            PieceKind::Pawn => self.pawn,
            PieceKind::Knight => self.knight,
            PieceKind::Bishop => self.bishop,
            PieceKind::Rook => self.rook,
            PieceKind::Queen => self.queen,
            PieceKind::King => self.king,
        }
    }

    fn new() -> (r: PieceBoards)
        ensures
            forall|k: PieceKind| #[trigger] r.spec_get(k)@ == Set::<int>::empty(),
            r.occupied@ == Set::<int>::empty(),
    {
        PieceBoards {
            pawn: Bitboard::new(),
            knight: Bitboard::new(),
            bishop: Bitboard::new(),
            rook: Bitboard::new(),
            queen: Bitboard::new(),
            king: Bitboard::new(),
            occupied: Bitboard::new(),
        }
    }

    fn get(&self, kind: PieceKind) -> (r: Bitboard)
        ensures
            r == self.spec_get(kind),
    {
        match kind {
            PieceKind::Pawn => self.pawn,
            PieceKind::Knight => self.knight,
            PieceKind::Bishop => self.bishop,
            PieceKind::Rook => self.rook,
            PieceKind::Queen => self.queen,
            PieceKind::King => self.king,
        }
    }

    fn set_sq(&mut self, kind: PieceKind, sq: Square)
        ensures
            final(self).spec_get(kind)@ == old(self).spec_get(kind)@.insert(sq.idx()),
            forall|k: PieceKind| k != kind ==> #[trigger] final(self).spec_get(k) == old(self).spec_get(k),
            final(self).occupied@ == old(self).occupied@.insert(sq.idx()),
    {
        match kind {
            PieceKind::Pawn => self.pawn = self.pawn.add_sq(sq),
            PieceKind::Knight => self.knight = self.knight.add_sq(sq),
            PieceKind::Bishop => self.bishop = self.bishop.add_sq(sq),
            PieceKind::Rook => self.rook = self.rook.add_sq(sq),
            PieceKind::Queen => self.queen = self.queen.add_sq(sq),
            PieceKind::King => self.king = self.king.add_sq(sq),
        }
        self.occupied = self.occupied.add_sq(sq);
    }

    fn unset_sq(&mut self, kind: PieceKind, sq: Square)
        ensures
            final(self).spec_get(kind)@ == old(self).spec_get(kind)@.remove(sq.idx()),
            forall|k: PieceKind| k != kind ==> #[trigger] final(self).spec_get(k) == old(self).spec_get(k),
            final(self).occupied@ == old(self).occupied@.remove(sq.idx()),
    {
        match kind {
            PieceKind::Pawn => self.pawn = self.pawn.remove_sq(sq),
            PieceKind::Knight => self.knight = self.knight.remove_sq(sq),
            PieceKind::Bishop => self.bishop = self.bishop.remove_sq(sq),
            PieceKind::Rook => self.rook = self.rook.remove_sq(sq),
            PieceKind::Queen => self.queen = self.queen.remove_sq(sq),
            PieceKind::King => self.king = self.king.remove_sq(sq),
        }
        self.occupied = self.occupied.remove_sq(sq);
    }
}

/// The pieces on the board, held both square by square and as one bitboard per piece.
pub struct BitboardPieceMap {
    white_pieces: PieceBoards,
    black_pieces: PieceBoards,
    map: Vec<Option<Piece>>,
}

impl View for BitboardPieceMap {
    type V = Seq<Option<Piece>>;

    closed spec fn view(&self) -> Seq<Option<Piece>> {
        self.map@
    }
}

impl BitboardPieceMap {
    spec fn boards(self, c: Color) -> PieceBoards {
        match c {
            Color::White => self.white_pieces,
            Color::Black => self.black_pieces,
        }
    }

    /// The bitboard of piece `p`.
    pub closed spec fn spec_bb(self, p: Piece) -> Bitboard {
        self.boards(p.1).spec_get(p.0)
    }

    /// The bitboards agree with the square by square map.
    pub closed spec fn wf(self) -> bool {
        &&& self.map@.len() == 64
        &&& forall|p: Piece, i: int|
            0 <= i < 64 ==> (#[trigger] self.spec_bb(p)@.contains(i) <==> self.map@[i] == Some(p))
        &&& forall|p: Piece, i: int| #[trigger] self.spec_bb(p)@.contains(i) ==> 0 <= i < 64
        &&& forall|c: Color, i: int|
            0 <= i < 64 ==> (#[trigger] self.boards(c).occupied@.contains(i) <==> (self.map@[i] is Some
                && self.map@[i].unwrap().1 == c))
        &&& forall|c: Color, i: int| #[trigger] self.boards(c).occupied@.contains(i) ==> 0 <= i < 64
    }

    pub proof fn lemma_len(self)
        requires
            self.wf(),
        ensures
            self@.len() == 64,
    {
    }

    proof fn lemma_bb(self, p: Piece)
        requires
            self.wf(),
        ensures
            self.spec_bb(p)@ == squares_with(self@, p),
    {
        assert(self.spec_bb(p)@ =~= squares_with(self@, p));
    }

    proof fn lemma_occ(self, c: Color)
        requires
            self.wf(),
        ensures
            self.boards(c).occupied@ == squares_of_color(self@, c),
    {
        assert(self.boards(c).occupied@ =~= squares_of_color(self@, c));
    }

    /// An empty board.
    pub fn new() -> (r: BitboardPieceMap)
        ensures
            r.wf(),
            r@ == Seq::new(64, |i: int| None::<Piece>),
    {
        let mut map: Vec<Option<Piece>> = Vec::new();
        let mut i: usize = 0;
        while i < 64
            invariant
                i <= 64,
                map@ == Seq::new(i as nat, |j: int| None::<Piece>),
            decreases 64 - i,
        {
            map.push(None);
            i = i + 1;
            assert(map@ =~= Seq::new(i as nat, |j: int| None::<Piece>));
        }
        let r = BitboardPieceMap {
            white_pieces: PieceBoards::new(),
            black_pieces: PieceBoards::new(),
            map,
        };
        proof {
            assert forall|p: Piece, i: int| #![auto] 0 <= i < 64 implies (r.spec_bb(p)@.contains(i)
                <==> r.map@[i] == Some(p)) by {
                assert(r.spec_bb(p) == r.boards(p.1).spec_get(p.0));
            }
            assert forall|p: Piece, i: int| #[trigger] r.spec_bb(p)@.contains(i) implies 0 <= i < 64 by {
                assert(r.spec_bb(p) == r.boards(p.1).spec_get(p.0));
            }
        }
        r
    }

    /// The Zobrist hash of the pieces.
    pub fn hash(&self) -> (r: u64)
        requires
            self.wf(),
        ensures
            r == crate::zobrist::pieces_hash(self@, 64),
    {
        crate::zobrist::pieces_hash_exec(&self.map, 64)
    }

    /// The piece on `sq`, if any.
    pub fn get(&self, sq: Square) -> (r: Option<Piece>)
        requires
            self.wf(),
        ensures
            r == self@[sq.idx()],
    {
        self.map[sq.index() as usize]
    }

    /// The bitboard of piece `pce`.
    pub fn get_bb(&self, pce: Piece) -> (r: Bitboard)
        requires
            self.wf(),
        ensures
            r@ == squares_with(self@, pce),
    {
        proof {
            self.lemma_bb(pce);
        }
        match pce.color() {
            Color::White => self.white_pieces.get(pce.kind()),
            Color::Black => self.black_pieces.get(pce.kind()),
        }
    }

    /// The squares occupied by pieces of `color`.
    pub fn get_occ_for(&self, color: Color) -> (r: Bitboard)
        requires
            self.wf(),
        ensures
            r@ == squares_of_color(self@, color),
    {
        proof {
            self.lemma_occ(color);
        }
        match color {
            Color::White => self.white_pieces.occupied,
            Color::Black => self.black_pieces.occupied,
        }
    }

    /// All occupied squares.
    pub fn get_occ(&self) -> (r: Bitboard)
        requires
            self.wf(),
        ensures
            r@ == occupied_squares(self@),
    {
        let r = self.get_occ_for(Color::White).union(self.get_occ_for(Color::Black));
        proof {
            assert forall|i: int| r@.contains(i) == occupied_squares(self@).contains(i) by {
                if 0 <= i < 64 && self@[i] is Some {
                    let c = self@[i].unwrap().1;
                    assert(c == Color::White || c == Color::Black);
                }
            }
            assert(r@ =~= occupied_squares(self@));
        }
        r
    }

    /// The square of the king of `color`: the lowest one if there are several.
    pub fn get_king_sq(&self, color: Color) -> (r: Square)
        requires
            self.wf(),
            exists|i: int| 0 <= i < 64 && self@[i] == Some(Piece(PieceKind::King, color)),
        ensures
            self@[r.idx()] == Some(Piece(PieceKind::King, color)),
            forall|j: int| 0 <= j < r.idx() ==> self@[j] != Some(Piece(PieceKind::King, color)),
    {
        let king = self.get_bb(Piece(PieceKind::King, color));
        proof {
            let i = choose|i: int| 0 <= i < 64 && self@[i] == Some(Piece(PieceKind::King, color));
            assert(king@.contains(i));
        }
        let r = king.first_sq();
        proof {
            assert forall|j: int| 0 <= j < r.idx() implies self@[j] != Some(Piece(PieceKind::King, color)) by {
                assert(!king@.contains(j));
            }
        }
        r
    }

    /// Whether the two maps hold the same pieces on the same squares.
    pub fn same_pieces(&self, other: &BitboardPieceMap) -> (r: bool)
        requires
            self.wf(),
            other.wf(),
        ensures
            r == (self@ == other@),
    {
        let mut i: usize = 0;
        while i < 64
            invariant
                i <= 64,
                self.map@.len() == 64,
                other.map@.len() == 64,
                forall|j: int| 0 <= j < i ==> self.map@[j] == other.map@[j],
            decreases 64 - i,
        {
            let same = match (self.map[i], other.map[i]) {
                (None, None) => true,
                (Some(a), Some(b)) => a == b,
                _ => false,
            };
            if !same {
                return false;
            }
            i = i + 1;
        }
        assert(self.map@ =~= other.map@);
        true
    }

    /// Puts `pce` on the empty square `sq`.
    pub fn set_sq(&mut self, sq: Square, pce: Piece)
        requires
            old(self).wf(),
            old(self)@[sq.idx()] is None,
        ensures
            final(self).wf(),
            final(self)@ == old(self)@.update(sq.idx(), Some(pce)),
    {
        match pce.color() {
            Color::White => self.white_pieces.set_sq(pce.kind(), sq),
            Color::Black => self.black_pieces.set_sq(pce.kind(), sq),
        }
        self.map.set(sq.index() as usize, Some(pce));
        proof {
            let o = *old(self);
            assert forall|p: Piece, i: int| 0 <= i < 64 implies (#[trigger] self.spec_bb(p)@.contains(i)
                <==> self.map@[i] == Some(p)) by {
                assert(o.spec_bb(p)@.contains(i) <==> o.map@[i] == Some(p));
            }
            assert forall|p: Piece, i: int| #[trigger] self.spec_bb(p)@.contains(i) implies 0 <= i < 64 by {
                if i != sq.idx() {
                    assert(o.spec_bb(p)@.contains(i));
                }
            }
            assert forall|c: Color, i: int| 0 <= i < 64 implies (#[trigger] self.boards(c).occupied@.contains(i)
                <==> (self.map@[i] is Some && self.map@[i].unwrap().1 == c)) by {
                assert(o.boards(c).occupied@.contains(i) <==> (o.map@[i] is Some && o.map@[i].unwrap().1 == c));
            }
            assert forall|c: Color, i: int| #[trigger] self.boards(c).occupied@.contains(i) implies 0 <= i < 64 by {
                if i != sq.idx() {
                    assert(o.boards(c).occupied@.contains(i));
                }
            }
        }
    }

    /// Removes the piece on `sq`, if any.
    pub fn unset_sq(&mut self, sq: Square)
        requires
            old(self).wf(),
        ensures
            final(self).wf(),
            final(self)@ == old(self)@.update(sq.idx(), None),
    {
        let old_pce = self.map[sq.index() as usize];
        match old_pce {
            Some(pce) => {
                match pce.color() {
                    Color::White => self.white_pieces.unset_sq(pce.kind(), sq),
                    Color::Black => self.black_pieces.unset_sq(pce.kind(), sq),
                }
            },
            None => {},
        }
        self.map.set(sq.index() as usize, None);
        proof {
            let o = *old(self);
            assert forall|p: Piece, i: int| 0 <= i < 64 implies (#[trigger] self.spec_bb(p)@.contains(i)
                <==> self.map@[i] == Some(p)) by {
                assert(o.spec_bb(p)@.contains(i) <==> o.map@[i] == Some(p));
            }
            assert forall|p: Piece, i: int| #[trigger] self.spec_bb(p)@.contains(i) implies 0 <= i < 64 by {
                assert(o.spec_bb(p)@.contains(i));
            }
            assert forall|c: Color, i: int| 0 <= i < 64 implies (#[trigger] self.boards(c).occupied@.contains(i)
                <==> (self.map@[i] is Some && self.map@[i].unwrap().1 == c)) by {
                assert(o.boards(c).occupied@.contains(i) <==> (o.map@[i] is Some && o.map@[i].unwrap().1 == c));
            }
            assert forall|c: Color, i: int| #[trigger] self.boards(c).occupied@.contains(i) implies 0 <= i < 64 by {
                assert(o.boards(c).occupied@.contains(i));
            }
        }
    }
}


/// The items of `v`, copied.
pub fn copy_vec<T: Copy>(v: &Vec<T>) -> (r: Vec<T>)
    ensures
        r@ == v@,
{
    let mut r: Vec<T> = Vec::new();
    let mut i: usize = 0;
    while i < v.len()
        invariant
            i <= v@.len(),
            r@ == v@.subrange(0, i as int),
        decreases v@.len() - i,
    {
        r.push(v[i]);
        i = i + 1;
    }
    assert(r@ =~= v@);
    r
}

impl Clone for BitboardPieceMap {
    fn clone(&self) -> (r: Self)
        ensures
            r@ == self@,
            self.wf() ==> r.wf(),
    {
        let map = copy_vec(&self.map);
        let r = BitboardPieceMap { white_pieces: self.white_pieces, black_pieces: self.black_pieces, map };
        proof {
            assert forall|p: Piece| #[trigger] r.spec_bb(p) == self.spec_bb(p) by {}
            assert forall|c: Color| #[trigger] r.boards(c) == self.boards(c) by {}
        }
        r
    }
}
} // verus!
