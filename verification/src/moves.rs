use vstd::prelude::*;

use arrayvec::ArrayVec;

use crate::piece::{kind_letter, PieceKind};
use crate::square::Square;

verus! {

/// A chess move.
#[derive(Clone, Copy, Debug, PartialEq, Eq, Structural)]
pub enum Move {
    Regular(Square, Square),
    Castling(Square, Square),
    Promotion(Square, Square, PieceKind),
    EnPassant(Square, Square),
}

/// The characters `file` and `rank` name a square, such as `e4`.
pub open spec fn square_chars(file: char, rank: char) -> bool {
    'a' <= file <= 'h' && '1' <= rank <= '8'
}

/// The first four characters of `value` name the start and end squares of `m`.
pub open spec fn written_as(value: Seq<char>, m: Move) -> bool {
    &&& m.spec_from().spec_file() == value[0] as int - 'a' as int
    &&& m.spec_from().spec_rank() == value[1] as int - '1' as int
    &&& m.spec_to().spec_file() == value[2] as int - 'a' as int
    &&& m.spec_to().spec_rank() == value[3] as int - '1' as int
}

impl Move {
    pub open spec fn spec_from(self) -> Square {
        match self {
            Move::Regular(f, _) => f,
            Move::Castling(f, _) => f,
            Move::Promotion(f, _, _) => f,
            Move::EnPassant(f, _) => f,
        }
    }

    pub open spec fn spec_to(self) -> Square {
        match self {
            Move::Regular(_, t) => t,
            Move::Castling(_, t) => t,
            Move::Promotion(_, t, _) => t,
            Move::EnPassant(_, t) => t,
        }
    }

    /// The square the move starts from.
    pub fn from(self) -> (r: Square)
        ensures
            r == self.spec_from(),
    {
        match self {
            Move::Regular(from, _) | Move::Castling(from, _) | Move::Promotion(from, _, _)
            | Move::EnPassant(from, _) => from,
        }
    }

    /// The square the move ends on.
    pub fn to(self) -> (r: Square)
        ensures
            r == self.spec_to(),
    {
        match self {
            Move::Regular(_, to) | Move::Castling(_, to) | Move::Promotion(_, to, _)
            | Move::EnPassant(_, to) => to,
        }
    }

    pub fn new_regular(from: Square, to: Square) -> (r: Move)
        ensures
            r == Move::Regular(from, to),
    {
        Move::Regular(from, to)
    }

    pub fn new_castling(from: Square, to: Square) -> (r: Move)
        ensures
            r == Move::Castling(from, to),
    {
        Move::Castling(from, to)
    }

    pub fn new_promotion(from: Square, to: Square, kind: PieceKind) -> (r: Move)
        ensures
            r == Move::Promotion(from, to, kind),
    {
        Move::Promotion(from, to, kind)
    }

    pub fn new_en_passant(from: Square, to: Square) -> (r: Move)
        ensures
            r == Move::EnPassant(from, to),
    {
        Move::EnPassant(from, to)
    }

    /// Finds the move among `legal_moves` written as `value` in long algebraic notation
    /// (`e2e4`, `e7e8q`): the first one with the same start and end squares.
    pub fn try_from(value: &str, legal_moves: &[Move]) -> (r: Result<Move, String>)
        ensures
            !(4 <= value@.len() <= 5) ==> r is Err && r->Err_0@ == "Invalid move"@ + " '"@ + value@ + "'"@,
            4 <= value@.len() <= 5 && !(square_chars(value@[0], value@[1]) && square_chars(value@[2], value@[3]))
                ==> r is Err && r->Err_0@ == "Invalid square"@ + " '"@ + value@ + "'"@,
            4 <= value@.len() <= 5 && square_chars(value@[0], value@[1]) && square_chars(value@[2], value@[3])
                ==> match r {
                Ok(m) => exists|i: int|
                    0 <= i < legal_moves@.len() && legal_moves@[i] == m && written_as(value@, m) && forall|j: int|
                        0 <= j < i ==> !written_as(value@, #[trigger] legal_moves@[j]),
                Err(e) => e@ == "Illegal move"@ + " '"@ + value@ + "'"@ && forall|i: int|
                    0 <= i < legal_moves@.len() ==> !written_as(value@, #[trigger] legal_moves@[i]),
            },
    {
        let len = value.unicode_len();
        if len < 4 || len > 5 {
            return Err(quoted_message("Invalid move", value));
        }
        let from = match Square::from_chars(value.get_char(0), value.get_char(1)) {
            Some(sq) => sq,
            None => return Err(quoted_message("Invalid square", value)),
        };
        let to = match Square::from_chars(value.get_char(2), value.get_char(3)) {
            Some(sq) => sq,
            None => return Err(quoted_message("Invalid square", value)),
        };
        let mut i: usize = 0;
        while i < legal_moves.len()
            invariant
                i <= legal_moves@.len(),
                4 <= value@.len() <= 5,
                from.spec_file() == value@[0] as int - 'a' as int,
                from.spec_rank() == value@[1] as int - '1' as int,
                to.spec_file() == value@[2] as int - 'a' as int,
                to.spec_rank() == value@[3] as int - '1' as int,
                forall|j: int| 0 <= j < i ==> !written_as(value@, #[trigger] legal_moves@[j]),
            decreases legal_moves@.len() - i,
        {
            let mv = legal_moves[i];
            proof {
                Square::lemma_idx_injective(mv.spec_from(), from);
                Square::lemma_idx_injective(mv.spec_to(), to);
            }
            if mv.from() == from && mv.to() == to {
                return Ok(mv);
            }
            i = i + 1;
        }
        Err(quoted_message("Illegal move", value))
    }
}

/// The message `prefix '<value>'`.
pub(crate) fn quoted_message(prefix: &str, value: &str) -> (r: String)
    ensures
        r@ == prefix@ + " '"@ + value@ + "'"@,
{
    let mut r = String::from_str(prefix);
    r.append(" '");
    r.append(value);
    r.append("'");
    r
}

/// The items held by an `ArrayVec` of moves.
pub uninterp spec fn move_items(v: ArrayVec<Move, 256>) -> Seq<Move>;

#[verifier::external_type_specification]
#[verifier::external_body]
#[verifier::reject_recursive_types(T)]
pub struct ExArrayVec<T, const CAP: usize>(ArrayVec<T, CAP>);

/// `ArrayVec::new`: an empty vector.
#[verifier::external_body]
fn array_vec_new() -> (r: ArrayVec<Move, 256>)
    ensures
        move_items(r) == Seq::<Move>::empty(),
{
    ArrayVec::new()
}

/// `ArrayVec::try_push`: appends `m` when the vector holds fewer than 256 items, and
/// leaves it unchanged otherwise.
#[verifier::external_body]
fn array_vec_try_push(v: &mut ArrayVec<Move, 256>, m: Move) -> (r: bool)
    ensures
        r == (move_items(*old(v)).len() < 256),
        r ==> move_items(*final(v)) == move_items(*old(v)).push(m),
        !r ==> move_items(*final(v)) == move_items(*old(v)),
{
    v.try_push(m).is_ok()
}

/// `ArrayVec::len`: the number of items, which never exceeds the capacity.
#[verifier::external_body]
fn array_vec_len(v: &ArrayVec<Move, 256>) -> (r: usize)
    ensures
        r == move_items(*v).len(),
        r <= 256,
{
    v.len()
}

/// `ArrayVec::as_slice`: the items as a slice.
#[verifier::external_body]
fn array_vec_as_slice(v: &ArrayVec<Move, 256>) -> (r: &[Move])
    ensures
        r@ == move_items(*v),
{
    v.as_slice()
}

/// A list of at most 256 moves.
pub struct MoveList(ArrayVec<Move, 256>);

impl View for MoveList {
    type V = Seq<Move>;

    closed spec fn view(&self) -> Seq<Move> {
        move_items(self.0)
    }
}

impl MoveList {
    pub fn new() -> (r: MoveList)
        ensures
            r@ == Seq::<Move>::empty(),
    {
        MoveList(array_vec_new())
    }

    /// Appends `m`; a full list (256 moves) is left unchanged.
    pub fn push(&mut self, m: Move)
        ensures
            old(self)@.len() < 256 ==> final(self)@ == old(self)@.push(m),
            old(self)@.len() >= 256 ==> final(self)@ == old(self)@,
    {
        let _ = array_vec_try_push(&mut self.0, m);
    }

    pub fn len(&self) -> (r: usize)
        ensures
            r == self@.len(),
            r <= 256,
    {
        array_vec_len(&self.0)
    }

    pub fn is_empty(&self) -> (r: bool)
        ensures
            r == (self@.len() == 0),
    {
        self.len() == 0
    }

    /// The moves, as a slice.
    pub fn as_slice(&self) -> (r: &[Move])
        ensures
            r@ == self@,
    {
        array_vec_as_slice(&self.0)
    }

    /// The move at `index`, if there is one.
    pub fn get(&self, index: usize) -> (r: Option<Move>)
        ensures
            index < self@.len() ==> r == Some(self@[index as int]),
            index >= self@.len() ==> r is None,
    {
        let s = self.as_slice();
        if index < s.len() {
            Some(s[index])
        } else {
            None
        }
    }

    /// Whether `m` is in the list.
    pub fn contains(&self, m: Move) -> (r: bool)
        ensures
            r == self@.contains(m),
    {
        let s = self.as_slice();
        let mut i: usize = 0;
        while i < s.len()
            invariant
                i <= s@.len(),
                s@ == self@,
                forall|j: int| 0 <= j < i ==> s@[j] != m,
            decreases s@.len() - i,
        {
            if s[i] == m {
                return true;
            }
            i = i + 1;
        }
        false
    }

    /// The moves, as a `Vec`.
    pub fn into_vec(self) -> (r: Vec<Move>)
        ensures
            r@ == self@,
    {
        let s = self.as_slice();
        let mut v: Vec<Move> = Vec::new();
        let mut i: usize = 0;
        while i < s.len()
            invariant
                i <= s@.len(),
                v@ == s@.subrange(0, i as int),
            decreases s@.len() - i,
        {
            v.push(s[i]);
            i = i + 1;
        }
        assert(v@ =~= s@);
        v
    }
}

/// A move as written by a user: start and end squares and an optional promotion.
#[derive(Clone, Copy, Debug, PartialEq, Eq, Structural)]
pub struct PseudoMove {
    pub from: Square,
    pub to: Square,
    pub promotion: Option<PieceKind>,
}

impl PseudoMove {
    pub fn new(from: Square, to: Square, promotion: Option<PieceKind>) -> (r: PseudoMove)
        ensures
            r == (PseudoMove { from, to, promotion }),
    {
        PseudoMove { from, to, promotion }
    }

    /// Whether the pseudo move designates `mv`: same squares, and for a promotion the
    /// same promotion piece.
    pub open spec fn designates(self, mv: Move) -> bool {
        &&& self.from == mv.spec_from()
        &&& self.to == mv.spec_to()
        &&& match mv {
            Move::Promotion(_, _, kind) => self.promotion == Some(kind),
            _ => true,
        }
    }

    /// Whether the pseudo move designates `mv`.
    pub fn matches(self, mv: Move) -> (r: bool)
        ensures
            r == self.designates(mv),
    {
        self.from == mv.from() && self.to == mv.to() && match mv {
            Move::Promotion(_, _, kind) => self.promotion == Some(kind),
            _ => true,
        }
    }

    /// The pseudo move of `mv`.
    pub fn from_move(mv: Move) -> (r: PseudoMove)
        ensures
            r.designates(mv),
            r.promotion is Some <==> mv is Promotion,
    {
        PseudoMove {
            from: mv.from(),
            to: mv.to(),
            promotion: match mv {
                Move::Promotion(_, _, kind) => Some(kind),
                _ => None,
            },
        }
    }

    /// The first of `legal_moves` that this pseudo move designates.
    pub fn into_move(self, legal_moves: &[Move]) -> (r: Result<Move, String>)
        ensures
            r is Ok ==> self.designates(r->Ok_0) && exists|i: int|
                0 <= i < legal_moves@.len() && legal_moves@[i] == r->Ok_0 && forall|j: int|
                    0 <= j < i ==> !self.designates(#[trigger] legal_moves@[j]),
            r is Err ==> forall|i: int| 0 <= i < legal_moves@.len() ==> !self.designates(
                #[trigger] legal_moves@[i]),
            r is Err ==> r->Err_0@ == "Illegal move '"@ + square_text(self.from) + square_text(self.to) + "'"@,
    {
        let mut i: usize = 0;
        while i < legal_moves.len()
            invariant
                i <= legal_moves@.len(),
                forall|j: int| 0 <= j < i ==> !self.designates(#[trigger] legal_moves@[j]),
            decreases legal_moves@.len() - i,
        {
            let mv = legal_moves[i];
            if self.matches(mv) {
                return Ok(mv);
            }
            i = i + 1;
        }
        Err(illegal_move_message(self))
    }

    /// Parses long algebraic notation: `e2e4`, or `e7e8q` with a promotion letter.
    pub fn from_str(s: &str) -> (r: Result<PseudoMove, String>)
        ensures
            r is Ok <==> ((s@.len() == 4 || s@.len() == 5)
                && 'a' <= s@[0] <= 'h' && '1' <= s@[1] <= '8'
                && 'a' <= s@[2] <= 'h' && '1' <= s@[3] <= '8'
                && (s@.len() == 5 ==> exists|k: PieceKind| s@[4] == kind_letter(k)
                    || s@[4] == crate::piece::upper(kind_letter(k)))),
            r is Ok ==> r->Ok_0.from.spec_file() == s@[0] as int - 'a' as int
                && r->Ok_0.from.spec_rank() == s@[1] as int - '1' as int
                && r->Ok_0.to.spec_file() == s@[2] as int - 'a' as int
                && r->Ok_0.to.spec_rank() == s@[3] as int - '1' as int
                && (s@.len() == 4 <==> r->Ok_0.promotion is None),
            r is Ok && s@.len() == 5 ==> (s@[4] == kind_letter(r->Ok_0.promotion->0) || s@[4] == crate::piece::upper(
                kind_letter(r->Ok_0.promotion->0),
            )),
    {
        let len = s.unicode_len();
        if len == 4 || len == 5 {
            let from = match Square::from_chars(s.get_char(0), s.get_char(1)) {
                Some(sq) => sq,
                None => return Err(quoted_message("Invalid square", s)),
            };
            let to = match Square::from_chars(s.get_char(2), s.get_char(3)) {
                Some(sq) => sq,
                None => return Err(quoted_message("Invalid square", s)),
            };
            let promotion = if len == 5 {
                match PieceKind::try_from_char(s.get_char(4)) {
                    Ok(kind) => Some(kind),
                    Err(_) => return Err(quoted_message("Invalid promotion", s)),
                }
            } else {
                None
            };
            Ok(PseudoMove { from, to, promotion })
        } else {
            Err(quoted_message("Invalid move", s))
        }
    }
}

/// The message `Illegal move '<from><to>'` for a pseudo move.
pub(crate) fn illegal_move_message(mv: PseudoMove) -> (r: String)
    ensures
        r@ == "Illegal move '"@ + square_text(mv.from) + square_text(mv.to) + "'"@,
{
    let mut r = String::from_str("Illegal move '");
    append_square(&mut r, mv.from);
    append_square(&mut r, mv.to);
    r.append("'");
    r
}

/// The name of a square, such as `e4`.
pub open spec fn square_text(sq: Square) -> Seq<char> {
    seq![('a' as int + sq.spec_file()) as char, ('1' as int + sq.spec_rank()) as char]
}

/// The move in long algebraic notation: `e2e4`, `e7e8q` for a promotion.
pub open spec fn move_text(mv: Move) -> Seq<char> {
    let base = square_text(mv.spec_from()) + square_text(mv.spec_to());
    match mv {
        Move::Promotion(_, _, kind) => base.push(kind_letter(kind)),
        _ => base,
    }
}

/// What `to_uci` writes reads back as the move: four characters naming its start and end
/// squares, then for a promotion a fifth, the letter of the new piece, so that `from_str`
/// accepts it and gives the move's squares and promotion.
pub proof fn lemma_move_text_reads_back(m: Move)
    ensures
        move_text(m).len() == if m is Promotion { 5int } else { 4int },
        square_chars(move_text(m)[0], move_text(m)[1]),
        square_chars(move_text(m)[2], move_text(m)[3]),
        written_as(move_text(m), m),
        m matches Move::Promotion(_, _, kind) ==> move_text(m)[4] == kind_letter(kind),
{
    m.spec_from().lemma_idx_bound();
    m.spec_to().lemma_idx_bound();
    let f = m.spec_from().idx();
    let g = m.spec_to().idx();
    assert(0 <= f % 8 < 8 && 0 <= f / 8 < 8);
    assert(0 <= g % 8 < 8 && 0 <= g / 8 < 8);
}

/// The one-character string of `c`, one of the letters and digits of move notation.
fn letter_str(c: char) -> (r: &'static str)
    requires
        'a' <= c <= 'h' || '1' <= c <= '8' || c == 'p' || c == 'n' || c == 'b' || c == 'r' || c == 'q'
            || c == 'k',
    ensures
        r@ == seq![c],
{
    match c {
        'a' => {
            proof {
                reveal_strlit("a");
            }
            "a"
        },
        'b' => {
            proof {
                reveal_strlit("b");
            }
            "b"
        },
        'c' => {
            proof {
                reveal_strlit("c");
            }
            "c"
        },
        'd' => {
            proof {
                reveal_strlit("d");
            }
            "d"
        },
        'e' => {
            proof {
                reveal_strlit("e");
            }
            "e"
        },
        'f' => {
            proof {
                reveal_strlit("f");
            }
            "f"
        },
        'g' => {
            proof {
                reveal_strlit("g");
            }
            "g"
        },
        'h' => {
            proof {
                reveal_strlit("h");
            }
            "h"
        },
        '1' => {
            proof {
                reveal_strlit("1");
            }
            "1"
        },
        '2' => {
            proof {
                reveal_strlit("2");
            }
            "2"
        },
        '3' => {
            proof {
                reveal_strlit("3");
            }
            "3"
        },
        '4' => {
            proof {
                reveal_strlit("4");
            }
            "4"
        },
        '5' => {
            proof {
                reveal_strlit("5");
            }
            "5"
        },
        '6' => {
            proof {
                reveal_strlit("6");
            }
            "6"
        },
        '7' => {
            proof {
                reveal_strlit("7");
            }
            "7"
        },
        '8' => {
            proof {
                reveal_strlit("8");
            }
            "8"
        },
        'n' => {
            proof {
                reveal_strlit("n");
            }
            "n"
        },
        'r' => {
            proof {
                reveal_strlit("r");
            }
            "r"
        },
        'q' => {
            proof {
                reveal_strlit("q");
            }
            "q"
        },
        'p' => {
            proof {
                reveal_strlit("p");
            }
            "p"
        },
        'k' => {
            proof {
                reveal_strlit("k");
            }
            "k"
        },
        _ => {
            proof {
                reveal_strlit("q");
            }
            "q"
        },
    }
}

/// Appends the name of square `sq` to `s`.
fn append_square(s: &mut String, sq: Square)
    ensures
        final(s)@ == old(s)@ + square_text(sq),
{
    proof {
        Square::lemma_idx_bound(sq);
    }
    s.append(letter_str(sq.file_char()));
    s.append(letter_str(sq.rank_char()));
}

impl Move {
    /// The move in long algebraic notation (see `move_text`).
    pub fn to_uci(self) -> (r: String)
        ensures
            r@ == move_text(self),
    {
        let mut r = String::new();
        append_square(&mut r, self.from());
        append_square(&mut r, self.to());
        match self {
            Move::Promotion(_, _, kind) => {
                r.append(letter_str(kind.to_char()));
            },
            _ => {},
        }
        r
    }
}

} // verus!
