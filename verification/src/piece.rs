use vstd::prelude::*;

verus! {

/// The color of a player or piece.
#[derive(Clone, Copy, Debug, PartialEq, Eq, Structural)]
pub enum Color {
    White,
    Black,
}

impl Color {
    pub open spec fn spec_opp(self) -> Color {
        match self {
            Color::White => Color::Black,
            Color::Black => Color::White,
        }
    }

    /// The other color.
    pub fn opp(self) -> (r: Color)
        ensures
            r == self.spec_opp(),
            r != self,
    {
        match self {
            Color::White => Color::Black,
            Color::Black => Color::White,
        }
    }

    /// Parses a color character (`w` or `b`, in either case).
    pub fn try_from_char(c: char) -> (r: Result<Color, &'static str>)
        ensures
            (c == 'w' || c == 'W') <==> r == Ok::<Color, &'static str>(Color::White),
            (c == 'b' || c == 'B') <==> r == Ok::<Color, &'static str>(Color::Black),
            r is Err <==> !(c == 'w' || c == 'W' || c == 'b' || c == 'B'),
    {
        if c == 'w' || c == 'W' {
            Ok(Color::White)
        } else if c == 'b' || c == 'B' {
            Ok(Color::Black)
        } else {
            Err("Not a valid color character")
        }
    }
}

/// The kind of a chess piece.
#[derive(Clone, Copy, Debug, PartialEq, Eq, Structural)]
pub enum PieceKind {
    Pawn,
    Knight,
    Bishop,
    Rook,
    Queen,
    King,
}

/// The kind of a chess piece, under its other name.
pub type PieceType = PieceKind;

/// The lower case letter of a piece kind in FEN and move notation.
pub open spec fn kind_letter(k: PieceKind) -> char {
    match k {
        PieceKind::Pawn => 'p',
        PieceKind::Knight => 'n',
        PieceKind::Bishop => 'b',
        PieceKind::Rook => 'r',
        PieceKind::Queen => 'q',
        PieceKind::King => 'k',
    }
}

/// The upper case version of an ASCII lower case letter.
pub open spec fn upper(c: char) -> char {
    if 'a' <= c <= 'z' {
        ((c as u32) - 32) as char
    } else {
        c
    }
}

/// A promotion or piece letter names one kind only: `p`, `n`, `b`, `r`, `q` and `k`, in
/// either case, stand for pawn, knight, bishop, rook, queen and king.
pub proof fn lemma_kind_of_letter(k: PieceKind, c: char)
    requires
        c == kind_letter(k) || c == upper(kind_letter(k)),
    ensures
        (c == 'p' || c == 'P') <==> k == PieceKind::Pawn,
        (c == 'n' || c == 'N') <==> k == PieceKind::Knight,
        (c == 'b' || c == 'B') <==> k == PieceKind::Bishop,
        (c == 'r' || c == 'R') <==> k == PieceKind::Rook,
        (c == 'q' || c == 'Q') <==> k == PieceKind::Queen,
        (c == 'k' || c == 'K') <==> k == PieceKind::King,
{
    assert(upper('p') == 'P' && upper('n') == 'N' && upper('b') == 'B' && upper('r') == 'R' && upper('q') == 'Q'
        && upper('k') == 'K');
}

impl PieceKind {
    /// All piece kinds, in increasing order of value.
    pub fn array() -> (r: [PieceKind; 6])
        ensures
            r@ == seq![PieceKind::Pawn, PieceKind::Knight, PieceKind::Bishop, PieceKind::Rook,
                PieceKind::Queen, PieceKind::King],
    {
        [PieceKind::Pawn, PieceKind::Knight, PieceKind::Bishop, PieceKind::Rook, PieceKind::Queen,
            PieceKind::King]
    }

    /// Parses a piece letter, in either case.
    pub fn try_from_char(c: char) -> (r: Result<PieceKind, &'static str>)
        ensures
            r is Ok ==> (c == kind_letter(r->Ok_0) || c == upper(kind_letter(r->Ok_0))),
            r is Err ==> forall|k: PieceKind| c != kind_letter(k) && c != upper(kind_letter(k)),
    {
        if c == 'p' || c == 'P' {
            Ok(PieceKind::Pawn)
        } else if c == 'n' || c == 'N' {
            Ok(PieceKind::Knight)
        } else if c == 'b' || c == 'B' {
            Ok(PieceKind::Bishop)
        } else if c == 'r' || c == 'R' {
            Ok(PieceKind::Rook)
        } else if c == 'q' || c == 'Q' {
            Ok(PieceKind::Queen)
        } else if c == 'k' || c == 'K' {
            Ok(PieceKind::King)
        } else {
            Err("Invalid piece character")
        }
    }

    /// The lower case letter of the piece kind.
    pub fn to_char(self) -> (c: char)
        ensures
            c == kind_letter(self),
    {
        match self {
            PieceKind::Pawn => 'p',
            PieceKind::Knight => 'n',
            PieceKind::Bishop => 'b',
            PieceKind::Rook => 'r',
            PieceKind::Queen => 'q',
            PieceKind::King => 'k',
        }
    }
}

/// A piece: its kind and its color.
#[derive(Clone, Copy, Debug, PartialEq, Eq, Structural)]
pub struct Piece(pub PieceKind, pub Color);

impl Piece {
    pub fn kind(self) -> (r: PieceKind)
        ensures
            r == self.0,
    {
        self.0
    }

    pub fn color(self) -> (r: Color)
        ensures
            r == self.1,
    {
        self.1
    }

    /// Parses a FEN piece character: upper case letters are white pieces,
    /// lower case letters black pieces.
    pub fn try_from_char(c: char) -> (r: Result<Piece, &'static str>)
        ensures
            piece_of_char(c) is Some ==> r == Ok::<Piece, &'static str>(piece_of_char(c)->0),
            piece_of_char(c) is None ==> r is Err,
    {
        match c {
            'P' => Ok(Piece(PieceKind::Pawn, Color::White)),
            'N' => Ok(Piece(PieceKind::Knight, Color::White)),
            'B' => Ok(Piece(PieceKind::Bishop, Color::White)),
            'R' => Ok(Piece(PieceKind::Rook, Color::White)),
            'Q' => Ok(Piece(PieceKind::Queen, Color::White)),
            'K' => Ok(Piece(PieceKind::King, Color::White)),
            'p' => Ok(Piece(PieceKind::Pawn, Color::Black)),
            'n' => Ok(Piece(PieceKind::Knight, Color::Black)),
            'b' => Ok(Piece(PieceKind::Bishop, Color::Black)),
            'r' => Ok(Piece(PieceKind::Rook, Color::Black)),
            'q' => Ok(Piece(PieceKind::Queen, Color::Black)),
            'k' => Ok(Piece(PieceKind::King, Color::Black)),
            _ => Err("Invalid piece character"),
        }
    }

    /// The FEN character of the piece.
    pub fn to_char(self) -> (c: char)
        ensures
            self.1 == Color::Black ==> c == kind_letter(self.0),
            self.1 == Color::White ==> c == upper(kind_letter(self.0)),
    {
        match self.1 {
            Color::Black => self.0.to_char(),
            Color::White => match self.0 {
                PieceKind::Pawn => 'P',
                PieceKind::Knight => 'N',
                PieceKind::Bishop => 'B',
                PieceKind::Rook => 'R',
                PieceKind::Queen => 'Q',
                PieceKind::King => 'K',
            },
        }
    }
}

/// The piece of a FEN character: upper case letters are white pieces, lower case
/// letters black pieces.
pub open spec fn piece_of_char(c: char) -> Option<Piece> {
    if c == 'P' { Some(Piece(PieceKind::Pawn, Color::White)) }
    else if c == 'N' { Some(Piece(PieceKind::Knight, Color::White)) }
    else if c == 'B' { Some(Piece(PieceKind::Bishop, Color::White)) }
    else if c == 'R' { Some(Piece(PieceKind::Rook, Color::White)) }
    else if c == 'Q' { Some(Piece(PieceKind::Queen, Color::White)) }
    else if c == 'K' { Some(Piece(PieceKind::King, Color::White)) }
    else if c == 'p' { Some(Piece(PieceKind::Pawn, Color::Black)) }
    else if c == 'n' { Some(Piece(PieceKind::Knight, Color::Black)) }
    else if c == 'b' { Some(Piece(PieceKind::Bishop, Color::Black)) }
    else if c == 'r' { Some(Piece(PieceKind::Rook, Color::Black)) }
    else if c == 'q' { Some(Piece(PieceKind::Queen, Color::Black)) }
    else if c == 'k' { Some(Piece(PieceKind::King, Color::Black)) }
    else { None }
}

/// A side of the board, for castling.
#[derive(Clone, Copy, Debug, PartialEq, Eq, Structural)]
pub enum Side {
    KingSide,
    QueenSide,
}

} // verus!
