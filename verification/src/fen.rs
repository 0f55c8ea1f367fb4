use vstd::prelude::*;

use crate::castling::CastlingRights;
use crate::piece::{piece_of_char, Color, Piece, PieceKind, Side};
use crate::piece_map::{squares_with, BitboardPieceMap};
use crate::position::PositionState;
use crate::square::Square;

verus! {

/// The FEN of the starting position.
pub const STARTING_FEN: &'static str = "rnbqkbnr/pppppppp/8/8/8/8/PPPPPPPP/RNBQKBNR w KQkq - 0 1";

/// What is wrong with a FEN string.
#[derive(Clone, Copy, Debug, PartialEq, Eq, Structural)]
pub enum FenError {
    Fields,
    Rows,
    Row,
    Piece,
    Kings,
    Color,
    Castling,
    Square,
    PlyClock,
    MoveNumber,
    FieldCount,
    RowWrong,
    PieceChar,
    ColorChar,
    CastlingChar,
    PlyText,
    MoveNumberText,
}

/// An error in a FEN string, with its message.
#[derive(Clone, Debug)]
pub struct FenParseError {
    pub message: String,
}

impl FenError {
    /// The message of an error.
    pub open spec fn spec_message(self) -> Seq<char> {
        match self {
            FenError::Fields => "Incorrect number of fields"@,
            FenError::Rows => "Incorrect number of rows"@,
            FenError::Row => "Row formatted incorrectly"@,
            FenError::Piece => "Invalid piece character"@,
            FenError::Kings => "Each player must have exactly one king"@,
            FenError::Color => "Invalid color"@,
            FenError::Castling => "Invalid castling right"@,
            FenError::Square => "Invalid square"@,
            FenError::PlyClock => "Invalid ply clock"@,
            FenError::MoveNumber => "Invalid move number"@,
            FenError::FieldCount => "Not enough fields"@,
            FenError::RowWrong => "Row formatted wrong"@,
            FenError::PieceChar => "Not a valid piece character"@,
            FenError::ColorChar => "Not a valid color character"@,
            FenError::CastlingChar => "Illegal character in castling rights"@,
            FenError::PlyText => "Ply clock must be a number"@,
            FenError::MoveNumberText => "Move number must be a number"@,
        }
    }

    pub fn message(self) -> (r: &'static str)
        ensures
            r@ == self.spec_message(),
    {
        match self {
            FenError::Fields => "Incorrect number of fields",
            FenError::Rows => "Incorrect number of rows",
            FenError::Row => "Row formatted incorrectly",
            FenError::Piece => "Invalid piece character",
            FenError::Kings => "Each player must have exactly one king",
            FenError::Color => "Invalid color",
            FenError::Castling => "Invalid castling right",
            FenError::Square => "Invalid square",
            FenError::PlyClock => "Invalid ply clock",
            FenError::MoveNumber => "Invalid move number",
            FenError::FieldCount => "Not enough fields",
            FenError::RowWrong => "Row formatted wrong",
            FenError::PieceChar => "Not a valid piece character",
            FenError::ColorChar => "Not a valid color character",
            FenError::CastlingChar => "Illegal character in castling rights",
            FenError::PlyText => "Ply clock must be a number",
            FenError::MoveNumberText => "Move number must be a number",
        }
    }
}

impl FenParseError {
    pub fn new(message: &str) -> (r: FenParseError)
        ensures
            r.message@ == message@,
    {
        FenParseError { message: message.to_owned() }
    }

    /// The error of kind `e`.
    pub fn from_error(e: FenError) -> (r: FenParseError)
        ensures
            r.message@ == e.spec_message(),
    {
        FenParseError::new(e.message())
    }
}

/// `s` cut at every `sep`, as `str::split` does.
pub open spec fn split_spec(s: Seq<char>, sep: char) -> Seq<Seq<char>>
    decreases s.len(),
{
    if s.len() == 0 {
        seq![Seq::<char>::empty()]
    } else {
        let rest = split_spec(s.drop_last(), sep);
        if s.last() == sep {
            rest.push(Seq::<char>::empty())
        } else {
            rest.update(rest.len() - 1, rest.last().push(s.last()))
        }
    }
}

pub proof fn lemma_split_len(s: Seq<char>, sep: char)
    ensures
        split_spec(s, sep).len() >= 1,
    decreases s.len(),
{
    if s.len() > 0 {
        lemma_split_len(s.drop_last(), sep);
    }
}

/// The value of a decimal digit.
pub open spec fn digit_of(c: char) -> Option<int> {
    if '0' <= c <= '9' {
        Some(c as int - '0' as int)
    } else {
        None
    }
}

/// The board without pieces.
pub open spec fn empty_board() -> Seq<Option<Piece>> {
    Seq::new(64, |i: int| None::<Piece>)
}

/// The column reached and the board, after the first `k` characters of a placement row
/// for rank `rank` (0 for rank 1), starting from board `b`.
pub open spec fn row_state(row: Seq<char>, k: nat, rank: int, b: Seq<Option<Piece>>) -> Result<
    (int, Seq<Option<Piece>>),
    FenError,
>
    decreases k,
{
    if k == 0 {
        Ok((0, b))
    } else {
        match row_state(row, (k - 1) as nat, rank, b) {
            Err(e) => Err(e),
            Ok((c, b1)) => {
                let ch = row[k - 1];
                if c >= 8 {
                    Err(FenError::Row)
                } else if digit_of(ch) is Some {
                    Ok((c + digit_of(ch)->0, b1))
                } else if piece_of_char(ch) is Some {
                    Ok((c + 1, b1.update(8 * rank + c, piece_of_char(ch))))
                } else {
                    Err(FenError::Piece)
                }
            },
        }
    }
}

/// The board after the rows of ranks `0..r`; `rows` lists the ranks from 8 down to 1.
pub open spec fn placement_spec(rows: Seq<Seq<char>>, r: nat) -> Result<Seq<Option<Piece>>, FenError>
    decreases r,
{
    if r == 0 {
        Ok(empty_board())
    } else {
        match placement_spec(rows, (r - 1) as nat) {
            Err(e) => Err(e),
            Ok(b) => {
                let row = rows[8 - r];
                match row_state(row, row.len(), r - 1, b) {
                    Err(e) => Err(e),
                    Ok((_, b2)) => Ok(b2),
                }
            },
        }
    }
}

/// The castling rights after the first `k` characters of the castling field, and
/// whether a `-` ended it.
pub open spec fn castling_state(f: Seq<char>, k: nat) -> Result<(bool, CastlingRights), FenError>
    decreases k,
{
    if k == 0 {
        Ok((false, CastlingRights::spec_new(false, false, false, false)))
    } else {
        match castling_state(f, (k - 1) as nat) {
            Err(e) => Err(e),
            Ok((done, c)) => {
                let ch = f[k - 1];
                if done {
                    Ok((true, c))
                } else if ch == 'K' {
                    Ok((false, c.spec_set(Color::White, Side::KingSide)))
                } else if ch == 'Q' {
                    Ok((false, c.spec_set(Color::White, Side::QueenSide)))
                } else if ch == 'k' {
                    Ok((false, c.spec_set(Color::Black, Side::KingSide)))
                } else if ch == 'q' {
                    Ok((false, c.spec_set(Color::Black, Side::QueenSide)))
                } else if ch == '-' {
                    Ok((true, c))
                } else {
                    Err(FenError::Castling)
                }
            },
        }
    }
}

/// Whether every character of `s` is a decimal digit.
pub open spec fn all_digits(s: Seq<char>) -> bool {
    forall|i: int| 0 <= i < s.len() ==> '0' <= #[trigger] s[i] <= '9'
}

/// The value of a string of decimal digits.
pub open spec fn digits_value(s: Seq<char>) -> int
    decreases s.len(),
{
    if s.len() == 0 {
        0
    } else {
        digits_value(s.drop_last()) * 10 + (s.last() as int - '0' as int)
    }
}

/// The unsigned number written in `s`: decimal digits, after an optional `+`.
pub open spec fn parse_unsigned(s: Seq<char>) -> Option<int> {
    let d = if s.len() > 0 && s[0] == '+' { s.drop_first() } else { s };
    if d.len() > 0 && all_digits(d) {
        Some(digits_value(d))
    } else {
        None
    }
}

/// The square written in `s`, such as `e3`.
pub open spec fn square_spec(s: Seq<char>) -> Option<Square> {
    if s.len() == 2 && 'a' <= s[0] <= 'h' && '1' <= s[1] <= '8' {
        Some(Square::from_index_spec(8 * (s[1] as int - '1' as int) + (s[0] as int - 'a' as int)))
    } else {
        None
    }
}

/// The position a FEN string describes, or what is wrong with it.
pub open spec fn parse_fen_spec(s: Seq<char>) -> Result<PositionState, FenError> {
    let fields = split_spec(s, ' ');
    if fields.len() != 6 {
        Err(FenError::Fields)
    } else {
        let rows = split_spec(fields[0], '/');
        if rows.len() != 8 {
            Err(FenError::Rows)
        } else {
            match placement_spec(rows, 8) {
                Err(e) => Err(e),
                Ok(board) => if squares_with(board, Piece(PieceKind::King, Color::White)).len() != 1
                    || squares_with(board, Piece(PieceKind::King, Color::Black)).len() != 1 {
                    Err(FenError::Kings)
                } else if fields[1] != seq!['w'] && fields[1] != seq!['b'] {
                    Err(FenError::Color)
                } else {
                    let to_move = if fields[1] == seq!['w'] { Color::White } else { Color::Black };
                    match castling_state(fields[2], fields[2].len()) {
                        Err(e) => Err(e),
                        Ok((_, castling)) => if fields[3] != seq!['-'] && square_spec(fields[3]) is None {
                            Err(FenError::Square)
                        } else {
                            let ep = if fields[3] == seq!['-'] { None } else { square_spec(fields[3]) };
                            match parse_unsigned(fields[4]) {
                                Some(ply) if ply <= u8::MAX => match parse_unsigned(fields[5]) {
                                    Some(mn) if mn <= u32::MAX => Ok(PositionState {
                                        pieces: board,
                                        to_move,
                                        castling,
                                        en_passant_sq: ep,
                                        ply_clock: ply as u8,
                                        move_number: mn as u32,
                                    }),
                                    _ => Err(FenError::MoveNumber),
                                },
                                _ => Err(FenError::PlyClock),
                            }
                        },
                    }
                },
            }
        }
    }
}

/// Whether `c` is white space (the characters of Unicode's `White_Space` property).
pub open spec fn is_space(c: char) -> bool {
    ||| '\u{09}' <= c <= '\u{0D}'
    ||| c == ' '
    ||| c == '\u{85}'
    ||| c == '\u{A0}'
    ||| c == '\u{1680}'
    ||| '\u{2000}' <= c <= '\u{200A}'
    ||| c == '\u{2028}'
    ||| c == '\u{2029}'
    ||| c == '\u{202F}'
    ||| c == '\u{205F}'
    ||| c == '\u{3000}'
}

/// The words of `s`: its longest runs of characters that are not white space, in order,
/// as `str::split_whitespace` gives them.
pub open spec fn words_spec(s: Seq<char>) -> Seq<Seq<char>>
    decreases s.len(),
{
    if s.len() == 0 {
        Seq::empty()
    } else {
        let rest = words_spec(s.drop_last());
        if is_space(s.last()) {
            rest
        } else if s.len() >= 2 && !is_space(s[s.len() - 2]) {
            rest.update(rest.len() - 1, rest.last().push(s.last()))
        } else {
            rest.push(seq![s.last()])
        }
    }
}

/// The square counter and the board after the first `k` characters of a placement row
/// for rank `rank`, read on from counter `sq` and board `b` as the classic reader does: a
/// character may only be read while the counter is on the row's rank.
pub open spec fn classic_row(row: Seq<char>, k: nat, rank: int, sq: int, b: Seq<Option<Piece>>) -> Result<
    (int, Seq<Option<Piece>>),
    FenError,
>
    decreases k,
{
    if k == 0 {
        Ok((sq, b))
    } else {
        match classic_row(row, (k - 1) as nat, rank, sq, b) {
            Err(e) => Err(e),
            Ok((q, b1)) => {
                let ch = row[k - 1];
                if q / 8 != rank {
                    Err(FenError::RowWrong)
                } else if digit_of(ch) is Some {
                    Ok((q + digit_of(ch)->0, b1))
                } else if piece_of_char(ch) is Some {
                    Ok((q + 1, b1.update(q, piece_of_char(ch))))
                } else {
                    Err(FenError::PieceChar)
                }
            },
        }
    }
}

/// The square counter and the board after the rows of ranks `0..r` as the classic reader
/// reads them (each row must end on a multiple of 8); `rows` lists ranks 8 down to 1.
pub open spec fn classic_placement(rows: Seq<Seq<char>>, r: nat) -> Result<(int, Seq<Option<Piece>>), FenError>
    decreases r,
{
    if r == 0 {
        Ok((0, empty_board()))
    } else {
        match classic_placement(rows, (r - 1) as nat) {
            Err(e) => Err(e),
            Ok((q, b)) => {
                let row = rows[8 - r];
                match classic_row(row, row.len(), r - 1, q, b) {
                    Err(e) => Err(e),
                    Ok((q2, b2)) => if q2 % 8 != 0 {
                        Err(FenError::RowWrong)
                    } else {
                        Ok((q2, b2))
                    },
                }
            },
        }
    }
}

/// The castling rights of a castling field as the classic reader reads it: `-` for none,
/// else only the letters `K`, `Q`, `k` and `q`.
pub open spec fn classic_castling(f: Seq<char>, k: nat) -> Result<CastlingRights, FenError>
    decreases k,
{
    if k == 0 {
        Ok(CastlingRights::spec_new(false, false, false, false))
    } else {
        match classic_castling(f, (k - 1) as nat) {
            Err(e) => Err(e),
            Ok(c) => {
                let ch = f[k - 1];
                if ch == 'K' {
                    Ok(c.spec_set(Color::White, Side::KingSide))
                } else if ch == 'Q' {
                    Ok(c.spec_set(Color::White, Side::QueenSide))
                } else if ch == 'k' {
                    Ok(c.spec_set(Color::Black, Side::KingSide))
                } else if ch == 'q' {
                    Ok(c.spec_set(Color::Black, Side::QueenSide))
                } else {
                    Err(FenError::CastlingChar)
                }
            },
        }
    }
}

/// The color named by the first character of `f`, in either case.
pub open spec fn classic_color(f: Seq<char>) -> Option<Color> {
    if f.len() > 0 && (f[0] == 'w' || f[0] == 'W') {
        Some(Color::White)
    } else if f.len() > 0 && (f[0] == 'b' || f[0] == 'B') {
        Some(Color::Black)
    } else {
        None
    }
}

/// The position a FEN string describes as the classic reader reads it (fields separated
/// by white space, every row of the placement filled to its end, no count of kings, the
/// color by its first letter), or what is wrong with it. A ply clock above 255 is held as
/// 255.
pub open spec fn parse_classic_spec(s: Seq<char>) -> Result<PositionState, FenError> {
    let fields = words_spec(s);
    if fields.len() != 6 {
        Err(FenError::FieldCount)
    } else {
        let rows = split_spec(fields[0], '/');
        if rows.len() != 8 {
            Err(FenError::Rows)
        } else {
            match classic_placement(rows, 8) {
                Err(e) => Err(e),
                Ok((_, board)) => match classic_color(fields[1]) {
                    None => Err(FenError::ColorChar),
                    Some(to_move) => match (if fields[2] == seq!['-'] {
                        Ok(CastlingRights::spec_new(false, false, false, false))
                    } else {
                        classic_castling(fields[2], fields[2].len())
                    }) {
                        Err(e) => Err(e),
                        Ok(castling) => if fields[3] != seq!['-'] && square_spec(fields[3]) is None {
                            Err(FenError::Square)
                        } else {
                            let ep = if fields[3] == seq!['-'] { None } else { square_spec(fields[3]) };
                            match parse_unsigned(fields[4]) {
                                Some(ply) if ply <= u32::MAX => match parse_unsigned(fields[5]) {
                                    Some(mn) if mn <= u32::MAX => Ok(PositionState {
                                        pieces: board,
                                        to_move,
                                        castling,
                                        en_passant_sq: ep,
                                        ply_clock: if ply > 255 { 255u8 } else { ply as u8 },
                                        move_number: mn as u32,
                                    }),
                                    _ => Err(FenError::MoveNumberText),
                                },
                                _ => Err(FenError::PlyText),
                            }
                        },
                    },
                },
            }
        }
    }
}


/// The strings held by a vector of character vectors.
pub open spec fn views(v: Seq<Vec<char>>) -> Seq<Seq<char>> {
    Seq::new(v.len(), |i: int| v[i]@)
}

/// The characters of `s`.
pub fn chars_of(s: &str) -> (v: Vec<char>)
    ensures
        v@ == s@,
{
    let n = s.unicode_len();
    let mut v: Vec<char> = Vec::new();
    let mut i: usize = 0;
    while i < n
        invariant
            i <= n,
            n == s@.len(),
            v@ == s@.subrange(0, i as int),
        decreases n - i,
    {
        v.push(s.get_char(i));
        i = i + 1;
    }
    assert(v@ =~= s@);
    v
}

/// `s` cut at every `sep`.
pub fn split(s: &Vec<char>, sep: char) -> (r: Vec<Vec<char>>)
    ensures
        views(r@) == split_spec(s@, sep),
{
    let mut out: Vec<Vec<char>> = Vec::new();
    let mut cur: Vec<char> = Vec::new();
    let mut i: usize = 0;
    while i < s.len()
        invariant
            i <= s@.len(),
            views(out@).push(cur@) == split_spec(s@.subrange(0, i as int), sep),
        decreases s@.len() - i,
    {
        let c = s[i];
        proof {
            assert(s@.subrange(0, i + 1).drop_last() =~= s@.subrange(0, i as int));
            assert(s@.subrange(0, i + 1).last() == c);
            lemma_split_len(s@.subrange(0, i as int), sep);
        }
        let ghost before = views(out@);
        let ghost cur_before = cur@;
        if c == sep {
            out.push(cur);
            cur = Vec::new();
            proof {
                assert(views(out@) =~= before.push(cur_before));
                assert(views(out@).push(cur@) =~= before.push(cur_before).push(Seq::<char>::empty()));
            }
        } else {
            cur.push(c);
            proof {
                assert(views(out@).push(cur@) =~= before.push(cur_before).update(
                    before.len() as int,
                    cur_before.push(c),
                ));
            }
        }
        i = i + 1;
    }
    let ghost before = views(out@);
    let ghost cur_before = cur@;
    out.push(cur);
    proof {
        assert(s@.subrange(0, s@.len() as int) =~= s@);
        assert(views(out@) =~= before.push(cur_before));
    }
    out
}

/// Whether two character strings are equal.
pub fn chars_eq(a: &Vec<char>, b: &str) -> (r: bool)
    ensures
        r == (a@ == b@),
{
    let n = b.unicode_len();
    if a.len() != n {
        return false;
    }
    let mut i: usize = 0;
    while i < n
        invariant
            i <= n,
            n == a@.len(),
            n == b@.len(),
            forall|j: int| 0 <= j < i ==> a@[j] == b@[j],
        decreases n - i,
    {
        if a[i] != b.get_char(i) {
            return false;
        }
        i = i + 1;
    }
    assert(a@ =~= b@);
    true
}

/// Places the pieces of one row of the placement field, for rank `rank`.
fn parse_row(row: &Vec<char>, rank: usize, pieces: &mut BitboardPieceMap) -> (r: Result<(), FenError>)
    requires
        rank < 8,
        old(pieces).wf(),
        forall|i: int| 8 * rank <= i < 64 ==> #[trigger] old(pieces)@[i] is None,
    ensures
        final(pieces).wf(),
        match row_state(row@, row@.len(), rank as int, old(pieces)@) {
            Err(e) => r == Err::<(), FenError>(e),
            Ok((_, b)) => r is Ok && final(pieces)@ == b && forall|i: int|
                8 * (rank + 1) <= i < 64 ==> #[trigger] final(pieces)@[i] is None,
        },
{
    let ghost b0 = pieces@;
    let mut c: usize = 0;
    let mut k: usize = 0;
    proof {
        pieces.lemma_len();
    }
    while k < row.len()
        invariant
            k <= row@.len(),
            rank < 8,
            pieces.wf(),
            c <= 17,
            b0 == old(pieces)@,
            row_state(row@, k as nat, rank as int, b0) == Ok::<(int, Seq<Option<Piece>>), FenError>((c as int, pieces@)),
            forall|i: int| 8 * rank + (if c < 8 { c as int } else { 8 }) <= i < 64 ==> #[trigger] pieces@[i] is None,
        decreases row@.len() - k,
    {
        let ch = row[k];
        proof {
            pieces.lemma_len();
        }
        if c >= 8 {
            proof {
                assert(row_state(row@, (k + 1) as nat, rank as int, b0) == Err::<(int, Seq<Option<Piece>>), FenError>(FenError::Row));
                lemma_row_err(row@, (k + 1) as nat, row@.len(), rank as int, b0);
            }
            return Err(FenError::Row);
        }
        if '0' <= ch && ch <= '9' {
            c = c + (ch as u32 - '0' as u32) as usize;
        } else {
            match Piece::try_from_char(ch) {
                Ok(p) => {
                    let sq = Square::from_index((8 * rank + c) as u8);
                    pieces.set_sq(sq, p);
                    c = c + 1;
                },
                Err(_) => {
                    proof {
                        assert(row_state(row@, (k + 1) as nat, rank as int, b0) == Err::<(int, Seq<Option<Piece>>), FenError>(FenError::Piece));
                        lemma_row_err(row@, (k + 1) as nat, row@.len(), rank as int, b0);
                    }
                    return Err(FenError::Piece);
                },
            }
        }
        k = k + 1;
    }
    Ok(())
}

/// The pieces of the placement field, given as its rows from rank 8 down to rank 1.
fn parse_placement(rows: &Vec<Vec<char>>) -> (r: Result<BitboardPieceMap, FenError>)
    requires
        rows@.len() == 8,
    ensures
        match placement_spec(views(rows@), 8) {
            Err(e) => r is Err && r->Err_0 == e,
            Ok(b) => r is Ok && r->Ok_0.wf() && r->Ok_0@ == b,
        },
{
    let mut pieces = BitboardPieceMap::new();
    let mut rank: usize = 0;
    proof {
        assert(pieces@ =~= empty_board());
    }
    while rank < 8
        invariant
            rank <= 8,
            rows@.len() == 8,
            pieces.wf(),
            placement_spec(views(rows@), rank as nat) == Ok::<Seq<Option<Piece>>, FenError>(pieces@),
            forall|i: int| 8 * rank <= i < 64 ==> #[trigger] pieces@[i] is None,
        decreases 8 - rank,
    {
        let row = &rows[7 - rank];
        proof {
            assert(views(rows@)[7 - rank as int] == row@);
        }
        match parse_row(row, rank, &mut pieces) {
            Ok(()) => {},
            Err(e) => {
                proof {
                    lemma_placement_err(views(rows@), (rank + 1) as nat, 8);
                }
                return Err(e);
            },
        }
        rank = rank + 1;
    }
    Ok(pieces)
}

/// Once the placement fails, it fails for every later rank with the same error.
proof fn lemma_placement_err(rows: Seq<Seq<char>>, r: nat, n: nat)
    requires
        r <= n,
        placement_spec(rows, r) is Err,
    ensures
        placement_spec(rows, n) == placement_spec(rows, r),
    decreases n - r,
{
    if r < n {
        lemma_placement_err(rows, r, (n - 1) as nat);
    }
}

/// Once the row state fails, it fails for every longer prefix with the same error.
proof fn lemma_row_err(row: Seq<char>, k: nat, n: nat, rank: int, b: Seq<Option<Piece>>)
    requires
        k <= n,
        row_state(row, k, rank, b) is Err,
    ensures
        row_state(row, n, rank, b) == row_state(row, k, rank, b),
    decreases n - k,
{
    if k < n {
        lemma_row_err(row, k, (n - 1) as nat, rank, b);
    }
}


/// The value of a string of digits is not negative.
proof fn lemma_digits_value_nonneg(s: Seq<char>)
    requires
        all_digits(s),
    ensures
        digits_value(s) >= 0,
    decreases s.len(),
{
    if s.len() > 0 {
        assert(all_digits(s.drop_last())) by {
            assert forall|i: int| 0 <= i < s.drop_last().len() implies '0' <= #[trigger] s.drop_last()[i] <= '9' by {
                assert(s.drop_last()[i] == s[i]);
            }
        }
        lemma_digits_value_nonneg(s.drop_last());
        assert('0' <= s[s.len() - 1] <= '9');
    }
}

/// A longer string of digits has at least the value of its prefix.
proof fn lemma_digits_value_mono(s: Seq<char>, i: int, j: int)
    requires
        0 <= i <= j <= s.len(),
        all_digits(s),
    ensures
        digits_value(s.subrange(0, i)) <= digits_value(s.subrange(0, j)),
    decreases j - i,
{
    if i < j {
        lemma_digits_value_mono(s, i, j - 1);
        let t = s.subrange(0, j);
        assert(t.drop_last() =~= s.subrange(0, j - 1));
        assert(all_digits(s.subrange(0, j - 1))) by {
            assert forall|k: int| 0 <= k < s.subrange(0, j - 1).len() implies '0' <= #[trigger] s.subrange(0, j - 1)[k] <= '9' by {
                assert(s.subrange(0, j - 1)[k] == s[k]);
            }
        }
        lemma_digits_value_nonneg(s.subrange(0, j - 1));
        assert(t.last() == s[j - 1]);
        assert('0' <= s[j - 1] <= '9');
        assert(digits_value(t) == digits_value(t.drop_last()) * 10 + (t.last() as int - '0' as int));
    }
}

/// The number written in `s` (see `parse_unsigned`), if it is at most `limit`.
fn parse_number(s: &Vec<char>, limit: u64) -> (r: Option<u64>)
    requires
        limit <= u32::MAX,
    ensures
        match parse_unsigned(s@) {
            Some(v) => if v <= limit { r == Some(v as u64) } else { r is None },
            None => r is None,
        },
        r is Some ==> parse_unsigned(s@) == Some(r->0 as int) && r->0 <= limit,
{
    let n = s.len();
    let start: usize = if n > 0 && s[0] == '+' { 1 } else { 0 };
    let ghost d = if s@.len() > 0 && s@[0] == '+' { s@.drop_first() } else { s@ };
    proof {
        assert(d =~= s@.subrange(start as int, n as int));
    }
    if start == n {
        return None;
    }
    let mut acc: u64 = 0;
    let mut i: usize = start;
    while i < n
        invariant
            start <= i <= n,
            n == s@.len(),
            d == s@.subrange(start as int, n as int),
            d == (if s@.len() > 0 && s@[0] == '+' { s@.drop_first() } else { s@ }),
            acc <= limit,
            limit <= u32::MAX,
            acc == digits_value(d.subrange(0, i - start)),
            forall|j: int| 0 <= j < i - start ==> '0' <= #[trigger] d[j] <= '9',
        decreases n - i,
    {
        let c = s[i];
        proof {
            assert(d[i - start] == c);
            assert(d.subrange(0, i - start + 1).drop_last() =~= d.subrange(0, i - start));
        }
        if c < '0' || c > '9' {
            return None;
        }
        let v = acc * 10 + (c as u32 - '0' as u32) as u64;
        if v > limit {
            proof {
                if all_digits(d) {
                    lemma_digits_value_mono(d, i - start + 1, d.len() as int);
                    assert(d.subrange(0, d.len() as int) =~= d);
                }
            }
            return None;
        }
        acc = v;
        i = i + 1;
    }
    proof {
        assert(d.subrange(0, n - start) =~= d);
    }
    Some(acc)
}

/// The castling rights of the castling field.
fn parse_castling(f: &Vec<char>) -> (r: Result<CastlingRights, FenError>)
    ensures
        match castling_state(f@, f@.len()) {
            Err(e) => r == Err::<CastlingRights, FenError>(e),
            Ok((_, c)) => r == Ok::<CastlingRights, FenError>(c),
        },
{
    let mut castling = CastlingRights::new(false, false, false, false);
    let mut done = false;
    let mut k: usize = 0;
    while k < f.len()
        invariant
            k <= f@.len(),
            castling_state(f@, k as nat) == Ok::<(bool, CastlingRights), FenError>((done, castling)),
        decreases f@.len() - k,
    {
        let ch = f[k];
        if !done {
            if ch == 'K' {
                castling.set(Color::White, Side::KingSide, true);
            } else if ch == 'Q' {
                castling.set(Color::White, Side::QueenSide, true);
            } else if ch == 'k' {
                castling.set(Color::Black, Side::KingSide, true);
            } else if ch == 'q' {
                castling.set(Color::Black, Side::QueenSide, true);
            } else if ch == '-' {
                done = true;
            } else {
                proof {
                    lemma_castling_err(f@, (k + 1) as nat, f@.len());
                }
                return Err(FenError::Castling);
            }
        }
        k = k + 1;
    }
    Ok(castling)
}

proof fn lemma_castling_err(f: Seq<char>, k: nat, n: nat)
    requires
        k <= n,
        castling_state(f, k) is Err,
    ensures
        castling_state(f, n) == castling_state(f, k),
    decreases n - k,
{
    if k < n {
        lemma_castling_err(f, k, (n - 1) as nat);
    }
}

/// The square of the en passant field, written like `e3`.
fn parse_square(f: &Vec<char>) -> (r: Option<Square>)
    ensures
        r == square_spec(f@),
{
    if f.len() == 2 && 'a' <= f[0] && f[0] <= 'h' && '1' <= f[1] && f[1] <= '8' {
        let rank = (f[1] as u32 - '1' as u32) as u8;
        let file = (f[0] as u32 - 'a' as u32) as u8;
        Some(Square::from_index(8 * rank + file))
    } else {
        None
    }
}

/// The parts of a position described by a FEN string.
pub struct FenParts {
    pub pieces: BitboardPieceMap,
    pub to_move: Color,
    pub castling: CastlingRights,
    pub en_passant_sq: Option<Square>,
    pub ply_clock: u8,
    pub move_number: u32,
}

impl FenParts {
    pub open spec fn state(&self) -> PositionState {
        PositionState {
            pieces: self.pieces@,
            to_move: self.to_move,
            castling: self.castling,
            en_passant_sq: self.en_passant_sq,
            ply_clock: self.ply_clock,
            move_number: self.move_number,
        }
    }
}

/// Parses the six fields of a FEN string: placement, player to move, castling rights,
/// en passant square, ply clock and move number.
pub fn parse_fields(fen: &str) -> (r: Result<FenParts, FenError>)
    ensures
        match parse_fen_spec(fen@) {
            Err(e) => r == Err::<FenParts, FenError>(e),
            Ok(st) => r is Ok && r->Ok_0.pieces.wf() && r->Ok_0.state() == st,
        },
{
    let chars = chars_of(fen);
    let fields = split(&chars, ' ');
    if fields.len() != 6 {
        return Err(FenError::Fields);
    }
    proof {
        assert(views(fields@)[0] == fields@[0]@);
        assert(views(fields@)[1] == fields@[1]@);
        assert(views(fields@)[2] == fields@[2]@);
        assert(views(fields@)[3] == fields@[3]@);
        assert(views(fields@)[4] == fields@[4]@);
        assert(views(fields@)[5] == fields@[5]@);
    }
    let rows = split(&fields[0], '/');
    if rows.len() != 8 {
        return Err(FenError::Rows);
    }
    let ghost fs = split_spec(fen@, ' ');
    proof {
        assert(fs == views(fields@));
        assert(fs[0] == fields@[0]@);
        assert(split_spec(fs[0], '/') == views(rows@));
    }
    let pieces = match parse_placement(&rows) {
        Ok(p) => p,
        Err(e) => {
            assert(parse_fen_spec(fen@) == Err::<PositionState, FenError>(e));
            return Err(e);
        },
    };
    if pieces.get_bb(Piece(PieceKind::King, Color::White)).len() != 1 || pieces.get_bb(
        Piece(PieceKind::King, Color::Black),
    ).len() != 1 {
        return Err(FenError::Kings);
    }
    proof {
        reveal_strlit("w");
        reveal_strlit("b");
        reveal_strlit("-");
        assert("w"@ =~= seq!['w']);
        assert("b"@ =~= seq!['b']);
        assert("-"@ =~= seq!['-']);
    }
    let to_move = if chars_eq(&fields[1], "w") {
        Color::White
    } else if chars_eq(&fields[1], "b") {
        Color::Black
    } else {
        return Err(FenError::Color);
    };
    let castling = match parse_castling(&fields[2]) {
        Ok(c) => c,
        Err(e) => return Err(e),
    };
    let en_passant_sq = if chars_eq(&fields[3], "-") {
        None
    } else {
        match parse_square(&fields[3]) {
            Some(sq) => Some(sq),
            None => return Err(FenError::Square),
        }
    };
    let ply_clock = match parse_number(&fields[4], 255) {
        Some(n) => n as u8,
        None => return Err(FenError::PlyClock),
    };
    let move_number = match parse_number(&fields[5], 0xffff_ffff) {
        Some(n) => n as u32,
        None => return Err(FenError::MoveNumber),
    };
    let r = FenParts { pieces, to_move, castling, en_passant_sq, ply_clock, move_number };
    proof {
        assert(fs[1] == fields@[1]@);
        assert(fs[2] == fields@[2]@);
        assert(fs[3] == fields@[3]@);
        assert(fs[4] == fields@[4]@);
        assert(fs[5] == fields@[5]@);
        assert(placement_spec(split_spec(fs[0], '/'), 8) == Ok::<Seq<Option<Piece>>, FenError>(pieces@));
        assert(parse_unsigned(fs[4]) == Some(ply_clock as int));
        assert(parse_unsigned(fs[5]) == Some(move_number as int));
    }
    Ok(r)
}

/// Whether `c` is white space (see `is_space`).
pub fn is_space_exec(c: char) -> (r: bool)
    ensures
        r == is_space(c),
{
    ('\u{09}' <= c && c <= '\u{0D}') || c == ' ' || c == '\u{85}' || c == '\u{A0}' || c == '\u{1680}' || ('\u{2000}' <= c
        && c <= '\u{200A}') || c == '\u{2028}' || c == '\u{2029}' || c == '\u{202F}' || c == '\u{205F}' || c == '\u{3000}'
}

/// The words of `s` (see `words_spec`).
pub fn words(s: &Vec<char>) -> (r: Vec<Vec<char>>)
    ensures
        views(r@) == words_spec(s@),
{
    let mut out: Vec<Vec<char>> = Vec::new();
    let mut cur: Vec<char> = Vec::new();
    let mut in_word = false;
    let mut i: usize = 0;
    while i < s.len()
        invariant
            i <= s@.len(),
            in_word == (i > 0 && !is_space(s@[i - 1])),
            words_spec(s@.subrange(0, i as int)) == (if in_word {
                views(out@).push(cur@)
            } else {
                views(out@)
            }),
        decreases s@.len() - i,
    {
        let c = s[i];
        let ghost pre = s@.subrange(0, i as int);
        let ghost post = s@.subrange(0, i + 1);
        proof {
            assert(post.drop_last() =~= pre);
            assert(post.last() == c);
            if i > 0 {
                assert(post[post.len() - 2] == s@[i - 1]);
            }
        }
        let ghost before = views(out@);
        let ghost cur_before = cur@;
        if is_space_exec(c) {
            if in_word {
                out.push(cur);
                cur = Vec::new();
                proof {
                    assert(views(out@) =~= before.push(cur_before));
                }
            }
            in_word = false;
        } else {
            if in_word {
                cur.push(c);
                proof {
                    assert(before.push(cur_before).update(before.len() as int, cur_before.push(c)) =~= before.push(cur@));
                }
            } else {
                cur = Vec::new();
                cur.push(c);
                proof {
                    assert(cur@ =~= seq![c]);
                }
            }
            in_word = true;
        }
        i = i + 1;
    }
    proof {
        assert(s@.subrange(0, s@.len() as int) =~= s@);
    }
    if in_word {
        let ghost before = views(out@);
        let ghost cur_before = cur@;
        out.push(cur);
        proof {
            assert(views(out@) =~= before.push(cur_before));
        }
    }
    out
}

/// Once a classic row fails, it fails for every longer prefix with the same error.
proof fn lemma_classic_row_err(row: Seq<char>, k: nat, n: nat, rank: int, sq: int, b: Seq<Option<Piece>>)
    requires
        k <= n,
        classic_row(row, k, rank, sq, b) is Err,
    ensures
        classic_row(row, n, rank, sq, b) == classic_row(row, k, rank, sq, b),
    decreases n - k,
{
    if k < n {
        lemma_classic_row_err(row, k, (n - 1) as nat, rank, sq, b);
    }
}

/// Once the classic placement fails, it fails for every later rank with the same error.
proof fn lemma_classic_placement_err(rows: Seq<Seq<char>>, r: nat, n: nat)
    requires
        r <= n,
        classic_placement(rows, r) is Err,
    ensures
        classic_placement(rows, n) == classic_placement(rows, r),
    decreases n - r,
{
    if r < n {
        lemma_classic_placement_err(rows, r, (n - 1) as nat);
    }
}

/// Reads one row of the placement field for rank `rank` as the classic reader does,
/// going on from square counter `sq`.
fn classic_parse_row(row: &Vec<char>, rank: usize, sq: usize, pieces: &mut BitboardPieceMap) -> (r: Result<usize, FenError>)
    requires
        rank < 8,
        sq <= 8 * rank + 8,
        old(pieces).wf(),
        forall|i: int| sq <= i < 64 ==> #[trigger] old(pieces)@[i] is None,
    ensures
        final(pieces).wf(),
        match classic_row(row@, row@.len(), rank as int, sq as int, old(pieces)@) {
            Err(e) => r == Err::<usize, FenError>(e),
            Ok((q, b)) => r == Ok::<usize, FenError>(q as usize) && q <= 8 * rank + 16 && final(pieces)@ == b
                && forall|i: int| q <= i < 64 ==> #[trigger] final(pieces)@[i] is None,
        },
{
    let ghost b0 = pieces@;
    let mut q: usize = sq;
    let mut k: usize = 0;
    proof {
        pieces.lemma_len();
    }
    while k < row.len()
        invariant
            k <= row@.len(),
            rank < 8,
            pieces.wf(),
            q <= 8 * rank + 16,
            b0 == old(pieces)@,
            classic_row(row@, k as nat, rank as int, sq as int, b0) == Ok::<(int, Seq<Option<Piece>>), FenError>((q as int, pieces@)),
            forall|i: int| q <= i < 64 ==> #[trigger] pieces@[i] is None,
        decreases row@.len() - k,
    {
        let ch = row[k];
        proof {
            pieces.lemma_len();
        }
        if q / 8 != rank {
            proof {
                lemma_classic_row_err(row@, (k + 1) as nat, row@.len(), rank as int, sq as int, b0);
            }
            return Err(FenError::RowWrong);
        }
        if '0' <= ch && ch <= '9' {
            q = q + (ch as u32 - '0' as u32) as usize;
        } else {
            match Piece::try_from_char(ch) {
                Ok(p) => {
                    let s = Square::from_index(q as u8);
                    pieces.set_sq(s, p);
                    q = q + 1;
                },
                Err(_) => {
                    proof {
                        lemma_classic_row_err(row@, (k + 1) as nat, row@.len(), rank as int, sq as int, b0);
                    }
                    return Err(FenError::PieceChar);
                },
            }
        }
        k = k + 1;
    }
    Ok(q)
}

/// The pieces of the placement field as the classic reader reads it, given its rows from
/// rank 8 down to rank 1.
fn classic_parse_placement(rows: &Vec<Vec<char>>) -> (r: Result<BitboardPieceMap, FenError>)
    requires
        rows@.len() == 8,
    ensures
        match classic_placement(views(rows@), 8) {
            Err(e) => r is Err && r->Err_0 == e,
            Ok((_, b)) => r is Ok && r->Ok_0.wf() && r->Ok_0@ == b,
        },
{
    let mut pieces = BitboardPieceMap::new();
    let mut rank: usize = 0;
    let mut q: usize = 0;
    proof {
        assert(pieces@ =~= empty_board());
    }
    while rank < 8
        invariant
            rank <= 8,
            rows@.len() == 8,
            pieces.wf(),
            q <= 8 * rank + 8,
            classic_placement(views(rows@), rank as nat) == Ok::<(int, Seq<Option<Piece>>), FenError>((q as int, pieces@)),
            forall|i: int| q <= i < 64 ==> #[trigger] pieces@[i] is None,
        decreases 8 - rank,
    {
        let row = &rows[7 - rank];
        proof {
            assert(views(rows@)[7 - rank as int] == row@);
        }
        match classic_parse_row(row, rank, q, &mut pieces) {
            Ok(q2) => {
                if q2 % 8 != 0 {
                    proof {
                        lemma_classic_placement_err(views(rows@), (rank + 1) as nat, 8);
                    }
                    return Err(FenError::RowWrong);
                }
                q = q2;
            },
            Err(e) => {
                proof {
                    lemma_classic_placement_err(views(rows@), (rank + 1) as nat, 8);
                }
                return Err(e);
            },
        }
        rank = rank + 1;
    }
    Ok(pieces)
}

/// The castling rights of a castling field other than `-`, as the classic reader reads it.
fn classic_parse_castling(f: &Vec<char>) -> (r: Result<CastlingRights, FenError>)
    ensures
        r == classic_castling(f@, f@.len()),
{
    let mut castling = CastlingRights::new(false, false, false, false);
    let mut k: usize = 0;
    while k < f.len()
        invariant
            k <= f@.len(),
            classic_castling(f@, k as nat) == Ok::<CastlingRights, FenError>(castling),
        decreases f@.len() - k,
    {
        let ch = f[k];
        if ch == 'K' {
            castling.set(Color::White, Side::KingSide, true);
        } else if ch == 'Q' {
            castling.set(Color::White, Side::QueenSide, true);
        } else if ch == 'k' {
            castling.set(Color::Black, Side::KingSide, true);
        } else if ch == 'q' {
            castling.set(Color::Black, Side::QueenSide, true);
        } else {
            proof {
                lemma_classic_castling_err(f@, (k + 1) as nat, f@.len());
            }
            return Err(FenError::CastlingChar);
        }
        k = k + 1;
    }
    Ok(castling)
}

proof fn lemma_classic_castling_err(f: Seq<char>, k: nat, n: nat)
    requires
        k <= n,
        classic_castling(f, k) is Err,
    ensures
        classic_castling(f, n) == classic_castling(f, k),
    decreases n - k,
{
    if k < n {
        lemma_classic_castling_err(f, k, (n - 1) as nat);
    }
}

/// Whether one of the first `k` characters of `f` is `x`.
pub open spec fn has_char(f: Seq<char>, k: nat, x: char) -> bool {
    exists|i: int| 0 <= i < k && f[i] == x
}

/// Whether `ch` is one of the letters of a castling field: `K`, `Q`, `k` or `q`.
pub open spec fn castling_letter(ch: char) -> bool {
    ch == 'K' || ch == 'Q' || ch == 'k' || ch == 'q'
}

/// The classic reader accepts the first `k` characters of a castling field exactly when
/// each is one of `K`, `Q`, `k` and `q`, and then the white king-side right is granted iff
/// a `K` is among them, the white queen-side right iff a `Q` is, the black king-side
/// right iff a `k` is and the black queen-side right iff a `q` is.
pub proof fn lemma_classic_castling_rights(f: Seq<char>, k: nat)
    requires
        k <= f.len(),
    ensures
        (classic_castling(f, k) is Ok) == (forall|i: int| 0 <= i < k ==> castling_letter(#[trigger] f[i])),
        classic_castling(f, k) is Ok ==> {
            let c = classic_castling(f, k)->Ok_0;
            &&& c.spec_get(Color::White, Side::KingSide) == has_char(f, k, 'K')
            &&& c.spec_get(Color::White, Side::QueenSide) == has_char(f, k, 'Q')
            &&& c.spec_get(Color::Black, Side::KingSide) == has_char(f, k, 'k')
            &&& c.spec_get(Color::Black, Side::QueenSide) == has_char(f, k, 'q')
        },
    decreases k,
{
    if k == 0 {
        CastlingRights::lemma_new_get(false, false, false, false);
    } else {
        let j = (k - 1) as nat;
        lemma_classic_castling_rights(f, j);
        assert forall|x: char| has_char(f, k, x) == (has_char(f, j, x) || f[j as int] == x) by {
            if has_char(f, k, x) {
                let i = choose|i: int| 0 <= i < k && f[i] == x;
                if i < j {
                    assert(has_char(f, j, x));
                }
            }
            if f[j as int] == x {
                assert(0 <= j < k && f[j as int] == x);
            }
        }
        if classic_castling(f, j) is Err {
            let i = choose|i: int| 0 <= i < j && !castling_letter(#[trigger] f[i]);
            assert(!castling_letter(f[i]));
        } else {
            let c = classic_castling(f, j)->Ok_0;
            let ch = f[j as int];
            if ch == 'K' {
                c.lemma_set_get(Color::White, Side::KingSide);
            } else if ch == 'Q' {
                c.lemma_set_get(Color::White, Side::QueenSide);
            } else if ch == 'k' {
                c.lemma_set_get(Color::Black, Side::KingSide);
            } else if ch == 'q' {
                c.lemma_set_get(Color::Black, Side::QueenSide);
            } else {
                assert(!castling_letter(f[j as int]));
            }
            if classic_castling(f, k) is Ok {
                assert forall|i: int| 0 <= i < k implies castling_letter(#[trigger] f[i]) by {
                    if i < j {
                        assert(castling_letter(f[i]));
                    }
                }
            }
        }
    }
}

/// When the classic reader accepts a FEN string, the white king-side right is granted iff
/// the castling field holds a `K`, the white queen-side right iff it holds a `Q`, the
/// black king-side right iff it holds a `k` and the black queen-side right iff it holds a
/// `q` (so a field `-` grants none).
pub proof fn lemma_classic_castling_field(s: Seq<char>)
    requires
        parse_classic_spec(s) is Ok,
    ensures
        ({
            let f = words_spec(s)[2];
            let c = parse_classic_spec(s)->Ok_0.castling;
            &&& c.spec_get(Color::White, Side::KingSide) == f.contains('K')
            &&& c.spec_get(Color::White, Side::QueenSide) == f.contains('Q')
            &&& c.spec_get(Color::Black, Side::KingSide) == f.contains('k')
            &&& c.spec_get(Color::Black, Side::QueenSide) == f.contains('q')
        }),
{
    let f = words_spec(s)[2];
    if f == seq!['-'] {
        CastlingRights::lemma_new_get(false, false, false, false);
        assert(!f.contains('K') && !f.contains('Q') && !f.contains('k') && !f.contains('q'));
    } else {
        lemma_classic_castling_rights(f, f.len());
        assert(f.contains('K') == has_char(f, f.len(), 'K'));
        assert(f.contains('Q') == has_char(f, f.len(), 'Q'));
        assert(f.contains('k') == has_char(f, f.len(), 'k'));
        assert(f.contains('q') == has_char(f, f.len(), 'q'));
    }
}

/// Whether one of the first `k` characters of `f` is `x` with no `-` before it.
pub open spec fn before_dash(f: Seq<char>, k: nat, x: char) -> bool {
    exists|i: int| 0 <= i < k && #[trigger] f[i] == x && !has_char(f, i as nat, '-')
}

/// The reader of `parse_fen_spec` accepts the first `k` characters of a castling field
/// exactly when each one up to the first `-` is one of `K`, `Q`, `k`, `q` and `-`; it
/// reports that a `-` was met iff one is among them, and grants the white king-side right
/// iff a `K` comes before any `-`, the white queen-side right iff a `Q` does, the black
/// king-side right iff a `k` does and the black queen-side right iff a `q` does.
pub proof fn lemma_castling_state_rights(f: Seq<char>, k: nat)
    requires
        k <= f.len(),
    ensures
        (castling_state(f, k) is Ok) == (forall|i: int|
            0 <= i < k ==> has_char(f, i as nat, '-') || castling_letter(#[trigger] f[i]) || f[i] == '-'),
        castling_state(f, k) is Ok ==> {
            let (done, c) = castling_state(f, k)->Ok_0;
            &&& done == has_char(f, k, '-')
            &&& c.spec_get(Color::White, Side::KingSide) == before_dash(f, k, 'K')
            &&& c.spec_get(Color::White, Side::QueenSide) == before_dash(f, k, 'Q')
            &&& c.spec_get(Color::Black, Side::KingSide) == before_dash(f, k, 'k')
            &&& c.spec_get(Color::Black, Side::QueenSide) == before_dash(f, k, 'q')
        },
    decreases k,
{
    if k == 0 {
        CastlingRights::lemma_new_get(false, false, false, false);
    } else {
        let j = (k - 1) as nat;
        lemma_castling_state_rights(f, j);
        assert forall|x: char| has_char(f, k, x) == (has_char(f, j, x) || f[j as int] == x) by {
            if has_char(f, k, x) {
                let i = choose|i: int| 0 <= i < k && f[i] == x;
                if i < j {
                    assert(has_char(f, j, x));
                }
            }
            if f[j as int] == x {
                assert(0 <= j < k && f[j as int] == x);
            }
        }
        assert forall|x: char| before_dash(f, k, x) == (before_dash(f, j, x) || (f[j as int] == x && !has_char(
            f,
            j,
            '-',
        ))) by {
            if before_dash(f, k, x) {
                let i = choose|i: int| 0 <= i < k && #[trigger] f[i] == x && !has_char(f, i as nat, '-');
                if i < j {
                    assert(before_dash(f, j, x));
                }
            }
            if f[j as int] == x && !has_char(f, j, '-') {
                assert(0 <= j < k && f[j as int] == x && !has_char(f, j, '-'));
            }
        }
        if castling_state(f, j) is Err {
            let i = choose|i: int|
                0 <= i < j && !(has_char(f, i as nat, '-') || castling_letter(#[trigger] f[i]) || f[i] == '-');
            assert(!(has_char(f, i as nat, '-') || castling_letter(f[i]) || f[i] == '-'));
        } else {
            let (done, c) = castling_state(f, j)->Ok_0;
            let ch = f[j as int];
            if done {
                assert(has_char(f, j, '-'));
                assert forall|x: char| before_dash(f, k, x) == before_dash(f, j, x) by {}
            } else if ch == 'K' {
                c.lemma_set_get(Color::White, Side::KingSide);
            } else if ch == 'Q' {
                c.lemma_set_get(Color::White, Side::QueenSide);
            } else if ch == 'k' {
                c.lemma_set_get(Color::Black, Side::KingSide);
            } else if ch == 'q' {
                c.lemma_set_get(Color::Black, Side::QueenSide);
            } else if ch == '-' {
            } else {
                assert(!(has_char(f, j, '-') || castling_letter(f[j as int]) || f[j as int] == '-'));
            }
            if castling_state(f, k) is Ok {
                assert forall|i: int| 0 <= i < k implies has_char(f, i as nat, '-') || castling_letter(
                    #[trigger] f[i],
                ) || f[i] == '-' by {
                    if i < j {
                        assert(has_char(f, i as nat, '-') || castling_letter(f[i]) || f[i] == '-');
                    }
                }
            }
        }
    }
}

/// When `parse_fen_spec` accepts a FEN string, the white king-side right is granted iff a
/// `K` stands in the castling field before any `-`, the white queen-side right iff a `Q`
/// does, the black king-side right iff a `k` does and the black queen-side right iff a
/// `q` does.
pub proof fn lemma_castling_field(s: Seq<char>)
    requires
        parse_fen_spec(s) is Ok,
    ensures
        ({
            let f = split_spec(s, ' ')[2];
            let c = parse_fen_spec(s)->Ok_0.castling;
            &&& c.spec_get(Color::White, Side::KingSide) == before_dash(f, f.len(), 'K')
            &&& c.spec_get(Color::White, Side::QueenSide) == before_dash(f, f.len(), 'Q')
            &&& c.spec_get(Color::Black, Side::KingSide) == before_dash(f, f.len(), 'k')
            &&& c.spec_get(Color::Black, Side::QueenSide) == before_dash(f, f.len(), 'q')
        }),
{
    let f = split_spec(s, ' ')[2];
    lemma_castling_state_rights(f, f.len());
}

/// Parses a FEN string as the classic reader does (see `parse_classic_spec`): fields
/// separated by white space, every placement row filled to its end, no count of kings and
/// the color by its first letter.
pub fn parse(fen: &str) -> (r: Result<FenParts, FenError>)
    ensures
        match parse_classic_spec(fen@) {
            Err(e) => r == Err::<FenParts, FenError>(e),
            Ok(st) => r is Ok && r->Ok_0.pieces.wf() && r->Ok_0.state() == st,
        },
{
    let chars = chars_of(fen);
    let fields = words(&chars);
    if fields.len() != 6 {
        return Err(FenError::FieldCount);
    }
    let ghost fs = words_spec(fen@);
    proof {
        assert(fs == views(fields@));
        assert(fs[0] == fields@[0]@);
        assert(fs[1] == fields@[1]@);
        assert(fs[2] == fields@[2]@);
        assert(fs[3] == fields@[3]@);
        assert(fs[4] == fields@[4]@);
        assert(fs[5] == fields@[5]@);
    }
    let rows = split(&fields[0], '/');
    if rows.len() != 8 {
        return Err(FenError::Rows);
    }
    let pieces = match classic_parse_placement(&rows) {
        Ok(p) => p,
        Err(e) => {
            return Err(e);
        },
    };
    let f1 = &fields[1];
    let to_move = if f1.len() > 0 && (f1[0] == 'w' || f1[0] == 'W') {
        Color::White
    } else if f1.len() > 0 && (f1[0] == 'b' || f1[0] == 'B') {
        Color::Black
    } else {
        return Err(FenError::ColorChar);
    };
    proof {
        reveal_strlit("-");
        assert("-"@ =~= seq!['-']);
    }
    let castling = if chars_eq(&fields[2], "-") {
        CastlingRights::new(false, false, false, false)
    } else {
        match classic_parse_castling(&fields[2]) {
            Ok(c) => c,
            Err(e) => return Err(e),
        }
    };
    let en_passant_sq = if chars_eq(&fields[3], "-") {
        None
    } else {
        match parse_square(&fields[3]) {
            Some(sq) => Some(sq),
            None => return Err(FenError::Square),
        }
    };
    let ply_clock: u8 = match parse_number(&fields[4], 0xffff_ffff) {
        Some(n) => if n > 255 { 255 } else { n as u8 },
        None => return Err(FenError::PlyText),
    };
    let move_number = match parse_number(&fields[5], 0xffff_ffff) {
        Some(n) => n as u32,
        None => return Err(FenError::MoveNumberText),
    };
    let r = FenParts { pieces, to_move, castling, en_passant_sq, ply_clock, move_number };
    proof {
        assert(classic_placement(split_spec(fs[0], '/'), 8) matches Ok((_, b)) && b == pieces@);
    }
    Ok(r)
}


/// A string without `sep` is one piece.
pub proof fn lemma_split_none(a: Seq<char>, sep: char)
    requires
        forall|i: int| 0 <= i < a.len() ==> a[i] != sep,
    ensures
        split_spec(a, sep) == seq![a],
    decreases a.len(),
{
    if a.len() > 0 {
        lemma_split_none(a.drop_last(), sep);
        assert(a.drop_last().push(a.last()) =~= a);
        assert(seq![a.drop_last()].update(0, a.drop_last().push(a.last())) =~= seq![a]);
    } else {
        assert(a =~= Seq::<char>::empty());
    }
}

/// Cutting `a`, `sep`, `b` at `sep` gives the pieces of `a` then those of `b`.
pub proof fn lemma_split_join(a: Seq<char>, b: Seq<char>, sep: char)
    ensures
        split_spec(a + seq![sep] + b, sep) == split_spec(a, sep) + split_spec(b, sep),
    decreases b.len(),
{
    let s = a + seq![sep] + b;
    lemma_split_len(a, sep);
    if b.len() == 0 {
        assert(s.drop_last() =~= a);
        assert(split_spec(a, sep).push(Seq::<char>::empty()) =~= split_spec(a, sep) + seq![Seq::<char>::empty()]);
    } else {
        let b1 = b.drop_last();
        lemma_split_join(a, b1, sep);
        lemma_split_len(b1, sep);
        assert(s.drop_last() =~= a + seq![sep] + b1);
        assert(s.last() == b.last());
        let x = split_spec(a, sep);
        let y = split_spec(b1, sep);
        if b.last() == sep {
            assert((x + y).push(Seq::<char>::empty()) =~= x + y.push(Seq::<char>::empty()));
        } else {
            assert((x + y).update((x + y).len() - 1, (x + y).last().push(b.last())) =~= x + y.update(
                y.len() - 1,
                y.last().push(b.last()),
            ));
        }
    }
}

} // verus!
