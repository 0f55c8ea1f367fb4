use vstd::prelude::*;

use crate::direction::Direction;

verus! {

/// A square of the board. Squares are enumerated in a little-endian
/// rank-file mapping: `A1` is 0, `B1` is 1, ..., `H8` is 63.
#[derive(Clone, Copy, Debug, PartialEq, Eq, Structural)]
pub enum Square {
    A1, B1, C1, D1, E1, F1, G1, H1,
    A2, B2, C2, D2, E2, F2, G2, H2,
    A3, B3, C3, D3, E3, F3, G3, H3,
    A4, B4, C4, D4, E4, F4, G4, H4,
    A5, B5, C5, D5, E5, F5, G5, H5,
    A6, B6, C6, D6, E6, F6, G6, H6,
    A7, B7, C7, D7, E7, F7, G7, H7,
    A8, B8, C8, D8, E8, F8, G8, H8
}

/// The rank (0-based) of the square with index `i`.
pub open spec fn rank_of(i: int) -> int {
    i / 8
}

/// The file (0-based) of the square with index `i`.
pub open spec fn file_of(i: int) -> int {
    i % 8
}

/// Whether rank `r` and file `f` lie on the board.
pub open spec fn on_board(r: int, f: int) -> bool {
    0 <= r < 8 && 0 <= f < 8
}

impl Square {
    /// The index of the square, in `0..64`.
    pub open spec fn idx(self) -> int {
        self as u8 as int
    }

    pub open spec fn spec_rank(self) -> int {
        rank_of(self.idx())
    }

    pub open spec fn spec_file(self) -> int {
        file_of(self.idx())
    }

    pub proof fn lemma_idx_bound(self)
        ensures
            0 <= self.idx() < 64,
    {
    }

    pub proof fn lemma_idx_bound_all()
        ensures
            forall|s: Square| 0 <= #[trigger] s.idx() < 64,
    {
    }

    /// The square with index `i`.
    pub fn from_index(i: u8) -> (r: Square)
        requires
            i < 64,
        ensures
            r.idx() == i,
            r == Square::from_index_spec(i as int),
    {
        proof {
            reveal(Square::from_index_spec);
        }
        match i {
            0 => Square::A1,
            1 => Square::B1,
            2 => Square::C1,
            3 => Square::D1,
            4 => Square::E1,
            5 => Square::F1,
            6 => Square::G1,
            7 => Square::H1,
            8 => Square::A2,
            9 => Square::B2,
            10 => Square::C2,
            11 => Square::D2,
            12 => Square::E2,
            13 => Square::F2,
            14 => Square::G2,
            15 => Square::H2,
            16 => Square::A3,
            17 => Square::B3,
            18 => Square::C3,
            19 => Square::D3,
            20 => Square::E3,
            21 => Square::F3,
            22 => Square::G3,
            23 => Square::H3,
            24 => Square::A4,
            25 => Square::B4,
            26 => Square::C4,
            27 => Square::D4,
            28 => Square::E4,
            29 => Square::F4,
            30 => Square::G4,
            31 => Square::H4,
            32 => Square::A5,
            33 => Square::B5,
            34 => Square::C5,
            35 => Square::D5,
            36 => Square::E5,
            37 => Square::F5,
            38 => Square::G5,
            39 => Square::H5,
            40 => Square::A6,
            41 => Square::B6,
            42 => Square::C6,
            43 => Square::D6,
            44 => Square::E6,
            45 => Square::F6,
            46 => Square::G6,
            47 => Square::H6,
            48 => Square::A7,
            49 => Square::B7,
            50 => Square::C7,
            51 => Square::D7,
            52 => Square::E7,
            53 => Square::F7,
            54 => Square::G7,
            55 => Square::H7,
            56 => Square::A8,
            57 => Square::B8,
            58 => Square::C8,
            59 => Square::D8,
            60 => Square::E8,
            61 => Square::F8,
            62 => Square::G8,
            63 => Square::H8,
            _ => Square::H8,
        }
    }

    /// The index of the square, in `0..64`.
    pub fn index(self) -> (r: u8)
        ensures
            r == self.idx(),
            r < 64,
    {
        self as u8
    }
}


impl Square {
    /// The rank of the square, from 0 (rank 1) to 7 (rank 8).
    pub fn rank(self) -> (r: u8)
        ensures
            r == self.spec_rank(),
            r < 8,
    {
        self.index() / 8
    }

    /// The file of the square, from 0 (file a) to 7 (file h).
    pub fn file(self) -> (r: u8)
        ensures
            r == self.spec_file(),
            r < 8,
    {
        self.index() % 8
    }

    /// The square on rank `rank` and file `file`.
    pub fn from_rank_file(rank: u8, file: u8) -> (r: Square)
        requires
            rank < 8,
            file < 8,
        ensures
            r.spec_rank() == rank,
            r.spec_file() == file,
            r.idx() == 8 * rank + file,
    {
        Square::from_index(8 * rank + file)
    }

    /// The square with index `x`. Indices above 63 are not squares.
    pub fn get(x: u8) -> (r: Square)
        requires
            x < 64,
        ensures
            r.idx() == x,
    {
        Square::from_index(x)
    }

    /// The square with index `x`, if there is one.
    pub fn try_from_index(x: u8) -> (r: Option<Square>)
        ensures
            x < 64 ==> r == Some(Square::from_index_spec(x as int)),
            x >= 64 ==> r.is_none(),
    {
        if x < 64 {
            Some(Square::from_index(x))
        } else {
            None
        }
    }

    /// The square with index `i` (`H8` for indices outside `0..63`).
    #[verifier::opaque]
    pub open spec fn from_index_spec(i: int) -> Square {
        if i == 0 { Square::A1 } else if i == 1 { Square::B1 } else if i == 2 { Square::C1 } else if i == 3 { Square::D1 } else if i == 4 { Square::E1 } else if i == 5 { Square::F1 } else if i == 6 { Square::G1 } else if i == 7 { Square::H1 } else if i == 8 { Square::A2 } else if i == 9 { Square::B2 } else if i == 10 { Square::C2 } else if i == 11 { Square::D2 } else if i == 12 { Square::E2 } else if i == 13 { Square::F2 } else if i == 14 { Square::G2 } else if i == 15 { Square::H2 } else if i == 16 { Square::A3 } else if i == 17 { Square::B3 } else if i == 18 { Square::C3 } else if i == 19 { Square::D3 } else if i == 20 { Square::E3 } else if i == 21 { Square::F3 } else if i == 22 { Square::G3 } else if i == 23 { Square::H3 } else if i == 24 { Square::A4 } else if i == 25 { Square::B4 } else if i == 26 { Square::C4 } else if i == 27 { Square::D4 } else if i == 28 { Square::E4 } else if i == 29 { Square::F4 } else if i == 30 { Square::G4 } else if i == 31 { Square::H4 } else if i == 32 { Square::A5 } else if i == 33 { Square::B5 } else if i == 34 { Square::C5 } else if i == 35 { Square::D5 } else if i == 36 { Square::E5 } else if i == 37 { Square::F5 } else if i == 38 { Square::G5 } else if i == 39 { Square::H5 } else if i == 40 { Square::A6 } else if i == 41 { Square::B6 } else if i == 42 { Square::C6 } else if i == 43 { Square::D6 } else if i == 44 { Square::E6 } else if i == 45 { Square::F6 } else if i == 46 { Square::G6 } else if i == 47 { Square::H6 } else if i == 48 { Square::A7 } else if i == 49 { Square::B7 } else if i == 50 { Square::C7 } else if i == 51 { Square::D7 } else if i == 52 { Square::E7 } else if i == 53 { Square::F7 } else if i == 54 { Square::G7 } else if i == 55 { Square::H7 } else if i == 56 { Square::A8 } else if i == 57 { Square::B8 } else if i == 58 { Square::C8 } else if i == 59 { Square::D8 } else if i == 60 { Square::E8 } else if i == 61 { Square::F8 } else if i == 62 { Square::G8 } else { Square::H8 }
    }

    pub proof fn lemma_from_index_spec(i: int)
        requires
            0 <= i < 64,
        ensures
            Square::from_index_spec(i).idx() == i,
    {
        reveal(Square::from_index_spec);
    }

    pub proof fn lemma_from_index_spec_idx(s: Square)
        ensures
            Square::from_index_spec(s.idx()) == s,
    {
        reveal(Square::from_index_spec);
    }

    pub proof fn lemma_idx_injective(a: Square, b: Square)
        ensures
            a.idx() == b.idx() <==> a == b,
    {
    }

    /// The file of the square.
    pub fn get_file(self) -> (r: File)
        ensures
            r as u8 == self.spec_file(),
    {
        File::from_index(self.file())
    }

    /// The rank of the square.
    pub fn get_rank(self) -> (r: Rank)
        ensures
            r as u8 == self.spec_rank(),
    {
        Rank::from_index(self.rank())
    }

    /// The square one step from `self` in direction `dir`.
    pub fn shift(self, dir: Direction) -> (r: Square)
        requires
            on_board(self.spec_rank() + dir.spec_dr(), self.spec_file() + dir.spec_df()),
        ensures
            r.spec_rank() == self.spec_rank() + dir.spec_dr(),
            r.spec_file() == self.spec_file() + dir.spec_df(),
            r.idx() == self.idx() + dir.spec_offset(),
    {
        let r = (self.rank() as i8 + dir.rank_step()) as u8;
        let f = (self.file() as i8 + dir.file_step()) as u8;
        Square::from_rank_file(r, f)
    }

    /// The square one step from `self` in the direction opposite to `dir`,
    /// i.e. the square from which a step in direction `dir` leads to `self`.
    pub fn shift_back(self, dir: Direction) -> (r: Square)
        requires
            on_board(self.spec_rank() - dir.spec_dr(), self.spec_file() - dir.spec_df()),
        ensures
            r.spec_rank() == self.spec_rank() - dir.spec_dr(),
            r.spec_file() == self.spec_file() - dir.spec_df(),
            r.idx() == self.idx() - dir.spec_offset(),
    {
        self.shift(dir.neg())
    }

    /// Applies the vector `vec` (in ranks and files), if the destination is on the board.
    pub fn add_vec(self, vec: SquareVec) -> (r: Option<Square>)
        ensures
            on_board(self.spec_rank() + vec.0, self.spec_file() + vec.1) ==> r is Some
                && r->0.spec_rank() == self.spec_rank() + vec.0
                && r->0.spec_file() == self.spec_file() + vec.1,
            !on_board(self.spec_rank() + vec.0, self.spec_file() + vec.1) ==> r is None,
    {
        let r = self.rank() as i16 + vec.0 as i16;
        let f = self.file() as i16 + vec.1 as i16;
        if 0 <= r && r < 8 && 0 <= f && f < 8 {
            Some(Square::from_rank_file(r as u8, f as u8))
        } else {
            None
        }
    }

    /// Applies the vector `vec` (as a difference of square indices), returning the destination.
    /// The destination must be a square.
    pub fn add_unchecked(self, vec: BinVec) -> (r: Square)
        requires
            0 <= self.idx() + vec.0 < 64,
        ensures
            r.idx() == self.idx() + vec.0,
    {
        Square::from_index((self.index() as i8 + vec.0) as u8)
    }

    /// Applies the vector `rhs`, if it does not leave the board to the east or west
    /// and the destination is a square.
    pub fn add_bin_vec(self, rhs: BinVec) -> (r: Option<Square>)
        ensures
            r is Some <==> (0 <= self.spec_file() + rhs.spec_files() <= 7
                && 0 <= self.idx() + rhs.0 < 64),
            r is Some ==> r->0.idx() == self.idx() + rhs.0,
    {
        let dest_file = self.file() as i8 + rhs.files();
        if dest_file >= 0 && dest_file <= 7 {
            let dest = self.index() as i16 + rhs.0 as i16;
            if 0 <= dest && dest < 64 {
                Some(Square::from_index(dest as u8))
            } else {
                None
            }
        } else {
            None
        }
    }

    /// The squares from `self` up to and including `end`, in increasing order.
    pub fn range_to(self, end: Square) -> (r: SquareRange)
        ensures
            self.idx() > end.idx() ==> r.spec_items() == Seq::<Square>::empty(),
            self.idx() <= end.idx() ==> r.spec_items().len() == end.idx() - self.idx() + 1,
            forall|i: int| 0 <= i < r.spec_items().len() ==> #[trigger] r.spec_items()[i].idx()
                == self.idx() + i,
    {
        proof {
            assert forall|i: int| 0 <= i < 64 implies #[trigger] Square::from_index_spec(i).idx() == i by {
                Square::lemma_from_index_spec(i);
            }
        }
        if self.index() > end.index() {
            SquareRange { next_sq: None, end }
        } else {
            SquareRange { next_sq: Some(self), end }
        }
    }

    /// All 64 squares, in increasing order of index.
    pub fn iter() -> (r: Vec<Square>)
        ensures
            r.len() == 64,
            forall|i: int| 0 <= i < 64 ==> #[trigger] r[i].idx() == i,
    {
        let mut v: Vec<Square> = Vec::new();
        let mut i: u8 = 0;
        while i < 64
            invariant
                i <= 64,
                v.len() == i,
                forall|j: int| 0 <= j < i ==> #[trigger] v[j].idx() == j,
            decreases 64 - i,
        {
            v.push(Square::from_index(i));
            i = i + 1;
        }
        v
    }

    /// Parses a square in algebraic notation, such as `e4`.
    pub fn from_chars(file: char, rank: char) -> (r: Option<Square>)
        ensures
            r is Some <==> ('a' <= file <= 'h' && '1' <= rank <= '8'),
            r is Some ==> r->0.spec_file() == file as int - 'a' as int
                && r->0.spec_rank() == rank as int - '1' as int,
    {
        if 'a' <= file && file <= 'h' && '1' <= rank && rank <= '8' {
            let f = (file as u32 - 'a' as u32) as u8;
            let rk = (rank as u32 - '1' as u32) as u8;
            Some(Square::from_rank_file(rk, f))
        } else {
            None
        }
    }

    /// The file letter of the square, `'a'` to `'h'`.
    pub fn file_char(self) -> (c: char)
        ensures
            c as int == 'a' as int + self.spec_file(),
    {
        File::from_index(self.file()).to_char()
    }

    /// The rank digit of the square, `'1'` to `'8'`.
    pub fn rank_char(self) -> (c: char)
        ensures
            c as int == '1' as int + self.spec_rank(),
    {
        Rank::from_index(self.rank()).to_char()
    }
}

/// An iterator over a range of consecutive squares.
pub struct SquareRange {
    next_sq: Option<Square>,
    end: Square,
}

impl SquareRange {
    #[verifier::type_invariant]
    spec fn inv(self) -> bool {
        self.next_sq matches Some(s) ==> s.idx() <= self.end.idx()
    }

    /// The squares that are still to come.
    pub closed spec fn spec_items(&self) -> Seq<Square> {
        match self.next_sq {
            None => Seq::empty(),
            Some(s) => Seq::new(
                if self.end.idx() >= s.idx() { (self.end.idx() - s.idx() + 1) as nat } else { 0 },
                |i: int| Square::from_index_spec(s.idx() + i),
            ),
        }
    }

    /// Returns the next square of the range, if any.
    pub fn next(&mut self) -> (r: Option<Square>)
        ensures
            old(self).spec_items().len() == 0 ==> r is None && final(self).spec_items().len() == 0,
            old(self).spec_items().len() > 0 ==> r == Some(old(self).spec_items()[0])
                && final(self).spec_items() == old(self).spec_items().drop_first(),
    {
        proof {
            use_type_invariant(&*self);
            if let Some(s) = self.next_sq {
                Square::lemma_from_index_spec(s.idx());
                Square::lemma_idx_injective(s, Square::from_index_spec(s.idx()));
            }
        }
        let res = self.next_sq;
        match self.next_sq {
            Some(sq) => {
                if sq.index() != self.end.index() && sq.index() < 63 {
                    self.next_sq = Some(Square::from_index(sq.index() + 1));
                } else {
                    self.next_sq = None;
                }
            },
            None => {},
        }
        proof {
            if let Some(s) = old(self).next_sq {
                if s.idx() < self.end.idx() {
                    assert(final(self).spec_items() =~= old(self).spec_items().drop_first());
                }
            }
        }
        res
    }
}

/// A file of the board.
#[derive(Clone, Copy, Debug, PartialEq, Eq, Structural)]
pub enum File {
    A, B, C, D, E, F, G, H,
}

impl File {
    pub fn from_index(i: u8) -> (r: File)
        requires
            i < 8,
        ensures
            r as u8 == i,
    {
        match i {
            0 => File::A,
            1 => File::B,
            2 => File::C,
            3 => File::D,
            4 => File::E,
            5 => File::F,
            6 => File::G,
            _ => File::H,
        }
    }

    /// Parses a file letter.
    pub fn try_from_char(c: char) -> (r: Option<File>)
        ensures
            r is Some <==> 'a' <= c <= 'h',
            r is Some ==> r->0 as u8 == c as int - 'a' as int,
    {
        if 'a' <= c && c <= 'h' {
            Some(File::from_index((c as u32 - 'a' as u32) as u8))
        } else {
            None
        }
    }

    /// The letter of the file.
    pub fn to_char(self) -> (c: char)
        ensures
            c as int == 'a' as int + self as u8,
    {
        match self {
            File::A => 'a',
            File::B => 'b',
            File::C => 'c',
            File::D => 'd',
            File::E => 'e',
            File::F => 'f',
            File::G => 'g',
            File::H => 'h',
        }
    }
}

/// A rank of the board.
#[derive(Clone, Copy, Debug, PartialEq, Eq, Structural)]
pub enum Rank {
    R1, R2, R3, R4, R5, R6, R7, R8,
}

impl Rank {
    pub fn from_index(i: u8) -> (r: Rank)
        requires
            i < 8,
        ensures
            r as u8 == i,
    {
        match i {
            0 => Rank::R1,
            1 => Rank::R2,
            2 => Rank::R3,
            3 => Rank::R4,
            4 => Rank::R5,
            5 => Rank::R6,
            6 => Rank::R7,
            _ => Rank::R8,
        }
    }

    /// Parses a rank digit.
    pub fn try_from_char(c: char) -> (r: Option<Rank>)
        ensures
            r is Some <==> '1' <= c <= '8',
            r is Some ==> r->0 as u8 == c as int - '1' as int,
    {
        if '1' <= c && c <= '8' {
            Some(Rank::from_index((c as u32 - '1' as u32) as u8))
        } else {
            None
        }
    }

    /// The digit of the rank.
    pub fn to_char(self) -> (c: char)
        ensures
            c as int == '1' as int + self as u8,
    {
        match self {
            Rank::R1 => '1',
            Rank::R2 => '2',
            Rank::R3 => '3',
            Rank::R4 => '4',
            Rank::R5 => '5',
            Rank::R6 => '6',
            Rank::R7 => '7',
            Rank::R8 => '8',
        }
    }
}

/// A vector on the board, in ranks and files.
#[derive(Clone, Copy, Debug, PartialEq, Eq, Structural)]
pub struct SquareVec(pub i8, pub i8);

/// A vector on the board, as a difference of square indices.
#[derive(Clone, Copy, Debug, PartialEq, Eq, Structural)]
pub struct BinVec(pub i8);

/// Rust's remainder of `a` by 8 (rounding the quotient towards zero).
pub open spec fn trunc_rem8(a: int) -> int {
    if a >= 0 { a % 8 } else { -((-a) % 8) }
}

/// Rust's quotient of `a` by 8 (rounded towards zero).
pub open spec fn trunc_div8(a: int) -> int {
    if a >= 0 { a / 8 } else { -((-a) / 8) }
}

impl BinVec {
    /// The number of ranks of the shortest board displacement with this index difference.
    pub open spec fn spec_ranks(self) -> int {
        let f = trunc_rem8(self.0 as int);
        let q = trunc_div8(self.0 as int);
        if self.0 > 0 && f > 4 {
            q + 1
        } else if f < -4 {
            q - 1
        } else {
            q
        }
    }

    /// The number of files of the shortest board displacement with this index difference.
    pub open spec fn spec_files(self) -> int {
        let f = trunc_rem8(self.0 as int);
        if self.0 > 0 && f > 4 {
            f - 8
        } else if f < -4 {
            8 + f
        } else {
            f
        }
    }

    pub fn ranks(self) -> (r: i8)
        ensures
            r == self.spec_ranks(),
            8 * r + self.spec_files() == self.0,
    {
        let f = self.0 % 8;
        if self.0 > 0 && f > 4 {
            self.0 / 8 + 1
        } else if f < -4 {
            self.0 / 8 - 1
        } else {
            self.0 / 8
        }
    }

    pub fn files(self) -> (r: i8)
        ensures
            r == self.spec_files(),
            -4 <= r <= 4,
    {
        let f = self.0 % 8;
        if self.0 > 0 && f > 4 {
            f - 8
        } else if f < -4 {
            8 + f
        } else {
            f
        }
    }
}

} // verus!
