use vstd::prelude::*;

use crate::bits;
use crate::direction::Direction;
use crate::square::{file_of, on_board, rank_of, Square};

verus! {

/// Whether bit `i` of `b` is set.
pub open spec fn bit(b: u64, i: u64) -> bool {
    (b >> i) & 1u64 == 1u64
}

/// The set of square indices whose bits are set in `b`.
pub open spec fn squares_of(b: u64) -> Set<int> {
    Set::new(|i: int| 0 <= i < 64 && bit(b, i as u64))
}

/// A set of squares, one bit per square index.
#[derive(Clone, Copy, Debug, PartialEq, Eq, Structural)]
pub struct Bitboard(pub u64);

impl View for Bitboard {
    type V = Set<int>;

    open spec fn view(&self) -> Set<int> {
        squares_of(self.0)
    }
}

pub proof fn lemma_bit_or(a: u64, b: u64, i: u64)
    requires
        i < 64,
    ensures
        bit(a | b, i) == (bit(a, i) || bit(b, i)),
{
    assert(((a | b) >> i) & 1u64 == 1u64 <==> ((a >> i) & 1u64 == 1u64 || (b >> i) & 1u64 == 1u64))
        by (bit_vector)
        requires
            i < 64,
    ;
}

pub proof fn lemma_bit_and(a: u64, b: u64, i: u64)
    requires
        i < 64,
    ensures
        bit(a & b, i) == (bit(a, i) && bit(b, i)),
{
    assert(((a & b) >> i) & 1u64 == 1u64 <==> ((a >> i) & 1u64 == 1u64 && (b >> i) & 1u64 == 1u64))
        by (bit_vector)
        requires
            i < 64,
    ;
}

pub proof fn lemma_bit_not(a: u64, i: u64)
    requires
        i < 64,
    ensures
        bit(!a, i) == !bit(a, i),
{
    assert(((!a) >> i) & 1u64 == 1u64 <==> !((a >> i) & 1u64 == 1u64)) by (bit_vector)
        requires
            i < 64,
    ;
}

pub proof fn lemma_bit_andn(a: u64, b: u64, i: u64)
    requires
        i < 64,
    ensures
        bit(!a & b, i) == (!bit(a, i) && bit(b, i)),
{
    assert((((!a) & b) >> i) & 1u64 == 1u64 <==> (!((a >> i) & 1u64 == 1u64) && (b >> i) & 1u64
        == 1u64)) by (bit_vector)
        requires
            i < 64,
    ;
}

pub proof fn lemma_bit_single(s: u64, i: u64)
    requires
        i < 64,
        s < 64,
    ensures
        bit(1u64 << s, i) == (i == s),
{
    assert(((1u64 << s) >> i) & 1u64 == 1u64 <==> i == s) by (bit_vector)
        requires
            i < 64,
            s < 64,
    ;
}

pub proof fn lemma_bit_zero(i: u64)
    ensures
        !bit(0u64, i),
{
    assert((0u64 >> i) & 1u64 != 1u64) by (bit_vector);
}

pub proof fn lemma_bit_lowest_clear(b: u64, i: u64)
    requires
        i < 64,
        b != 0,
    ensures
        bit(b & ((b - 1u64) as u64), i) == (bit(b, i) && i != vstd::std_specs::bits::u64_trailing_zeros(b)),
{
    vstd::std_specs::bits::axiom_u64_trailing_zeros(b);
    let t = vstd::std_specs::bits::u64_trailing_zeros(b) as u64;
    assert(t < 64);
    assert((b >> t) & 1u64 == 1u64);
    assert(b << ((64u64 - t) as u64) == 0);
    assert(b != 0 && t < 64 && (b >> t) & 1u64 == 1u64 && b << ((64u64 - t) as u64) == 0 && i < 64
        ==> (((b & ((b - 1u64) as u64)) >> i) & 1u64 == 1u64 <==> ((b >> i) & 1u64 == 1u64 && i != t)))
        by (bit_vector);
}

/// `squares_of(b)` is empty exactly when `b` is zero.
pub proof fn lemma_empty_iff_zero(b: u64)
    ensures
        squares_of(b) =~= Set::<int>::empty() <==> b == 0,
{
    vstd::std_specs::bits::axiom_u64_trailing_zeros(b);
    if b == 0 {
        assert forall|i: int| !squares_of(b).contains(i) by {
            lemma_bit_zero(i as u64);
        }
    } else {
        let t = vstd::std_specs::bits::u64_trailing_zeros(b);
        assert(squares_of(b).contains(t as int));
    }
}

/// Two words are equal when they have the same squares.
pub proof fn lemma_squares_of_injective(a: u64, b: u64)
    requires
        squares_of(a) =~= squares_of(b),
    ensures
        a == b,
{
    let x = a ^ b;
    vstd::std_specs::bits::axiom_u64_trailing_zeros(x);
    if x != 0 {
        let t = vstd::std_specs::bits::u64_trailing_zeros(x) as u64;
        assert(squares_of(a).contains(t as int) == squares_of(b).contains(t as int));
        assert(((a ^ b) >> t) & 1u64 == 1u64 && t < 64 ==> ((a >> t) & 1u64 == 1u64) != ((b >> t)
            & 1u64 == 1u64)) by (bit_vector);
    }
    assert(a ^ b == 0 ==> a == b) by (bit_vector);
}

/// The number of set bits among the lowest `n` bits of `b`.
pub open spec fn count_low(b: u64, n: nat) -> nat
    decreases n,
{
    if n == 0 {
        0
    } else {
        count_low(b, (n - 1) as nat) + if bit(b, (n - 1) as u64) { 1nat } else { 0nat }
    }
}

/// The squares of `b` with index below `n`.
pub open spec fn squares_below(b: u64, n: int) -> Set<int> {
    Set::new(|i: int| 0 <= i < n && i < 64 && bit(b, i as u64))
}

pub proof fn lemma_count_low(b: u64, n: nat)
    requires
        n <= 64,
    ensures
        squares_below(b, n as int).finite(),
        squares_below(b, n as int).len() == count_low(b, n),
    decreases n,
{
    if n == 0 {
        assert(squares_below(b, 0) =~= Set::<int>::empty());
    } else {
        let m = (n - 1) as nat;
        lemma_count_low(b, m);
        if bit(b, m as u64) {
            assert(squares_below(b, n as int) =~= squares_below(b, m as int).insert(m as int));
        } else {
            assert(squares_below(b, n as int) =~= squares_below(b, m as int));
        }
    }
}

pub proof fn lemma_view_finite(b: u64)
    ensures
        squares_of(b).finite(),
        squares_of(b).len() == count_low(b, 64),
        squares_of(b).len() <= 64,
{
    lemma_count_low(b, 64);
    assert(squares_below(b, 64) =~= squares_of(b));
    lemma_count_low_bound(b, 64);
}

pub proof fn lemma_count_low_bound(b: u64, n: nat)
    ensures
        count_low(b, n) <= n,
    decreases n,
{
    if n > 0 {
        lemma_count_low_bound(b, (n - 1) as nat);
    }
}

/// The squares of rank `r`.
pub open spec fn rank_set(r: int) -> Set<int> {
    Set::new(|i: int| 0 <= i < 64 && rank_of(i) == r)
}

/// The squares of file `f`.
pub open spec fn file_set(f: int) -> Set<int> {
    Set::new(|i: int| 0 <= i < 64 && file_of(i) == f)
}

/// The squares of the diagonal on which rank minus file is `d - 7`.
pub open spec fn diag_set(d: int) -> Set<int> {
    Set::new(|i: int| 0 <= i < 64 && rank_of(i) - file_of(i) == d - 7)
}

/// The squares of the anti-diagonal on which rank plus file is `a`.
pub open spec fn anti_diag_set(a: int) -> Set<int> {
    Set::new(|i: int| 0 <= i < 64 && rank_of(i) + file_of(i) == a)
}

/// The squares reached from the squares of `s` by one step in direction `dir`,
/// leaving out steps that would leave the board.
pub open spec fn shifted(s: Set<int>, dir: Direction) -> Set<int> {
    Set::new(
        |t: int|
            0 <= t < 64 && on_board(rank_of(t) - dir.spec_dr(), file_of(t) - dir.spec_df())
                && s.contains(t - dir.spec_offset()),
    )
}

impl Bitboard {
    /// Creates an empty `Bitboard`.
    pub fn new() -> (r: Bitboard)
        ensures
            r@ == Set::<int>::empty(),
            r.0 == 0,
    {
        proof {
            lemma_empty_iff_zero(0);
        }
        Bitboard(0)
    }

    /// The `Bitboard` holding just `sq`.
    pub fn from_sq(sq: Square) -> (r: Bitboard)
        ensures
            r@ == Set::<int>::empty().insert(sq.idx()),
    {
        Bitboard::new().add_sq(sq)
    }

    /// Returns a new `Bitboard` with `Square` `sq` added.
    pub fn add_sq(self, sq: Square) -> (r: Bitboard)
        ensures
            r@ == self@.insert(sq.idx()),
    {
        let s = sq.index() as u64;
        let r = Bitboard(self.0 | (1u64 << s));
        proof {
            assert forall|i: int| r@.contains(i) == self@.insert(sq.idx()).contains(i) by {
                if 0 <= i < 64 {
                    lemma_bit_or(self.0, 1u64 << s, i as u64);
                    lemma_bit_single(s, i as u64);
                }
            }
            assert(r@ =~= self@.insert(sq.idx()));
        }
        r
    }

    /// Returns a new `Bitboard` with `Square` `sq` removed.
    pub fn remove_sq(self, sq: Square) -> (r: Bitboard)
        ensures
            r@ == self@.remove(sq.idx()),
    {
        let s = sq.index() as u64;
        let r = Bitboard(self.0 & !(1u64 << s));
        proof {
            assert forall|i: int| r@.contains(i) == self@.remove(sq.idx()).contains(i) by {
                if 0 <= i < 64 {
                    lemma_bit_and(self.0, !(1u64 << s), i as u64);
                    lemma_bit_not(1u64 << s, i as u64);
                    lemma_bit_single(s, i as u64);
                }
            }
            assert(r@ =~= self@.remove(sq.idx()));
        }
        r
    }

    /// Whether `sq` is in the set.
    pub fn contains(self, sq: Square) -> (r: bool)
        ensures
            r == self@.contains(sq.idx()),
    {
        (self.0 >> (sq.index() as u64)) & 1 == 1
    }

    /// Returns whether the `Bitboard` is empty or not.
    pub fn is_empty(self) -> (r: bool)
        ensures
            r == (self@ == Set::<int>::empty()),
            r == (self.0 == 0),
    {
        proof {
            lemma_empty_iff_zero(self.0);
        }
        self.0 == 0
    }

    /// The union of two sets.
    pub fn union(self, rhs: Bitboard) -> (r: Bitboard)
        ensures
            r@ == self@.union(rhs@),
    {
        let r = Bitboard(self.0 | rhs.0);
        proof {
            assert forall|i: int| r@.contains(i) == self@.union(rhs@).contains(i) by {
                if 0 <= i < 64 {
                    lemma_bit_or(self.0, rhs.0, i as u64);
                }
            }
            assert(r@ =~= self@.union(rhs@));
        }
        r
    }

    /// The intersection of two sets.
    pub fn intersect(self, rhs: Bitboard) -> (r: Bitboard)
        ensures
            r@ == self@.intersect(rhs@),
    {
        let r = Bitboard(self.0 & rhs.0);
        proof {
            assert forall|i: int| r@.contains(i) == self@.intersect(rhs@).contains(i) by {
                if 0 <= i < 64 {
                    lemma_bit_and(self.0, rhs.0, i as u64);
                }
            }
            assert(r@ =~= self@.intersect(rhs@));
        }
        r
    }

    /// All squares not in the set.
    pub fn complement(self) -> (r: Bitboard)
        ensures
            r@ == Set::new(|i: int| 0 <= i < 64 && !self@.contains(i)),
    {
        let r = Bitboard(!self.0);
        proof {
            assert forall|i: int|
                r@.contains(i) == (0 <= i < 64 && !self@.contains(i)) by {
                if 0 <= i < 64 {
                    lemma_bit_not(self.0, i as u64);
                }
            }
            assert(r@ =~= Set::new(|i: int| 0 <= i < 64 && !self@.contains(i)));
        }
        r
    }

    /// The set of all 64 squares.
    pub fn full() -> (r: Bitboard)
        ensures
            r@ == Set::new(|i: int| 0 <= i < 64),
    {
        let r = Bitboard::new().complement();
        assert(r@ =~= Set::new(|i: int| 0 <= i < 64));
        r
    }

    /// The squares of `self` that are not in `rhs`.
    pub fn minus(self, rhs: Bitboard) -> (r: Bitboard)
        ensures
            r@ == self@.difference(rhs@),
    {
        let r = Bitboard(bits::andn(rhs.0, self.0));
        proof {
            assert forall|i: int| r@.contains(i) == self@.difference(rhs@).contains(i) by {
                if 0 <= i < 64 {
                    lemma_bit_andn(rhs.0, self.0, i as u64);
                }
            }
            assert(r@ =~= self@.difference(rhs@));
        }
        r
    }

    /// The number of squares in the set.
    pub fn len(self) -> (r: u32)
        ensures
            r == self@.len(),
            r <= 64,
    {
        proof {
            lemma_view_finite(self.0);
        }
        bits::popcnt(self.0) as u32
    }

    /// The square of the set with the lowest index. The set must not be empty.
    pub fn first_sq(self) -> (r: Square)
        requires
            self@ != Set::<int>::empty(),
        ensures
            self@.contains(r.idx()),
            forall|j: int| 0 <= j < r.idx() ==> !self@.contains(j),
    {
        proof {
            lemma_empty_iff_zero(self.0);
            vstd::std_specs::bits::axiom_u64_trailing_zeros(self.0);
        }
        let t = bits::tzcnt(self.0);
        let r = Square::from_index(t as u8);
        proof {
            let tz = vstd::std_specs::bits::u64_trailing_zeros(self.0);
            assert forall|j: int| 0 <= j < r.idx() implies !self@.contains(j) by {
                assert((self.0 >> (j as u64)) & 1u64 == 0u64);
            }
        }
        r
    }

    /// The squares of the set, from the lowest index up.
    pub fn squares(self) -> (r: Vec<Square>)
        ensures
            forall|i: int, j: int| 0 <= i < j < r@.len() ==> r@[i].idx() < r@[j].idx(),
            forall|i: int| 0 <= i < r@.len() ==> self@.contains(#[trigger] r@[i].idx()),
            forall|k: int| #[trigger] self@.contains(k) ==> exists|i: int| 0 <= i < r@.len() && r@[i].idx() == k,
            r@.len() == 0 <==> self@ == Set::<int>::empty(),
    {
        let mut out: Vec<Square> = Vec::new();
        let mut rest = self;
        while !rest.is_empty()
            invariant
                rest@.subset_of(self@),
                forall|i: int, j: int| 0 <= i < j < out@.len() ==> out@[i].idx() < out@[j].idx(),
                forall|i: int| 0 <= i < out@.len() ==> self@.contains(#[trigger] out@[i].idx()) && !rest@.contains(out@[i].idx()),
                forall|i: int, k: int| 0 <= i < out@.len() && #[trigger] rest@.contains(k) ==> #[trigger] out@[i].idx() < k,
                forall|k: int| #[trigger] self@.contains(k) && !rest@.contains(k) ==> exists|i: int| 0 <= i < out@.len() && out@[i].idx() == k,
            decreases rest@.len(),
        {
            proof {
                lemma_view_finite(rest.0);
            }
            let sq = rest.first_sq();
            let ghost before = out@;
            out.push(sq);
            let ghost r0 = rest@;
            let ghost rb = rest;
            rest = rest.without_first();
            proof {
                lemma_view_finite(rest.0);
                assert(rb.spec_first() == sq.idx()) by {
                    if rb.spec_first() < sq.idx() {
                        assert(!r0.contains(rb.spec_first()));
                    } else if rb.spec_first() > sq.idx() {
                        assert(!r0.contains(sq.idx()));
                    }
                }
                assert(rest@ =~= r0.remove(sq.idx()));
                assert forall|k: int| #[trigger] self@.contains(k) && !rest@.contains(k) implies exists|i: int|
                    0 <= i < out@.len() && out@[i].idx() == k by {
                    if k == sq.idx() {
                        assert(out@[before.len() as int].idx() == k);
                    } else {
                        let i = choose|i: int| 0 <= i < before.len() && before[i].idx() == k;
                        assert(out@[i] == before[i]);
                    }
                }
            }
        }
        proof {
            if self@ != Set::<int>::empty() {
                assert(exists|k: int| self@.contains(k)) by {
                    if forall|k: int| !self@.contains(k) {
                        assert(self@ =~= Set::<int>::empty());
                    }
                }
                let k = choose|k: int| self@.contains(k);
                assert(!rest@.contains(k));
            }
            if out@.len() > 0 {
                assert(self@.contains(out@[0].idx()));
            }
        }
        out
    }

    /// The set without its square of lowest index.
    pub fn without_first(self) -> (r: Bitboard)
        requires
            self@ != Set::<int>::empty(),
        ensures
            r@ == self@.remove(self.spec_first()),
            self@.contains(self.spec_first()),
            forall|j: int| 0 <= j < self.spec_first() ==> !self@.contains(j),
    {
        proof {
            lemma_empty_iff_zero(self.0);
            vstd::std_specs::bits::axiom_u64_trailing_zeros(self.0);
        }
        let r = Bitboard(bits::blsr(self.0));
        proof {
            let t = self.spec_first();
            assert forall|i: int| r@.contains(i) == self@.remove(t).contains(i) by {
                if 0 <= i < 64 {
                    lemma_bit_lowest_clear(self.0, i as u64);
                }
            }
            assert(r@ =~= self@.remove(t));
            assert forall|j: int| 0 <= j < self.spec_first() implies !self@.contains(j) by {
                assert((self.0 >> (j as u64)) & 1u64 == 0u64);
            }
        }
        r
    }

    /// The index of the square of lowest index (64 for the empty set).
    pub open spec fn spec_first(self) -> int {
        vstd::std_specs::bits::u64_trailing_zeros(self.0) as int
    }
}


/// The squares off file h.
pub const NOT_FILE_H: u64 = 0x7f7f_7f7f_7f7f_7f7f;

/// The squares off file a.
pub const NOT_FILE_A: u64 = 0xfefe_fefe_fefe_fefe;

pub proof fn lemma_shift_north(b: u64, t: u64)
    requires
        t < 64,
    ensures
        bit(b << 8u64, t) == (t >= 8 && bit(b, (t - 8) as u64)),
{
    assert(((b << 8u64) >> t) & 1u64 == 1u64 <==> (t >= 8 && (b >> ((t - 8) as u64)) & 1u64 == 1u64))
        by (bit_vector)
        requires
            t < 64,
    ;
}

pub proof fn lemma_shift_south(b: u64, t: u64)
    requires
        t < 64,
    ensures
        bit(b >> 8u64, t) == (t < 56 && bit(b, (t + 8) as u64)),
{
    assert(((b >> 8u64) >> t) & 1u64 == 1u64 <==> (t < 56 && (b >> ((t + 8) as u64)) & 1u64 == 1u64))
        by (bit_vector)
        requires
            t < 64,
    ;
}

pub proof fn lemma_shift_north_east(b: u64, t: u64)
    requires
        t < 64,
    ensures
        bit((b & NOT_FILE_H) << 9u64, t) == (t >= 9 && t % 8 != 0 && bit(b, (t - 9) as u64)),
{
    assert((((b & 0x7f7f_7f7f_7f7f_7f7fu64) << 9u64) >> t) & 1u64 == 1u64 <==> (t >= 9 && t % 8 != 0
        && (b >> ((t - 9) as u64)) & 1u64 == 1u64)) by (bit_vector)
        requires
            t < 64,
    ;
}

pub proof fn lemma_shift_east(b: u64, t: u64)
    requires
        t < 64,
    ensures
        bit((b & NOT_FILE_H) << 1u64, t) == (t >= 1 && t % 8 != 0 && bit(b, (t - 1) as u64)),
{
    assert((((b & 0x7f7f_7f7f_7f7f_7f7fu64) << 1u64) >> t) & 1u64 == 1u64 <==> (t >= 1 && t % 8 != 0
        && (b >> ((t - 1) as u64)) & 1u64 == 1u64)) by (bit_vector)
        requires
            t < 64,
    ;
}

pub proof fn lemma_shift_south_east(b: u64, t: u64)
    requires
        t < 64,
    ensures
        bit((b & NOT_FILE_H) >> 7u64, t) == (t < 57 && t % 8 != 0 && bit(b, (t + 7) as u64)),
{
    assert((((b & 0x7f7f_7f7f_7f7f_7f7fu64) >> 7u64) >> t) & 1u64 == 1u64 <==> (t < 57 && t % 8 != 0
        && (b >> ((t + 7) as u64)) & 1u64 == 1u64)) by (bit_vector)
        requires
            t < 64,
    ;
}

pub proof fn lemma_shift_south_west(b: u64, t: u64)
    requires
        t < 64,
    ensures
        bit((b & NOT_FILE_A) >> 9u64, t) == (t < 55 && t % 8 != 7 && bit(b, (t + 9) as u64)),
{
    assert((((b & 0xfefe_fefe_fefe_fefeu64) >> 9u64) >> t) & 1u64 == 1u64 <==> (t < 55 && t % 8 != 7
        && (b >> ((t + 9) as u64)) & 1u64 == 1u64)) by (bit_vector)
        requires
            t < 64,
    ;
}

pub proof fn lemma_shift_west(b: u64, t: u64)
    requires
        t < 64,
    ensures
        bit((b & NOT_FILE_A) >> 1u64, t) == (t < 63 && t % 8 != 7 && bit(b, (t + 1) as u64)),
{
    assert((((b & 0xfefe_fefe_fefe_fefeu64) >> 1u64) >> t) & 1u64 == 1u64 <==> (t < 63 && t % 8 != 7
        && (b >> ((t + 1) as u64)) & 1u64 == 1u64)) by (bit_vector)
        requires
            t < 64,
    ;
}

pub proof fn lemma_shift_north_west(b: u64, t: u64)
    requires
        t < 64,
    ensures
        bit((b & NOT_FILE_A) << 7u64, t) == (t >= 7 && t % 8 != 7 && bit(b, (t - 7) as u64)),
{
    assert((((b & 0xfefe_fefe_fefe_fefeu64) << 7u64) >> t) & 1u64 == 1u64 <==> (t >= 7 && t % 8 != 7
        && (b >> ((t - 7) as u64)) & 1u64 == 1u64)) by (bit_vector)
        requires
            t < 64,
    ;
}

impl Bitboard {
    /// Moves every square of the set one step in direction `dir`; squares that would
    /// leave the board are dropped.
    pub fn shift(self, dir: Direction) -> (r: Bitboard)
        ensures
            r@ == shifted(self@, dir),
    {
        let b = self.0;
        let r = match dir {
            Direction::North => Bitboard(b << 8u64),
            Direction::NorthEast => Bitboard((b & NOT_FILE_H) << 9u64),
            Direction::East => Bitboard((b & NOT_FILE_H) << 1u64),
            Direction::SouthEast => Bitboard((b & NOT_FILE_H) >> 7u64),
            Direction::South => Bitboard(b >> 8u64),
            Direction::SouthWest => Bitboard((b & NOT_FILE_A) >> 9u64),
            Direction::West => Bitboard((b & NOT_FILE_A) >> 1u64),
            Direction::NorthWest => Bitboard((b & NOT_FILE_A) << 7u64),
        };
        proof {
            assert forall|t: int| r@.contains(t) == shifted(self@, dir).contains(t) by {
                if 0 <= t < 64 {
                    let tt = t as u64;
                    match dir {
                        Direction::North => lemma_shift_north(b, tt),
                        Direction::NorthEast => lemma_shift_north_east(b, tt),
                        Direction::East => lemma_shift_east(b, tt),
                        Direction::SouthEast => lemma_shift_south_east(b, tt),
                        Direction::South => lemma_shift_south(b, tt),
                        Direction::SouthWest => lemma_shift_south_west(b, tt),
                        Direction::West => lemma_shift_west(b, tt),
                        Direction::NorthWest => lemma_shift_north_west(b, tt),
                    }
                }
            }
            assert(r@ =~= shifted(self@, dir));
        }
        r
    }
}

impl Bitboard {
    /// The squares of rank `r` (0 for rank 1).
    pub fn rank(rank_idx: u8) -> (res: Bitboard)
        requires
            rank_idx < 8,
        ensures
            res@ == rank_set(rank_idx as int),
    {
        let mut acc = Bitboard::new();
        let mut i: u8 = 0;
        while i < 64
            invariant
                i <= 64,
                rank_idx < 8,
                acc@ == Set::new(|j: int| 0 <= j < i && rank_of(j) == rank_idx),
            decreases 64 - i,
        {
            let sq = Square::from_index(i);
            let rank = sq.rank();
            let file = sq.file();
            if rank == rank_idx {
                acc = acc.add_sq(sq);
            }
            assert(acc@ =~= Set::new(|j: int| 0 <= j < i + 1 && rank_of(j) == rank_idx));
            i = i + 1;
        }
        assert(acc@ =~= rank_set(rank_idx as int));
        acc
    }

    /// The squares of file `f` (0 for file a).
    pub fn file(f: u8) -> (r: Bitboard)
        requires
            f < 8,
        ensures
            r@ == file_set(f as int),
    {
        let mut acc = Bitboard::new();
        let mut i: u8 = 0;
        while i < 64
            invariant
                i <= 64,
                f < 8,
                acc@ == Set::new(|j: int| 0 <= j < i && file_of(j) == f),
            decreases 64 - i,
        {
            let sq = Square::from_index(i);
            let rank = sq.rank();
            let file = sq.file();
            if file == f {
                acc = acc.add_sq(sq);
            }
            assert(acc@ =~= Set::new(|j: int| 0 <= j < i + 1 && file_of(j) == f));
            i = i + 1;
        }
        assert(acc@ =~= file_set(f as int));
        acc
    }

    /// The squares of the diagonal on which rank minus file is `d - 7`.
    pub fn diag(d: u8) -> (r: Bitboard)
        requires
            d < 15,
        ensures
            r@ == diag_set(d as int),
    {
        let mut acc = Bitboard::new();
        let mut i: u8 = 0;
        while i < 64
            invariant
                i <= 64,
                d < 15,
                acc@ == Set::new(|j: int| 0 <= j < i && rank_of(j) - file_of(j) == d - 7),
            decreases 64 - i,
        {
            let sq = Square::from_index(i);
            let rank = sq.rank();
            let file = sq.file();
            if rank + 7 == d + file {
                acc = acc.add_sq(sq);
            }
            assert(acc@ =~= Set::new(|j: int| 0 <= j < i + 1 && rank_of(j) - file_of(j) == d - 7));
            i = i + 1;
        }
        assert(acc@ =~= diag_set(d as int));
        acc
    }

    /// The squares of the anti-diagonal on which rank plus file is `a`.
    pub fn anti_diag(a: u8) -> (r: Bitboard)
        requires
            a < 15,
        ensures
            r@ == anti_diag_set(a as int),
    {
        let mut acc = Bitboard::new();
        let mut i: u8 = 0;
        while i < 64
            invariant
                i <= 64,
                a < 15,
                acc@ == Set::new(|j: int| 0 <= j < i && rank_of(j) + file_of(j) == a),
            decreases 64 - i,
        {
            let sq = Square::from_index(i);
            let rank = sq.rank();
            let file = sq.file();
            if rank + file == a {
                acc = acc.add_sq(sq);
            }
            assert(acc@ =~= Set::new(|j: int| 0 <= j < i + 1 && rank_of(j) + file_of(j) == a));
            i = i + 1;
        }
        assert(acc@ =~= anti_diag_set(a as int));
        acc
    }
}

} // verus!
