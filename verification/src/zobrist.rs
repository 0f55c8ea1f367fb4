use vstd::prelude::*;

use crate::castling::CastlingRights;
use crate::piece::{Color, Piece, PieceKind, Side};
use crate::square::Square;

verus! {

/// The SplitMix64 finalizer: a fixed, well mixing function of a 64-bit word.
#[verifier::opaque]
pub open spec fn mix(x: u64) -> u64 {
    let z0 = vstd::wrapping::u64_specs::wrapping_add(x, 0x9e37_79b9_7f4a_7c15u64);
    let z1 = vstd::wrapping::u64_specs::wrapping_mul(z0 ^ (z0 >> 30u64), 0xbf58_476d_1ce4_e5b9u64);
    let z2 = vstd::wrapping::u64_specs::wrapping_mul(z1 ^ (z1 >> 27u64), 0x94d0_49bb_1331_11ebu64);
    z2 ^ (z2 >> 31u64)
}

/// The hash key number `i`. Keys 0 to 767 are for pieces on squares, 768 for black to
/// move, 769 to 784 for the sixteen combinations of castling rights and 785 to 792 for
/// the file of the en passant square.
pub open spec fn key_spec(i: int) -> u64 {
    mix(i as u64)
}

/// The hash key number `i`.
pub fn key(i: u16) -> (r: u64)
    ensures
        r == key_spec(i as int),
{
    proof {
        reveal(mix);
    }
    let z0 = (i as u64).wrapping_add(0x9e37_79b9_7f4a_7c15u64);
    let z1 = (z0 ^ (z0 >> 30u64)).wrapping_mul(0xbf58_476d_1ce4_e5b9u64);
    let z2 = (z1 ^ (z1 >> 27u64)).wrapping_mul(0x94d0_49bb_1331_11ebu64);
    z2 ^ (z2 >> 31u64)
}

/// The number of a piece, from 0 (white pawn) to 11 (black king).
pub open spec fn piece_index(p: Piece) -> int {
    (match p.1 {
        Color::White => 0int,
        Color::Black => 6int,
    }) + (p.0 as u8 as int)
}

pub fn piece_index_exec(p: Piece) -> (r: u16)
    ensures
        r == piece_index(p),
        r < 12,
{
    let c: u16 = match p.1 {
        Color::White => 0,
        Color::Black => 6,
    };
    c + (p.0 as u8 as u16)
}

/// The key of what stands on square `sq`: zero for an empty square.
pub open spec fn piece_key(p: Option<Piece>, sq: int) -> u64 {
    match p {
        None => 0,
        Some(p) => key_spec(64 * piece_index(p) + sq),
    }
}

/// The key of piece `p` on square `sq`.
pub fn piece_key_exec(p: Piece, sq: Square) -> (r: u64)
    ensures
        r == piece_key(Some(p), sq.idx()),
{
    key(64 * piece_index_exec(p) + sq.index() as u16)
}

/// The exclusive or of the keys of the pieces on the squares below `n`.
pub open spec fn pieces_hash(m: Seq<Option<Piece>>, n: nat) -> u64
    decreases n,
{
    if n == 0 {
        0
    } else {
        pieces_hash(m, (n - 1) as nat) ^ piece_key(m[n - 1], n - 1)
    }
}

/// The key of the player to move: zero for white.
pub open spec fn side_key(c: Color) -> u64 {
    match c {
        Color::White => 0,
        Color::Black => key_spec(768),
    }
}

pub fn side_key_exec(c: Color) -> (r: u64)
    ensures
        r == side_key(c),
{
    match c {
        Color::White => 0,
        Color::Black => key(768),
    }
}

/// The number of a combination of castling rights, from 0 to 15.
pub open spec fn castling_index(c: CastlingRights) -> int {
    (if c.spec_get(Color::White, Side::KingSide) { 1int } else { 0int })
        + (if c.spec_get(Color::White, Side::QueenSide) { 2int } else { 0int })
        + (if c.spec_get(Color::Black, Side::KingSide) { 4int } else { 0int })
        + (if c.spec_get(Color::Black, Side::QueenSide) { 8int } else { 0int })
}

/// The key of a combination of castling rights.
pub open spec fn castling_key(c: CastlingRights) -> u64 {
    key_spec(769 + castling_index(c))
}

pub fn castling_key_exec(c: &CastlingRights) -> (r: u64)
    ensures
        r == castling_key(*c),
{
    let mut i: u16 = 0;
    if c.get(Color::White, Side::KingSide) {
        i = i + 1;
    }
    if c.get(Color::White, Side::QueenSide) {
        i = i + 2;
    }
    if c.get(Color::Black, Side::KingSide) {
        i = i + 4;
    }
    if c.get(Color::Black, Side::QueenSide) {
        i = i + 8;
    }
    key(769 + i)
}

/// The key of the en passant square, which depends only on its file: zero for none.
pub open spec fn ep_key(ep: Option<Square>) -> u64 {
    match ep {
        None => 0,
        Some(sq) => key_spec(785 + sq.spec_file()),
    }
}

pub fn ep_key_exec(ep: Option<Square>) -> (r: u64)
    ensures
        r == ep_key(ep),
{
    match ep {
        None => 0,
        Some(sq) => key(785 + sq.file() as u16),
    }
}

pub proof fn lemma_xor_facts(a: u64, b: u64, c: u64)
    ensures
        (a ^ b) ^ c == a ^ (b ^ c),
        a ^ b == b ^ a,
        a ^ a == 0,
        a ^ 0 == a,
        0 ^ a == a,
{
    assert((a ^ b) ^ c == a ^ (b ^ c)) by (bit_vector);
    assert(a ^ b == b ^ a) by (bit_vector);
    assert(a ^ a == 0) by (bit_vector);
    assert(a ^ 0 == a) by (bit_vector);
    assert(0 ^ a == a) by (bit_vector);
}

/// Changing what stands on square `s` changes the hash by the old and the new keys.
pub proof fn lemma_pieces_hash_update(m: Seq<Option<Piece>>, s: int, v: Option<Piece>, n: nat)
    requires
        0 <= s < m.len(),
        n <= m.len(),
    ensures
        pieces_hash(m.update(s, v), n) == if s < n {
            pieces_hash(m, n) ^ (piece_key(m[s], s) ^ piece_key(v, s))
        } else {
            pieces_hash(m, n)
        },
    decreases n,
{
    if n > 0 {
        let k = (n - 1) as nat;
        lemma_pieces_hash_update(m, s, v, k);
        let a = pieces_hash(m, k);
        let d = piece_key(m[s], s) ^ piece_key(v, s);
        if s < k {
            let e = piece_key(m[k as int], k as int);
            assert(m.update(s, v)[k as int] == m[k as int]);
            lemma_xor_facts(a, d, e);
            lemma_xor_facts(a, e, d);
            lemma_xor_facts(d, e, 0);
        } else if s > k {
            assert(m.update(s, v)[k as int] == m[k as int]);
        } else {
            let e = piece_key(m[s], s);
            let f = piece_key(v, s);
            lemma_xor_facts(a, e, e ^ f);
            lemma_xor_facts(e, e, f);
            lemma_xor_facts(f, 0, 0);
            assert(m.update(s, v)[s] == v);
        }
    }
}

/// The hash of a board that is the same on every square.
pub proof fn lemma_pieces_hash_ext(m1: Seq<Option<Piece>>, m2: Seq<Option<Piece>>, n: nat)
    requires
        n <= m1.len(),
        n <= m2.len(),
        forall|i: int| 0 <= i < n ==> m1[i] == m2[i],
    ensures
        pieces_hash(m1, n) == pieces_hash(m2, n),
    decreases n,
{
    if n > 0 {
        lemma_pieces_hash_ext(m1, m2, (n - 1) as nat);
    }
}

/// The exclusive or of the keys of the pieces of `m` on the squares below `n`.
pub fn pieces_hash_exec(m: &Vec<Option<Piece>>, n: usize) -> (r: u64)
    requires
        n <= m@.len(),
        n <= 64,
    ensures
        r == pieces_hash(m@, n as nat),
{
    let mut h: u64 = 0;
    let mut i: usize = 0;
    while i < n
        invariant
            i <= n,
            n <= m@.len(),
            n <= 64,
            h == pieces_hash(m@, i as nat),
        decreases n - i,
    {
        match m[i] {
            Some(p) => {
                h = h ^ piece_key_exec(p, Square::from_index(i as u8));
            },
            None => {
                proof {
                    lemma_xor_facts(h, 0, 0);
                }
            },
        }
        i = i + 1;
    }
    h
}

} // verus!
