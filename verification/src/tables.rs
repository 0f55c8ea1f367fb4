use vstd::prelude::*;

use crate::bitboard::{
    anti_diag_set, bit, count_low, diag_set, file_set, lemma_bit_and, lemma_squares_of_injective,
    rank_set, squares_of, Bitboard,
};
use crate::bits;
use crate::square::{file_of, on_board, rank_of, Square, SquareVec};
use crate::square_map::SquareMap;

verus! {

/// Whether the step `v` from square `sq` stays on the board.
pub open spec fn step_ok(sq: int, v: SquareVec) -> bool {
    on_board(rank_of(sq) + v.0, file_of(sq) + v.1)
}

/// The square reached by the step `v` from square `sq`.
pub open spec fn step_target(sq: int, v: SquareVec) -> int {
    8 * (rank_of(sq) + v.0) + file_of(sq) + v.1
}

/// The squares reached from `sq` by one of the steps `vecs`.
pub open spec fn step_set(sq: int, vecs: Seq<SquareVec>) -> Set<int> {
    Set::new(
        |t: int|
            exists|j: int| 0 <= j < vecs.len() && step_ok(sq, vecs[j]) && t == step_target(sq, #[trigger] vecs[j]),
    )
}

/// The steps of a white pawn's capture.
pub open spec fn white_pawn_vecs() -> Seq<SquareVec> {
    seq![SquareVec(1i8, 1i8), SquareVec(1i8, -1i8)]
}

/// The steps of a black pawn's capture.
pub open spec fn black_pawn_vecs() -> Seq<SquareVec> {
    seq![SquareVec(-1i8, 1i8), SquareVec(-1i8, -1i8)]
}

/// The steps of a knight.
pub open spec fn knight_vecs() -> Seq<SquareVec> {
    seq![
        SquareVec(2i8, 1i8),
        SquareVec(1i8, 2i8),
        SquareVec(-1i8, 2i8),
        SquareVec(-2i8, 1i8),
        SquareVec(-2i8, -1i8),
        SquareVec(-1i8, -2i8),
        SquareVec(1i8, -2i8),
        SquareVec(2i8, -1i8),
    ]
}

/// The steps of a king.
pub open spec fn king_vecs() -> Seq<SquareVec> {
    seq![
        SquareVec(1i8, 0i8),
        SquareVec(1i8, 1i8),
        SquareVec(0i8, 1i8),
        SquareVec(-1i8, 1i8),
        SquareVec(-1i8, 0i8),
        SquareVec(-1i8, -1i8),
        SquareVec(0i8, -1i8),
        SquareVec(1i8, -1i8),
    ]
}

/// The squares reached from `sq` by the steps `vecs`.
fn step_attacks_from(sq: Square, vecs: &Vec<SquareVec>) -> (r: Bitboard)
    ensures
        r@ == step_set(sq.idx(), vecs@),
{
    let mut bb = Bitboard::new();
    let mut j: usize = 0;
    while j < vecs.len()
        invariant
            j <= vecs@.len(),
            bb@ == step_set(sq.idx(), vecs@.subrange(0, j as int)),
        decreases vecs@.len() - j,
    {
        let v = vecs[j];
        let ghost before = vecs@.subrange(0, j as int);
        let ghost after = vecs@.subrange(0, j + 1);
        proof {
            assert(after[j as int] == v);
            assert forall|k: int| 0 <= k < j implies #[trigger] after[k] == before[k] by {}
        }
        match sq.add_vec(v) {
            Some(dest) => {
                bb = bb.add_sq(dest);
                proof {
                    assert(dest.idx() == step_target(sq.idx(), v));
                    assert forall|t: int| #[trigger] bb@.contains(t) <==> step_set(sq.idx(), after).contains(t) by {
                        if step_set(sq.idx(), after).contains(t) {
                            let k = choose|k: int| 0 <= k < after.len() && step_ok(sq.idx(), after[k]) && t == step_target(sq.idx(), #[trigger] after[k]);
                            if k < j {
                                assert(step_set(sq.idx(), before).contains(t));
                            }
                        }
                        if step_set(sq.idx(), before).contains(t) {
                            let k = choose|k: int| 0 <= k < before.len() && step_ok(sq.idx(), before[k]) && t == step_target(sq.idx(), #[trigger] before[k]);
                            assert(after[k] == before[k]);
                        }
                    }
                    assert(bb@ =~= step_set(sq.idx(), after));
                }
            },
            None => {
                proof {
                    assert forall|t: int| #[trigger] bb@.contains(t) <==> step_set(sq.idx(), after).contains(t) by {
                        if step_set(sq.idx(), after).contains(t) {
                            let k = choose|k: int| 0 <= k < after.len() && step_ok(sq.idx(), after[k]) && t == step_target(sq.idx(), #[trigger] after[k]);
                            if k < j {
                                assert(step_set(sq.idx(), before).contains(t));
                            }
                        }
                        if step_set(sq.idx(), before).contains(t) {
                            let k = choose|k: int| 0 <= k < before.len() && step_ok(sq.idx(), before[k]) && t == step_target(sq.idx(), #[trigger] before[k]);
                            assert(after[k] == before[k]);
                        }
                    }
                    assert(bb@ =~= step_set(sq.idx(), after));
                }
            },
        }
        j = j + 1;
    }
    proof {
        assert(vecs@.subrange(0, vecs@.len() as int) =~= vecs@);
    }
    bb
}

/// For each square, the squares reached from it by the steps `vecs`.
fn init_step_attacks(vecs: Vec<SquareVec>) -> (r: SquareMap<Bitboard>)
    ensures
        r.wf(),
        forall|i: int| 0 <= i < 64 ==> (#[trigger] r@[i])@ == step_set(i, vecs@),
{
    let mut items: Vec<Bitboard> = Vec::new();
    let mut i: u8 = 0;
    while i < 64
        invariant
            i <= 64,
            items@.len() == i,
            forall|k: int| 0 <= k < i ==> (#[trigger] items@[k])@ == step_set(k, vecs@),
        decreases 64 - i,
    {
        let sq = Square::from_index(i);
        proof {
            Square::lemma_from_index_spec(i as int);
        }
        items.push(step_attacks_from(sq, &vecs));
        i = i + 1;
    }
    SquareMap::from_vec(items)
}


/// `d` times the unit step `u` (−1, 0 or 1).
pub open spec fn times(u: int, d: int) -> int {
    if u > 0 {
        d
    } else if u < 0 {
        -d
    } else {
        0
    }
}

/// Whether `d` steps in direction (`dr`, `df`) from square `sq` stay on the board.
pub open spec fn ray_on(sq: int, dr: int, df: int, d: int) -> bool {
    on_board(rank_of(sq) + times(dr, d), file_of(sq) + times(df, d))
}

/// The square `d` steps in direction (`dr`, `df`) from square `sq`.
pub open spec fn ray_sq(sq: int, dr: int, df: int, d: int) -> int {
    8 * (rank_of(sq) + times(dr, d)) + file_of(sq) + times(df, d)
}

/// None of the squares strictly between `sq` and the `d`-th step is occupied.
pub open spec fn ray_clear(sq: int, dr: int, df: int, occ: Set<int>, d: int) -> bool {
    forall|j: int| 1 <= j < d ==> !occ.contains(#[trigger] ray_sq(sq, dr, df, j))
}

/// The `d`-th square in direction (`dr`, `df`) from `sq` is attacked by a slider on `sq`.
pub open spec fn ray_reaches(sq: int, dr: int, df: int, occ: Set<int>, d: int) -> bool {
    d >= 1 && ray_on(sq, dr, df, d) && ray_clear(sq, dr, df, occ, d)
}

/// The squares a slider on `sq` attacks in direction (`dr`, `df`): up to and including
/// the first occupied square.
pub open spec fn ray_set(sq: int, dr: int, df: int, occ: Set<int>) -> Set<int> {
    Set::new(|t: int| exists|d: int| ray_reaches(sq, dr, df, occ, d) && t == #[trigger] ray_sq(sq, dr, df, d))
}

/// The squares a bishop on `sq` attacks when the squares of `occ` are occupied.
pub open spec fn bishop_attacks(sq: int, occ: Set<int>) -> Set<int> {
    ray_set(sq, 1, 1, occ) + ray_set(sq, -1, 1, occ) + ray_set(sq, -1, -1, occ) + ray_set(sq, 1, -1, occ)
}

/// The squares a rook on `sq` attacks when the squares of `occ` are occupied.
pub open spec fn rook_attacks(sq: int, occ: Set<int>) -> Set<int> {
    ray_set(sq, 1, 0, occ) + ray_set(sq, 0, 1, occ) + ray_set(sq, -1, 0, occ) + ray_set(sq, 0, -1, occ)
}

/// A direction of a slider: each step is −1, 0 or 1, not both 0.
pub open spec fn unit_dir(dr: int, df: int) -> bool {
    -1 <= dr <= 1 && -1 <= df <= 1 && (dr != 0 || df != 0)
}

/// The squares of a ray between two of its squares on the board are on the board.
pub proof fn lemma_ray_on_between(sq: int, dr: int, df: int, b: int, c: int)
    requires
        0 <= sq < 64,
        unit_dir(dr, df),
        0 <= b <= c,
        ray_on(sq, dr, df, c),
    ensures
        ray_on(sq, dr, df, b),
{
}

/// Squares in direction (`dr`, `df`) from `sq` up to the first occupied one, walking
/// step by step.
fn ray_attacks(sq: Square, dr: i8, df: i8, occ: Bitboard) -> (r: Bitboard)
    requires
        unit_dir(dr as int, df as int),
    ensures
        r@ == ray_set(sq.idx(), dr as int, df as int, occ@),
{
    let ghost s = sq.idx();
    let ghost dri = dr as int;
    let ghost dfi = df as int;
    let mut bb = Bitboard::new();
    let mut cur = sq;
    let mut d: i8 = 0;
    proof {
        Square::lemma_idx_bound(sq);
        assert(bb@ =~= Set::new(|t: int| exists|e: int| 1 <= e <= d && t == #[trigger] ray_sq(s, dri, dfi, e)));
    }
    loop
        invariant_except_break
            0 <= d <= 7,
            0 <= s < 64,
            unit_dir(dri, dfi),
            dri == dr,
            dfi == df,
            s == sq.idx(),
            cur.idx() == ray_sq(s, dri, dfi, d as int),
            ray_on(s, dri, dfi, d as int),
            ray_clear(s, dri, dfi, occ@, d as int + 1),
            bb@ == Set::new(|t: int| exists|e: int| 1 <= e <= d && t == #[trigger] ray_sq(s, dri, dfi, e)),
        ensures
            0 <= d <= 7,
            ray_on(s, dri, dfi, d as int),
            ray_clear(s, dri, dfi, occ@, d as int),
            !ray_on(s, dri, dfi, d as int + 1) || occ@.contains(ray_sq(s, dri, dfi, d as int)) && d >= 1,
            bb@ == Set::new(|t: int| exists|e: int| 1 <= e <= d && t == #[trigger] ray_sq(s, dri, dfi, e)),
        decreases 8 - d,
    {
        proof {
            Square::lemma_idx_bound(cur);
        }
        match cur.add_vec(SquareVec(dr, df)) {
            None => {
                break;
            },
            Some(n) => {
                let ghost old_bb = bb@;
                proof {
                    Square::lemma_idx_bound(n);
                    assert(n.idx() == ray_sq(s, dri, dfi, d as int + 1));
                }
                bb = bb.add_sq(n);
                d = d + 1;
                proof {
                    assert(bb@ =~= Set::new(|t: int| exists|e: int| 1 <= e <= d && t == #[trigger] ray_sq(s, dri, dfi, e))) by {
                        assert forall|t: int| bb@.contains(t) implies exists|e: int| 1 <= e <= d && t == #[trigger] ray_sq(s, dri, dfi, e) by {
                            if t == n.idx() {
                                assert(t == ray_sq(s, dri, dfi, d as int));
                            }
                        }
                        assert forall|t: int| (exists|e: int| 1 <= e <= d && t == #[trigger] ray_sq(s, dri, dfi, e)) implies bb@.contains(t) by {
                            let e = choose|e: int| 1 <= e <= d && t == #[trigger] ray_sq(s, dri, dfi, e);
                            if e < d {
                                assert(old_bb.contains(t));
                            }
                        }
                    }
                }
                if occ.contains(n) {
                    break;
                }
                cur = n;
            },
        }
    }
    proof {
        assert forall|t: int| bb@.contains(t) <==> ray_set(s, dri, dfi, occ@).contains(t) by {
            if bb@.contains(t) {
                let e = choose|e: int| 1 <= e <= d && t == #[trigger] ray_sq(s, dri, dfi, e);
                lemma_ray_on_between(s, dri, dfi, e, d as int);
                assert(ray_reaches(s, dri, dfi, occ@, e));
            }
            if ray_set(s, dri, dfi, occ@).contains(t) {
                let e = choose|e: int| ray_reaches(s, dri, dfi, occ@, e) && t == #[trigger] ray_sq(s, dri, dfi, e);
                if e > d {
                    if ray_on(s, dri, dfi, d as int + 1) {
                        assert(!occ@.contains(ray_sq(s, dri, dfi, d as int)));
                    } else {
                        lemma_ray_on_between(s, dri, dfi, d as int + 1, e);
                    }
                }
                assert(1 <= e <= d);
            }
        }
        assert(bb@ =~= ray_set(s, dri, dfi, occ@));
    }
    bb
}

/// The squares a bishop on `sq` attacks, walking the four diagonals.
fn gen_bishop_attacks_slow(sq: Square, occ: Bitboard) -> (r: Bitboard)
    ensures
        r@ == bishop_attacks(sq.idx(), occ@),
{
    ray_attacks(sq, 1, 1, occ).union(ray_attacks(sq, -1, 1, occ)).union(ray_attacks(sq, -1, -1, occ)).union(
        ray_attacks(sq, 1, -1, occ),
    )
}

/// The squares a rook on `sq` attacks, walking the ranks and files.
fn gen_rook_attacks_slow(sq: Square, occ: Bitboard) -> (r: Bitboard)
    ensures
        r@ == rook_attacks(sq.idx(), occ@),
{
    ray_attacks(sq, 1, 0, occ).union(ray_attacks(sq, 0, 1, occ)).union(ray_attacks(sq, -1, 0, occ)).union(
        ray_attacks(sq, 0, -1, occ),
    )
}

/// The squares whose occupancy decides a bishop's attacks from `sq`: those it attacks on
/// an empty board, but for the squares of the edges.
pub open spec fn bishop_mask_spec(sq: int) -> Set<int> {
    bishop_attacks(sq, Set::empty()).difference(rank_set(0)).difference(rank_set(7)).difference(
        file_set(0),
    ).difference(file_set(7))
}

/// The squares whose occupancy decides a rook's attacks from `sq`: those it attacks on an
/// empty board, but for the squares of the edges that are not on its own rank or file.
pub open spec fn rook_mask_spec(sq: int) -> Set<int> {
    let a = rook_attacks(sq, Set::empty());
    let a1 = if rank_of(sq) != 0 { a.difference(rank_set(0)) } else { a };
    let a2 = if rank_of(sq) != 7 { a1.difference(rank_set(7)) } else { a1 };
    let a3 = if file_of(sq) != 0 { a2.difference(file_set(0)) } else { a2 };
    if file_of(sq) != 7 { a3.difference(file_set(7)) } else { a3 }
}

/// The attacks along a ray depend only on the occupancy of the squares of `m`, when `m`
/// holds every square of the ray that has another square of the ray behind it.
pub proof fn lemma_ray_relevant(sq: int, dr: int, df: int, occ: Set<int>, m: Set<int>)
    requires
        0 <= sq < 64,
        unit_dir(dr, df),
        forall|j: int| j >= 1 && ray_on(sq, dr, df, j + 1) ==> m.contains(#[trigger] ray_sq(sq, dr, df, j)),
    ensures
        ray_set(sq, dr, df, occ) == ray_set(sq, dr, df, occ.intersect(m)),
{
    let om = occ.intersect(m);
    assert forall|d: int| d >= 1 && ray_on(sq, dr, df, d) implies (ray_clear(sq, dr, df, occ, d)
        <==> ray_clear(sq, dr, df, om, d)) by {
        assert forall|j: int| 1 <= j < d implies (occ.contains(#[trigger] ray_sq(sq, dr, df, j))
            <==> om.contains(ray_sq(sq, dr, df, j))) by {
            lemma_ray_on_between(sq, dr, df, j + 1, d);
        }
    }
    assert forall|t: int| ray_set(sq, dr, df, occ).contains(t) <==> ray_set(sq, dr, df, om).contains(t) by {
        if ray_set(sq, dr, df, occ).contains(t) {
            let d = choose|d: int| ray_reaches(sq, dr, df, occ, d) && t == #[trigger] ray_sq(sq, dr, df, d);
            assert(ray_reaches(sq, dr, df, om, d));
        }
        if ray_set(sq, dr, df, om).contains(t) {
            let d = choose|d: int| ray_reaches(sq, dr, df, om, d) && t == #[trigger] ray_sq(sq, dr, df, d);
            assert(ray_reaches(sq, dr, df, occ, d));
        }
    }
    assert(ray_set(sq, dr, df, occ) =~= ray_set(sq, dr, df, om));
}

/// A square of a ray with another square of the ray behind it is attacked on an empty board.
proof fn lemma_inner_on_empty(sq: int, dr: int, df: int, j: int)
    requires
        0 <= sq < 64,
        unit_dir(dr, df),
        j >= 1,
        ray_on(sq, dr, df, j + 1),
    ensures
        ray_set(sq, dr, df, Set::empty()).contains(ray_sq(sq, dr, df, j)),
        ray_on(sq, dr, df, j),
        rank_of(ray_sq(sq, dr, df, j)) == rank_of(sq) + times(dr, j),
        file_of(ray_sq(sq, dr, df, j)) == file_of(sq) + times(df, j),
{
    lemma_ray_on_between(sq, dr, df, j, j + 1);
    assert(ray_reaches(sq, dr, df, Set::empty(), j));
}

/// A bishop's attacks depend only on the occupancy of the squares of its mask.
pub proof fn lemma_bishop_mask(sq: int, occ: Set<int>)
    requires
        0 <= sq < 64,
    ensures
        bishop_attacks(sq, occ) == bishop_attacks(sq, occ.intersect(bishop_mask_spec(sq))),
{
    let m = bishop_mask_spec(sq);
    assert forall|j: int| j >= 1 && ray_on(sq, 1, 1, j + 1) implies m.contains(#[trigger] ray_sq(sq, 1, 1, j)) by {
        lemma_inner_on_empty(sq, 1, 1, j);
    }
    assert forall|j: int| j >= 1 && ray_on(sq, -1, 1, j + 1) implies m.contains(#[trigger] ray_sq(sq, -1, 1, j)) by {
        lemma_inner_on_empty(sq, -1, 1, j);
    }
    assert forall|j: int| j >= 1 && ray_on(sq, -1, -1, j + 1) implies m.contains(#[trigger] ray_sq(sq, -1, -1, j)) by {
        lemma_inner_on_empty(sq, -1, -1, j);
    }
    assert forall|j: int| j >= 1 && ray_on(sq, 1, -1, j + 1) implies m.contains(#[trigger] ray_sq(sq, 1, -1, j)) by {
        lemma_inner_on_empty(sq, 1, -1, j);
    }
    lemma_ray_relevant(sq, 1, 1, occ, m);
    lemma_ray_relevant(sq, -1, 1, occ, m);
    lemma_ray_relevant(sq, -1, -1, occ, m);
    lemma_ray_relevant(sq, 1, -1, occ, m);
}

/// A rook's attacks depend only on the occupancy of the squares of its mask.
pub proof fn lemma_rook_mask(sq: int, occ: Set<int>)
    requires
        0 <= sq < 64,
    ensures
        rook_attacks(sq, occ) == rook_attacks(sq, occ.intersect(rook_mask_spec(sq))),
{
    let m = rook_mask_spec(sq);
    assert forall|j: int| j >= 1 && ray_on(sq, 1, 0, j + 1) implies m.contains(#[trigger] ray_sq(sq, 1, 0, j)) by {
        lemma_inner_on_empty(sq, 1, 0, j);
    }
    assert forall|j: int| j >= 1 && ray_on(sq, 0, 1, j + 1) implies m.contains(#[trigger] ray_sq(sq, 0, 1, j)) by {
        lemma_inner_on_empty(sq, 0, 1, j);
    }
    assert forall|j: int| j >= 1 && ray_on(sq, -1, 0, j + 1) implies m.contains(#[trigger] ray_sq(sq, -1, 0, j)) by {
        lemma_inner_on_empty(sq, -1, 0, j);
    }
    assert forall|j: int| j >= 1 && ray_on(sq, 0, -1, j + 1) implies m.contains(#[trigger] ray_sq(sq, 0, -1, j)) by {
        lemma_inner_on_empty(sq, 0, -1, j);
    }
    lemma_ray_relevant(sq, 1, 0, occ, m);
    lemma_ray_relevant(sq, 0, 1, occ, m);
    lemma_ray_relevant(sq, -1, 0, occ, m);
    lemma_ray_relevant(sq, 0, -1, occ, m);
}

/// The squares of the set bits of `m` whose rank among the set bits of `m` is the index of
/// a set bit of `k`: the squares of `pdep(k, m)`.
pub open spec fn deposit_set(k: u64, m: u64) -> Set<int> {
    Set::new(|p: int| 0 <= p < 64 && bit(m, p as u64) && bit(k, count_low(m, p as nat) as u64))
}

/// Depositing the bits gathered from `x` at the bits of `m` gives the squares of `x` in `m`.
proof fn lemma_deposit_extract(x: u64, m: u64, k: u64)
    requires
        forall|p: u64| p < 64 && #[trigger] bit(m, p) ==> bit(k, count_low(m, p as nat) as u64) == bit(x, p),
    ensures
        deposit_set(k, m) == squares_of(x).intersect(squares_of(m)),
{
    assert forall|p: int| deposit_set(k, m).contains(p) <==> squares_of(x).intersect(squares_of(m)).contains(p) by {
        if 0 <= p < 64 && bit(m, p as u64) {
            assert(bit(k, count_low(m, p as nat) as u64) == bit(x, p as u64));
        }
    }
    assert(deposit_set(k, m) =~= squares_of(x).intersect(squares_of(m)));
}

/// A word whose bits from `n` on are clear is below `2^n`.
proof fn lemma_high_bits_clear(k: u64, n: u64)
    requires
        n < 64,
        forall|i: u64| n <= i < 64 ==> !#[trigger] bit(k, i),
    ensures
        k < (1u64 << n),
{
    let lm = ((1u64 << n) - 1u64) as u64;
    assert forall|i: int| squares_of(k & lm).contains(i) <==> squares_of(k).contains(i) by {
        if 0 <= i < 64 {
            let iu = i as u64;
            lemma_bit_and(k, lm, iu);
            assert(((((1u64 << n) - 1u64) as u64) >> iu) & 1u64 == 1u64 <==> iu < n) by (bit_vector)
                requires
                    n < 64,
                    iu < 64,
            ;
        }
    }
    assert(squares_of(k & lm) =~= squares_of(k));
    lemma_squares_of_injective(k & lm, k);
    assert((k & (((1u64 << n) - 1u64) as u64)) < (1u64 << n)) by (bit_vector)
        requires
            n < 64,
    ;
}

/// A word with a clear bit below `n` has fewer than `n` set bits below `n`.
proof fn lemma_count_low_lt(b: u64, n: nat, i: nat)
    requires
        i < n <= 64,
        !bit(b, i as u64),
    ensures
        count_low(b, n) < n,
    decreases n,
{
    crate::bitboard::lemma_count_low_bound(b, (n - 1) as nat);
    if i < n - 1 {
        lemma_count_low_lt(b, (n - 1) as nat, i);
    }
}

/// A slider does not attack its own square.
pub proof fn lemma_ray_not_self(sq: int, dr: int, df: int, occ: Set<int>)
    requires
        0 <= sq < 64,
        unit_dir(dr, df),
    ensures
        !ray_set(sq, dr, df, occ).contains(sq),
{
    if ray_set(sq, dr, df, occ).contains(sq) {
        let d = choose|d: int| ray_reaches(sq, dr, df, occ, d) && sq == #[trigger] ray_sq(sq, dr, df, d);
        assert(false);
    }
}

/// The squares a rook (if `rook`) or a bishop on `sq` attacks when `occ` is occupied.
pub open spec fn slider_spec(sq: int, occ: Set<int>, rook: bool) -> Set<int> {
    if rook {
        rook_attacks(sq, occ)
    } else {
        bishop_attacks(sq, occ)
    }
}

/// The mask of a rook (if `rook`) or a bishop on `sq`.
pub open spec fn mask_spec(sq: int, rook: bool) -> Set<int> {
    if rook {
        rook_mask_spec(sq)
    } else {
        bishop_mask_spec(sq)
    }
}

/// The entry `k` of the block of the slider table at `off`.
pub open spec fn slot(table: Seq<Bitboard>, off: int, k: u64) -> Bitboard {
    table[off + k]
}

/// The number of entries of the block of a slider whose mask is `m`.
pub open spec fn block_len(m: u64) -> u64 {
    1u64 << (count_low(m, 64) as u64)
}

/// The block of the table at `off` holds, for each way `k` of occupying the mask `m`, the
/// attacks of the slider on `sq` with that occupancy.
pub open spec fn block_ok(table: Seq<Bitboard>, off: int, sq: int, m: u64, rook: bool) -> bool {
    &&& count_low(m, 64) < 64
    &&& 0 <= off
    &&& off + block_len(m) <= table.len()
    &&& forall|k: u64| k < block_len(m) ==> (#[trigger] slot(table, off, k))@ == slider_spec(sq, deposit_set(k, m), rook)
}

/// Adding entries after a block keeps it.
proof fn lemma_block_ok_extend(t: Seq<Bitboard>, u: Seq<Bitboard>, off: int, sq: int, m: u64, rook: bool)
    requires
        block_ok(t, off, sq, m, rook),
        t.len() <= u.len(),
        u.subrange(0, t.len() as int) == t,
    ensures
        block_ok(u, off, sq, m, rook),
{
    assert forall|k: u64| k < block_len(m) implies (#[trigger] slot(u, off, k))@ == slider_spec(sq, deposit_set(k, m), rook) by {
        assert(slot(t, off, k) == t[off + k]);
        assert(u.subrange(0, t.len() as int)[off + k] == u[off + k]);
    }
}

/// Appends the block of the slider (a rook if `rook`, else a bishop) on `sq` whose mask is
/// `mask`, and returns where it starts.
fn push_block(table: &mut Vec<Bitboard>, sq: Square, mask: Bitboard, rook: bool) -> (off: usize)
    requires
        mask@ == mask_spec(sq.idx(), rook),
    ensures
        off == old(table)@.len(),
        old(table)@.len() <= final(table)@.len(),
        final(table)@.subrange(0, old(table)@.len() as int) == old(table)@,
        block_ok(final(table)@, off as int, sq.idx(), mask.0, rook),
{
    let off = table.len();
    let ghost t0 = table@;
    proof {
        Square::lemma_idx_bound(sq);
        if rook {
            lemma_ray_not_self(sq.idx(), 1, 0, Set::empty());
            lemma_ray_not_self(sq.idx(), 0, 1, Set::empty());
            lemma_ray_not_self(sq.idx(), -1, 0, Set::empty());
            lemma_ray_not_self(sq.idx(), 0, -1, Set::empty());
        } else {
            lemma_ray_not_self(sq.idx(), 1, 1, Set::empty());
            lemma_ray_not_self(sq.idx(), -1, 1, Set::empty());
            lemma_ray_not_self(sq.idx(), -1, -1, Set::empty());
            lemma_ray_not_self(sq.idx(), 1, -1, Set::empty());
        }
        assert(!mask@.contains(sq.idx()));
        lemma_count_low_lt(mask.0, 64, sq.idx() as nat);
    }
    let n = bits::popcnt(mask.0);
    let count: u64 = 1u64 << n;
    let mut k: u64 = 0;
    while k < count
        invariant
            count == block_len(mask.0),
            count_low(mask.0, 64) < 64,
            mask@ == mask_spec(sq.idx(), rook),
            off == t0.len(),
            table@.len() == off + k,
            table@.subrange(0, off as int) == t0,
            forall|j: u64| j < k ==> (#[trigger] slot(table@, off as int, j))@ == slider_spec(sq.idx(), deposit_set(j, mask.0), rook),
        decreases count - k,
    {
        let occ = Bitboard(bits::pdep(k, mask.0));
        proof {
            assert forall|p: int| occ@.contains(p) <==> deposit_set(k, mask.0).contains(p) by {
                if 0 <= p < 64 {
                    assert(bit(occ.0, p as u64) == (bit(mask.0, p as u64) && bit(k, count_low(mask.0, p as nat) as u64)));
                }
            }
            assert(occ@ =~= deposit_set(k, mask.0));
        }
        let atk = if rook {
            gen_rook_attacks_slow(sq, occ)
        } else {
            gen_bishop_attacks_slow(sq, occ)
        };
        let ghost before = table@;
        table.push(atk);
        proof {
            assert(table@.subrange(0, off as int) =~= t0) by {
                assert(before.subrange(0, off as int) == t0);
            }
            assert forall|j: u64| j < k + 1 implies (#[trigger] slot(table@, off as int, j))@ == slider_spec(sq.idx(), deposit_set(j, mask.0), rook) by {
                if j < k {
                    assert(slot(before, off as int, j) == before[off + j]);
                }
            }
        }
        k = k + 1;
    }
    proof {
        assert(table@.subrange(0, t0.len() as int) == t0);
    }
    off
}

/// For each square, the mask of a bishop on it.
fn init_bishop_masks() -> (r: SquareMap<Bitboard>)
    ensures
        r.wf(),
        forall|i: int| 0 <= i < 64 ==> (#[trigger] r@[i])@ == bishop_mask_spec(i),
{
    let mut items: Vec<Bitboard> = Vec::new();
    let mut i: u8 = 0;
    while i < 64
        invariant
            i <= 64,
            items@.len() == i,
            forall|k: int| 0 <= k < i ==> (#[trigger] items@[k])@ == bishop_mask_spec(k),
        decreases 64 - i,
    {
        let sq = Square::from_index(i);
        proof {
            Square::lemma_from_index_spec(i as int);
        }
        let bb = gen_bishop_attacks_slow(sq, Bitboard::new()).minus(Bitboard::rank(0)).minus(
            Bitboard::rank(7),
        ).minus(Bitboard::file(0)).minus(Bitboard::file(7));
        items.push(bb);
        i = i + 1;
    }
    SquareMap::from_vec(items)
}

/// For each square, the mask of a rook on it.
fn init_rook_masks() -> (r: SquareMap<Bitboard>)
    ensures
        r.wf(),
        forall|i: int| 0 <= i < 64 ==> (#[trigger] r@[i])@ == rook_mask_spec(i),
{
    let mut items: Vec<Bitboard> = Vec::new();
    let mut i: u8 = 0;
    while i < 64
        invariant
            i <= 64,
            items@.len() == i,
            forall|k: int| 0 <= k < i ==> (#[trigger] items@[k])@ == rook_mask_spec(k),
        decreases 64 - i,
    {
        let sq = Square::from_index(i);
        proof {
            Square::lemma_from_index_spec(i as int);
        }
        let mut bb = gen_rook_attacks_slow(sq, Bitboard::new());
        if sq.rank() != 0 {
            bb = bb.minus(Bitboard::rank(0));
        }
        if sq.rank() != 7 {
            bb = bb.minus(Bitboard::rank(7));
        }
        if sq.file() != 0 {
            bb = bb.minus(Bitboard::file(0));
        }
        if sq.file() != 7 {
            bb = bb.minus(Bitboard::file(7));
        }
        items.push(bb);
        i = i + 1;
    }
    SquareMap::from_vec(items)
}

/// The sign of `x`.
pub open spec fn sign(x: int) -> int {
    if x > 0 {
        1
    } else if x < 0 {
        -1
    } else {
        0
    }
}

/// The absolute value of `x`.
pub open spec fn abs(x: int) -> int {
    if x < 0 { -x } else { x }
}

/// Whether squares `from` and `to` lie on one rank, file or diagonal.
pub open spec fn aligned(from: int, to: int) -> bool {
    let dr = rank_of(to) - rank_of(from);
    let df = file_of(to) - file_of(from);
    dr == 0 || df == 0 || abs(dr) == abs(df)
}

/// The whole line through two distinct squares on one rank, file or diagonal; empty for
/// other pairs.
pub open spec fn line_through_spec(from: int, to: int) -> Set<int> {
    let fr = rank_of(from);
    let ff = file_of(from);
    let tr = rank_of(to);
    let tf = file_of(to);
    if from == to {
        Set::empty()
    } else if fr == tr {
        rank_set(fr)
    } else if ff == tf {
        file_set(ff)
    } else if tr - fr == tf - ff {
        diag_set(7 + fr - ff)
    } else if tr - fr == ff - tf {
        anti_diag_set(fr + ff)
    } else {
        Set::empty()
    }
}

/// The squares from `from` towards `to`, up to and including `to`, when they lie on one
/// rank, file or diagonal; `to` alone when they are equal; empty otherwise.
pub open spec fn ray_to_spec(from: int, to: int) -> Set<int> {
    if from == to {
        Set::empty().insert(to)
    } else if aligned(from, to) {
        ray_set(from, sign(rank_of(to) - rank_of(from)), sign(file_of(to) - file_of(from)), Set::empty().insert(to))
    } else {
        Set::empty()
    }
}

fn line_through_entry(from: Square, to: Square) -> (r: Bitboard)
    ensures
        r@ == line_through_spec(from.idx(), to.idx()),
{
    if from == to {
        return Bitboard::new();
    }
    let fr = from.rank() as i8;
    let ff = from.file() as i8;
    let tr = to.rank() as i8;
    let tf = to.file() as i8;
    if fr == tr {
        Bitboard::rank(fr as u8)
    } else if ff == tf {
        Bitboard::file(ff as u8)
    } else if tr - fr == tf - ff {
        Bitboard::diag((7 + fr - ff) as u8)
    } else if tr - fr == ff - tf {
        Bitboard::anti_diag((fr + ff) as u8)
    } else {
        Bitboard::new()
    }
}

fn ray_to_entry(from: Square, to: Square) -> (r: Bitboard)
    ensures
        r@ == ray_to_spec(from.idx(), to.idx()),
{
    if from == to {
        return Bitboard::from_sq(to);
    }
    let dr = to.rank() as i8 - from.rank() as i8;
    let df = to.file() as i8 - from.file() as i8;
    let adr = if dr < 0 { -dr } else { dr };
    let adf = if df < 0 { -df } else { df };
    if dr != 0 && df != 0 && adr != adf {
        return Bitboard::new();
    }
    let sr: i8 = if dr > 0 { 1 } else if dr < 0 { -1 } else { 0 };
    let sf: i8 = if df > 0 { 1 } else if df < 0 { -1 } else { 0 };
    proof {
        Square::lemma_idx_injective(from, to);
        Square::lemma_idx_bound(from);
        Square::lemma_idx_bound(to);
    }
    ray_attacks(from, sr, sf, Bitboard::from_sq(to))
}

/// For each pair of squares (`from`, `to`), at index `64 * from + to`, the entry of `f`.
fn init_pair_table(ray: bool) -> (r: Vec<Bitboard>)
    ensures
        r@.len() == 4096,
        forall|n: int| 0 <= n < 4096 ==> (#[trigger] r@[n])@ == if ray {
            ray_to_spec(n / 64, n % 64)
        } else {
            line_through_spec(n / 64, n % 64)
        },
{
    let mut items: Vec<Bitboard> = Vec::new();
    let mut n: u16 = 0;
    while n < 4096
        invariant
            n <= 4096,
            items@.len() == n,
            forall|k: int| 0 <= k < n ==> (#[trigger] items@[k])@ == if ray {
                ray_to_spec(k / 64, k % 64)
            } else {
                line_through_spec(k / 64, k % 64)
            },
        decreases 4096 - n,
    {
        let from = Square::from_index((n / 64) as u8);
        let to = Square::from_index((n % 64) as u8);
        proof {
            Square::lemma_from_index_spec(n as int / 64);
            Square::lemma_from_index_spec(n as int % 64);
        }
        let bb = if ray {
            ray_to_entry(from, to)
        } else {
            line_through_entry(from, to)
        };
        items.push(bb);
        n = n + 1;
    }
    items
}

/// Precomputed attack sets and lines.
pub struct Tables {
    white_pawn_attacks: SquareMap<Bitboard>,
    black_pawn_attacks: SquareMap<Bitboard>,
    knight_attacks: SquareMap<Bitboard>,
    king_attacks: SquareMap<Bitboard>,
    bishop_masks: SquareMap<Bitboard>,
    rook_masks: SquareMap<Bitboard>,
    slider_attacks: Vec<Bitboard>,
    bishop_offsets: SquareMap<usize>,
    rook_offsets: SquareMap<usize>,
    line_through: Vec<Bitboard>,
    ray_to: Vec<Bitboard>,
}

impl Tables {
    /// Every table holds what its specification says.
    pub closed spec fn wf(&self) -> bool {
        &&& self.white_pawn_attacks.wf()
        &&& self.black_pawn_attacks.wf()
        &&& self.knight_attacks.wf()
        &&& self.king_attacks.wf()
        &&& self.bishop_masks.wf()
        &&& self.rook_masks.wf()
        &&& self.bishop_offsets.wf()
        &&& self.rook_offsets.wf()
        &&& forall|i: int| 0 <= i < 64 ==> (#[trigger] self.white_pawn_attacks@[i])@ == step_set(i, white_pawn_vecs())
        &&& forall|i: int| 0 <= i < 64 ==> (#[trigger] self.black_pawn_attacks@[i])@ == step_set(i, black_pawn_vecs())
        &&& forall|i: int| 0 <= i < 64 ==> (#[trigger] self.knight_attacks@[i])@ == step_set(i, knight_vecs())
        &&& forall|i: int| 0 <= i < 64 ==> (#[trigger] self.king_attacks@[i])@ == step_set(i, king_vecs())
        &&& forall|i: int| 0 <= i < 64 ==> (#[trigger] self.bishop_masks@[i])@ == bishop_mask_spec(i)
        &&& forall|i: int| 0 <= i < 64 ==> (#[trigger] self.rook_masks@[i])@ == rook_mask_spec(i)
        &&& self.slider_attacks@.len() <= usize::MAX
        &&& forall|i: int| 0 <= i < 64 ==> block_ok(self.slider_attacks@, #[trigger] self.bishop_offsets@[i] as int, i, self.bishop_masks@[i].0, false)
        &&& forall|i: int| 0 <= i < 64 ==> block_ok(self.slider_attacks@, #[trigger] self.rook_offsets@[i] as int, i, self.rook_masks@[i].0, true)
        &&& self.line_through@.len() == 4096
        &&& self.ray_to@.len() == 4096
        &&& forall|n: int| 0 <= n < 4096 ==> (#[trigger] self.line_through@[n])@ == line_through_spec(n / 64, n % 64)
        &&& forall|n: int| 0 <= n < 4096 ==> (#[trigger] self.ray_to@[n])@ == ray_to_spec(n / 64, n % 64)
    }

    /// Builds the tables.
    pub fn new() -> (r: Tables)
        ensures
            r.wf(),
    {
        let white_pawn_attacks = init_step_attacks(vec![SquareVec(1, 1), SquareVec(1, -1)]);
        let black_pawn_attacks = init_step_attacks(vec![SquareVec(-1, 1), SquareVec(-1, -1)]);
        let knight_attacks = init_step_attacks(
            vec![
                SquareVec(2, 1),
                SquareVec(1, 2),
                SquareVec(-1, 2),
                SquareVec(-2, 1),
                SquareVec(-2, -1),
                SquareVec(-1, -2),
                SquareVec(1, -2),
                SquareVec(2, -1),
            ],
        );
        let king_attacks = init_step_attacks(
            vec![
                SquareVec(1, 0),
                SquareVec(1, 1),
                SquareVec(0, 1),
                SquareVec(-1, 1),
                SquareVec(-1, 0),
                SquareVec(-1, -1),
                SquareVec(0, -1),
                SquareVec(1, -1),
            ],
        );
        let bishop_masks = init_bishop_masks();
        let rook_masks = init_rook_masks();
        let mut slider_attacks: Vec<Bitboard> = Vec::new();
        let mut bishop_offsets = SquareMap::new(0usize);
        let mut rook_offsets = SquareMap::new(0usize);
        let mut i: u8 = 0;
        while i < 64
            invariant
                i <= 64,
                bishop_masks.wf(),
                rook_masks.wf(),
                bishop_offsets.wf(),
                rook_offsets.wf(),
                forall|j: int| 0 <= j < 64 ==> (#[trigger] bishop_masks@[j])@ == bishop_mask_spec(j),
                forall|j: int| 0 <= j < 64 ==> (#[trigger] rook_masks@[j])@ == rook_mask_spec(j),
                forall|j: int| 0 <= j < i ==> block_ok(slider_attacks@, #[trigger] bishop_offsets@[j] as int, j, bishop_masks@[j].0, false),
                forall|j: int| 0 <= j < i ==> block_ok(slider_attacks@, #[trigger] rook_offsets@[j] as int, j, rook_masks@[j].0, true),
            decreases 64 - i,
        {
            let sq = Square::from_index(i);
            proof {
                Square::lemma_from_index_spec(i as int);
            }
            let ghost t0 = slider_attacks@;
            let b_off = push_block(&mut slider_attacks, sq, bishop_masks.get(sq), false);
            let ghost t1 = slider_attacks@;
            let r_off = push_block(&mut slider_attacks, sq, rook_masks.get(sq), true);
            let ghost t2 = slider_attacks@;
            proof {
                lemma_block_ok_extend(t1, t2, b_off as int, i as int, bishop_masks@[i as int].0, false);
                assert(t2.subrange(0, t0.len() as int) == t0) by {
                    assert(t2.subrange(0, t0.len() as int) =~= t1.subrange(0, t0.len() as int));
                }
                assert forall|j: int| 0 <= j < i implies block_ok(t2, #[trigger] bishop_offsets@[j] as int, j, bishop_masks@[j].0, false) by {
                    lemma_block_ok_extend(t0, t2, bishop_offsets@[j] as int, j, bishop_masks@[j].0, false);
                }
                assert forall|j: int| 0 <= j < i implies block_ok(t2, #[trigger] rook_offsets@[j] as int, j, rook_masks@[j].0, true) by {
                    lemma_block_ok_extend(t0, t2, rook_offsets@[j] as int, j, rook_masks@[j].0, true);
                }
            }
            bishop_offsets.set(sq, b_off);
            rook_offsets.set(sq, r_off);
            i = i + 1;
        }
        let n = slider_attacks.len();
        let line_through = init_pair_table(false);
        let ray_to = init_pair_table(true);
        Tables {
            white_pawn_attacks,
            black_pawn_attacks,
            knight_attacks,
            king_attacks,
            bishop_masks,
            rook_masks,
            slider_attacks,
            bishop_offsets,
            rook_offsets,
            line_through,
            ray_to,
        }
    }

    /// Builds the tables.
    pub fn get() -> (r: Tables)
        ensures
            r.wf(),
    {
        Tables::new()
    }
}

impl Tables {
    /// The squares a white pawn on `sq` attacks.
    pub fn white_pawn_attacks(&self, sq: Square) -> (r: Bitboard)
        requires
            self.wf(),
        ensures
            r@ == step_set(sq.idx(), white_pawn_vecs()),
    {
        self.white_pawn_attacks.get(sq)
    }

    /// The squares a black pawn on `sq` attacks.
    pub fn black_pawn_attacks(&self, sq: Square) -> (r: Bitboard)
        requires
            self.wf(),
        ensures
            r@ == step_set(sq.idx(), black_pawn_vecs()),
    {
        self.black_pawn_attacks.get(sq)
    }

    /// The squares a knight on `sq` attacks.
    pub fn knight_attacks(&self, sq: Square) -> (r: Bitboard)
        requires
            self.wf(),
        ensures
            r@ == step_set(sq.idx(), knight_vecs()),
    {
        self.knight_attacks.get(sq)
    }

    /// The squares a king on `sq` attacks.
    pub fn king_attacks(&self, sq: Square) -> (r: Bitboard)
        requires
            self.wf(),
        ensures
            r@ == step_set(sq.idx(), king_vecs()),
    {
        self.king_attacks.get(sq)
    }

    /// The squares whose occupancy decides the attacks of a bishop on `sq`.
    pub fn bishop_masks(&self, sq: Square) -> (r: Bitboard)
        requires
            self.wf(),
        ensures
            r@ == bishop_mask_spec(sq.idx()),
    {
        self.bishop_masks.get(sq)
    }

    /// The squares whose occupancy decides the attacks of a rook on `sq`.
    pub fn rook_masks(&self, sq: Square) -> (r: Bitboard)
        requires
            self.wf(),
        ensures
            r@ == rook_mask_spec(sq.idx()),
    {
        self.rook_masks.get(sq)
    }

    /// The whole line through `from` and `to`, empty if they are equal or not on one line.
    pub fn line_through(&self, from: Square, to: Square) -> (r: Bitboard)
        requires
            self.wf(),
        ensures
            r@ == line_through_spec(from.idx(), to.idx()),
    {
        let n = 64 * from.index() as usize + to.index() as usize;
        proof {
            Square::lemma_idx_bound(from);
            Square::lemma_idx_bound(to);
            lemma_pair_index(from.idx(), to.idx());
            assert(self.line_through@[n as int]@ == line_through_spec(n as int / 64, n as int % 64));
        }
        self.line_through[n]
    }

    /// The squares from `from` towards `to`, up to and including `to` (see `ray_to_spec`).
    pub fn ray_to(&self, from: Square, to: Square) -> (r: Bitboard)
        requires
            self.wf(),
        ensures
            r@ == ray_to_spec(from.idx(), to.idx()),
    {
        let n = 64 * from.index() as usize + to.index() as usize;
        proof {
            Square::lemma_idx_bound(from);
            Square::lemma_idx_bound(to);
            lemma_pair_index(from.idx(), to.idx());
            assert(self.ray_to@[n as int]@ == ray_to_spec(n as int / 64, n as int % 64));
        }
        self.ray_to[n]
    }

    /// The squares a bishop on `sq` attacks when the squares of `occ` are occupied, looked up
    /// by the occupancy of its mask.
    pub fn gen_bishop_attacks(&self, occ: Bitboard, sq: Square) -> (r: Bitboard)
        requires
            self.wf(),
        ensures
            r@ == bishop_attacks(sq.idx(), occ@),
    {
        let mask = self.bishop_masks.get(sq);
        let offset = self.bishop_offsets.get(sq);
        let key = bits::pext(occ.0, mask.0);
        proof {
            Square::lemma_idx_bound(sq);
            let i = sq.idx();
            assert(block_ok(self.slider_attacks@, self.bishop_offsets@[i] as int, i, self.bishop_masks@[i].0, false));
            lemma_high_bits_clear(key, count_low(mask.0, 64) as u64);
            lemma_deposit_extract(occ.0, mask.0, key);
            lemma_bishop_mask(i, occ@);
            assert(slot(self.slider_attacks@, offset as int, key)@ == bishop_attacks(i, deposit_set(key, mask.0)));
        }
        self.slider_attacks[offset + key as usize]
    }

    /// The squares a rook on `sq` attacks when the squares of `occ` are occupied, looked up by
    /// the occupancy of its mask.
    pub fn gen_rook_attacks(&self, occ: Bitboard, sq: Square) -> (r: Bitboard)
        requires
            self.wf(),
        ensures
            r@ == rook_attacks(sq.idx(), occ@),
    {
        let mask = self.rook_masks.get(sq);
        let offset = self.rook_offsets.get(sq);
        let key = bits::pext(occ.0, mask.0);
        proof {
            Square::lemma_idx_bound(sq);
            let i = sq.idx();
            assert(block_ok(self.slider_attacks@, self.rook_offsets@[i] as int, i, self.rook_masks@[i].0, true));
            lemma_high_bits_clear(key, count_low(mask.0, 64) as u64);
            lemma_deposit_extract(occ.0, mask.0, key);
            lemma_rook_mask(i, occ@);
            assert(slot(self.slider_attacks@, offset as int, key)@ == rook_attacks(i, deposit_set(key, mask.0)));
        }
        self.slider_attacks[offset + key as usize]
    }
}

proof fn lemma_pair_index(f: int, t: int)
    requires
        0 <= f < 64,
        0 <= t < 64,
    ensures
        (64 * f + t) / 64 == f,
        (64 * f + t) % 64 == t,
{
}
} // verus!
