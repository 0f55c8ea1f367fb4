use vstd::prelude::*;

use std::sync::atomic::AtomicBool;
use std::time::{Duration, Instant};

use crate::eval::{clamp_eval, material_spec, MaterialEval};
use crate::moves::{square_text, Move, PseudoMove};
use crate::legal::{legal_move, sane};
use crate::move_gen::{in_check, is_capture, lemma_generated_are_legal, legal_moves, legal_shape, list_ok, no_dup, MoveGen};
use crate::piece::PieceKind;
use crate::piece_map::occupied_squares;
use crate::position::{
    applicable, entry_spec, is_draw_spec, lemma_make_spec_parts, made_pieces, make_spec, state_hash, Position, PositionState, Unmake,
};
use crate::transposition_table::{insert_spec, lookup, Bound, Entry, TranspositionTable};
use crate::value::Value;

verus! {

#[verifier::external_type_specification]
#[verifier::external_body]
pub struct ExInstant(Instant);

/// `std::time::Instant::now`: the current time. Nothing is stated of it: it is read from
/// the clock.
#[verifier::external_body]
fn now() -> (r: Instant) {
    Instant::now()
}

/// `std::time::Instant::elapsed`: the time since `start`. Nothing is stated of it: it is
/// read from the clock.
#[verifier::external_body]
fn elapsed(start: &Instant) -> (r: Duration) {
    start.elapsed()
}

/// `std::time::Duration::as_nanos`: the whole nanoseconds of `d`. Nothing is stated of it:
/// the library holds durations as opaque values.
#[verifier::external_body]
fn as_nanos(d: &Duration) -> (r: u128) {
    d.as_nanos()
}

/// The nodes searched per second, `nodes` in `nanos` nanoseconds (truncated to 64 bits);
/// none when no time was measured.
pub fn nodes_per_second(nodes: u64, nanos: u128) -> (r: u64)
    ensures
        nanos == 0 ==> r == 0,
        nanos > 0 ==> r == ((nodes * 1_000_000_000) / (nanos as int)) as u64,
{
    if nanos == 0 {
        0
    } else {
        proof {
            assert(nodes * 1_000_000_000 <= u128::MAX) by (nonlinear_arith)
                requires
                    nodes <= u64::MAX,
            ;
        }
        ((nodes as u128 * 1_000_000_000) / nanos) as u64
    }
}

/// `PartialOrd::ge` on `std::time::Duration`: whether `a` is at least `b`. Nothing is
/// stated of it: the library holds durations as opaque values.
#[verifier::external_body]
fn at_least(a: &Duration, b: &Duration) -> (r: bool) {
    a >= b
}

/// The number of pieces on the board.
pub open spec fn piece_count(s: PositionState) -> nat {
    occupied_squares(s.pieces).len()
}

proof fn lemma_occupied_finite(p: Seq<Option<crate::piece::Piece>>)
    ensures
        occupied_squares(p).finite(),
{
    vstd::set_lib::lemma_int_range(0, 64);
    vstd::set_lib::lemma_len_subset(occupied_squares(p), vstd::set_lib::set_int_range(0, 64));
}

/// A capture leaves one piece fewer on the board.
pub proof fn lemma_capture_reduces(s: PositionState, m: Move)
    requires
        applicable(s, m),
        is_capture(s, m),
    ensures
        piece_count(make_spec(s, m)) < piece_count(s),
{
    lemma_make_spec_parts(s, m);
    crate::square::Square::lemma_idx_bound_all();
    let before = occupied_squares(s.pieces);
    let after = occupied_squares(made_pieces(s, m));
    lemma_occupied_finite(s.pieces);
    lemma_occupied_finite(made_pieces(s, m));
    match m {
        Move::Regular(from, to) => {
            assert(after =~= before.remove(from.idx()));
        },
        Move::Promotion(from, to, _) => {
            assert(after =~= before.remove(from.idx()));
        },
        Move::EnPassant(from, to) => {
            let cap = crate::position::ep_capture_sq(to, s.to_move).idx();
            assert(after =~= before.insert(to.idx()).remove(from.idx()).remove(cap));
            assert(before.insert(to.idx()).finite());
            assert(before.insert(to.idx()).remove(from.idx()).finite());
        },
        Move::Castling(_, _) => {},
    }
}

/// Every score: names a score in a quantifier.
pub open spec fn a_score(v: int) -> bool {
    true
}

/// The larger of `x` and `y`.
pub open spec fn imax(x: int, y: int) -> int {
    if x < y {
        y
    } else {
        x
    }
}

/// What the move generator promises of a list `l` of moves of `s` (only captures if `c`):
/// each can be made and is shaped by the rules, none is listed twice, and in a position
/// that play reaches they are legal, and all legal ones unless the list is full.
pub open spec fn generated(s: PositionState, l: Seq<Move>, c: bool) -> bool {
    &&& list_ok(l, s, c)
    &&& no_dup(l)
    &&& sane(s) ==> forall|i: int| 0 <= i < l.len() ==> legal_move(s, #[trigger] l[i])
    &&& sane(s) && l.len() < 256 ==> forall|m: Move| #[trigger] legal_move(s, m) && (c ==> is_capture(s, m)) ==> l.contains(m)
}

/// `r` is a score that the capture search gives `s` with the window `a`..`b`: the static
/// evaluation if it reaches `b`, else the captures of a list the generator may give, each
/// searched with the window narrowed by the best score so far, stopping at the first that
/// reaches `b`.
pub open spec fn q_rel(s: PositionState, a: int, b: int, r: int) -> bool
    decreases piece_count(s), 1nat, 0int,
{
    let st = clamp_eval(material_spec(s));
    if b <= st {
        r == st
    } else {
        exists|l: Seq<Move>| #[trigger] generated(s, l, true) && q_loop(s, l, 0, imax(a, st), b, r)
    }
}

/// The captures of `l` from the `i`-th on, searched with the window `a`..`b` (see `q_rel`),
/// give `r`.
pub open spec fn q_loop(s: PositionState, l: Seq<Move>, i: nat, a: int, b: int, r: int) -> bool
    decreases piece_count(s), 0nat, l.len() - i,
{
    if i >= l.len() {
        r == a
    } else if !(piece_count(make_spec(s, l[i as int])) < piece_count(s)) {
        false
    } else {
        exists|v: int|
            #[trigger] a_score(v) && q_rel(make_spec(s, l[i as int]), -b, -a, v) && (if b <= -v {
                r == -v
            } else {
                q_loop(s, l, i + 1, imax(a, -v), b, r)
            })
    }
}

/// One capture searched: the step that `q_loop` takes.
proof fn lemma_q_loop_step(s: PositionState, l: Seq<Move>, i: nat, a: int, b: int, v: int, r: int)
    requires
        i < l.len(),
        applicable(s, l[i as int]),
        is_capture(s, l[i as int]),
        q_rel(make_spec(s, l[i as int]), -b, -a, v),
        if b <= -v {
            r == -v
        } else {
            q_loop(s, l, i + 1, imax(a, -v), b, r)
        },
    ensures
        q_loop(s, l, i, a, b, r),
{
    lemma_capture_reduces(s, l[i as int]);
    assert(a_score(v));
}

/// A capture search that a list the generator may give leads to.
proof fn lemma_q_rel_intro(s: PositionState, l: Seq<Move>, a: int, b: int, r: int)
    requires
        b > clamp_eval(material_spec(s)),
        generated(s, l, true),
        q_loop(s, l, 0, imax(a, clamp_eval(material_spec(s))), b, r),
    ensures
        q_rel(s, a, b, r),
{
    reveal_with_fuel(q_rel, 2);
    let st = clamp_eval(material_spec(s));
    assert(!(b <= st));
    assert(generated(s, l, true) && q_loop(s, l, 0, imax(a, st), b, r));
}

/// The smaller of `x` and `y`.
pub open spec fn imin(x: int, y: int) -> int {
    if x < y {
        x
    } else {
        y
    }
}

/// Every result of a search, a score and the table after it: names one in a quantifier.
pub open spec fn a_result(v: int, t: Seq<Option<(u64, Entry)>>) -> bool {
    true
}

/// The entry the search stores: score `score`, best move `m`, bound `bound`, depth `d`.
pub open spec fn stored(score: int, m: Move, bound: Bound, d: nat) -> Entry {
    Entry {
        score: Value::spec_of(score),
        best_move: m,
        bound,
        depth: d as u8,
        entry_score: (d + if bound == Bound::Exact { 1int } else { 0int }) as u32,
    }
}

/// `r` is a score that the alpha-beta search gives `s`, with history `h`, from the table
/// `t` (slot mask `mask`), window `a`..`b`, `d` plies left of a search `sd` plies deep,
/// and `t2` the table after it, for a list of moves the generator may give (see
/// `ab_node`); nothing stopped the search.
pub open spec fn ab_rel(
    s: PositionState,
    h: Seq<Unmake>,
    t: Seq<Option<(u64, Entry)>>,
    mask: usize,
    a: int,
    b: int,
    d: nat,
    sd: int,
    r: int,
    t2: Seq<Option<(u64, Entry)>>,
) -> bool
    decreases d, 2nat, 0int,
{
    exists|l: Seq<Move>| #[trigger] generated(s, l, false) && ab_node(s, h, t, mask, l, a, b, d, sd, r, t2)
}

/// The search of `s` (see `ab_rel`) whose moves are `l`: mate or stalemate without a
/// move, a draw by repetition or the fifty-move rule, a score the table settles, the
/// capture search with no ply left, or else the moves in the order of `reordered`, the
/// table's best move first.
pub open spec fn ab_node(
    s: PositionState,
    h: Seq<Unmake>,
    t: Seq<Option<(u64, Entry)>>,
    mask: usize,
    l: Seq<Move>,
    a: int,
    b: int,
    d: nat,
    sd: int,
    r: int,
    t2: Seq<Option<(u64, Entry)>>,
) -> bool
    decreases d, 1nat, 0int,
{
    let key = state_hash(s);
    let e = lookup(t, mask, key);
    let deep = e is Some && e->0.depth >= d;
    let a1 = if deep && e->0.bound == Bound::Lower { imax(a, e->0.score@) } else { a };
    let b1 = if deep && e->0.bound == Bound::Upper { imin(b, e->0.score@) } else { b };
    let tm = match e {
        Some(en) => Some(en.best_move),
        None => None,
    };
    let bm = match tm {
        Some(m) => m,
        None => l[0],
    };
    if l.len() == 0 {
        t2 == t && r == (if in_check(s) { i16::MIN + 1 + (sd - d + 1) / 2 } else { 0 })
    } else if is_draw_spec(s, h, key) {
        t2 == t && r == 0
    } else if deep && (e->0.bound == Bound::Exact || b1 <= a1) {
        t2 == t && r == e->0.score@
    } else if d == 0 {
        t2 == t && q_rel(s, a1, b1, r)
    } else {
        ab_loop(s, h, t, mask, reordered(l, tm), 0, a1, b1, a, i16::MIN + 1, bm, d, sd, r, t2)
    }
}

/// The moves of `o` from the `i`-th on, each searched one ply less deep with the window
/// narrowed by the best score so far, stopping at the first that reaches `b`; the result
/// is stored in the table (see `ab_rel`).
pub open spec fn ab_loop(
    s: PositionState,
    h: Seq<Unmake>,
    t: Seq<Option<(u64, Entry)>>,
    mask: usize,
    o: Seq<Move>,
    i: nat,
    a: int,
    b: int,
    oa: int,
    best: int,
    bm: Move,
    d: nat,
    sd: int,
    r: int,
    t2: Seq<Option<(u64, Entry)>>,
) -> bool
    decreases d, 0nat, o.len() - i,
{
    let key = state_hash(s);
    if i >= o.len() {
        t2 == insert_spec(t, mask, key, stored(best, bm, if best < oa { Bound::Upper } else { Bound::Exact }, d))
            && r == best
    } else if d == 0 {
        false
    } else {
        let m = o[i as int];
        exists|v: int, t1: Seq<Option<(u64, Entry)>>|
            #[trigger] a_result(v, t1) && ab_rel(
                make_spec(s, m),
                h.push(entry_spec(s, m)),
                t,
                mask,
                -b,
                -a,
                (d - 1) as nat,
                sd,
                v,
                t1,
            ) && ({
                let better = best < -v;
                let nbest = if better { -v } else { best };
                let nbm = if better { m } else { bm };
                let na = if better && a < -v { -v } else { a };
                if b <= na {
                    t2 == insert_spec(t1, mask, key, stored(na, nbm, Bound::Lower, d)) && r == na
                } else {
                    ab_loop(s, h, t1, mask, o, i + 1, na, b, oa, nbest, nbm, d, sd, r, t2)
                }
            })
    }
}

/// One move searched: the step that `ab_loop` takes.
proof fn lemma_ab_loop_step(
    s: PositionState,
    h: Seq<Unmake>,
    t: Seq<Option<(u64, Entry)>>,
    mask: usize,
    o: Seq<Move>,
    i: nat,
    a: int,
    b: int,
    oa: int,
    best: int,
    bm: Move,
    d: nat,
    sd: int,
    r: int,
    t2: Seq<Option<(u64, Entry)>>,
    v: int,
    t1: Seq<Option<(u64, Entry)>>,
)
    requires
        i < o.len(),
        d > 0,
        ab_rel(make_spec(s, o[i as int]), h.push(entry_spec(s, o[i as int])), t, mask, -b, -a, (d - 1) as nat, sd, v, t1),
        ({
            let m = o[i as int];
            let better = best < -v;
            let nbest = if better { -v } else { best };
            let nbm = if better { m } else { bm };
            let na = if better && a < -v { -v } else { a };
            if b <= na {
                t2 == insert_spec(t1, mask, state_hash(s), stored(na, nbm, Bound::Lower, d)) && r == na
            } else {
                ab_loop(s, h, t1, mask, o, i + 1, na, b, oa, nbest, nbm, d, sd, r, t2)
            }
        }),
    ensures
        ab_loop(s, h, t, mask, o, i, a, b, oa, best, bm, d, sd, r, t2),
{
    assert(a_result(v, t1));
}

/// A search that a list the generator may give leads to.
proof fn lemma_ab_rel_intro(
    s: PositionState,
    h: Seq<Unmake>,
    t: Seq<Option<(u64, Entry)>>,
    mask: usize,
    l: Seq<Move>,
    a: int,
    b: int,
    d: nat,
    sd: int,
    r: int,
    t2: Seq<Option<(u64, Entry)>>,
)
    requires
        generated(s, l, false),
        ab_node(s, h, t, mask, l, a, b, d, sd, r, t2),
    ensures
        ab_rel(s, h, t, mask, a, b, d, sd, r, t2),
{
}

/// After the capture `m` of `s`, the capture search of the reply, with the window from
/// `-b` to some `a2`, gives a score `v` whose negation `-v` is at most `r`.
pub open spec fn reply_at_most(s: PositionState, m: Move, b: int, r: int) -> bool {
    exists|a2: int, v: int| #[trigger] q_rel(make_spec(s, m), -b, a2, v) && -v <= r
}

/// The captures of `l` from the `i`-th on, searched as `q_loop` does from the bound `a`,
/// give a score at least `a` or at least `b`, and one below `b` is at least the negation
/// of the reply search after each of them.
proof fn lemma_q_loop_bounds(s: PositionState, l: Seq<Move>, i: nat, a: int, b: int, r: int)
    requires
        q_loop(s, l, i, a, b, r),
    ensures
        r >= a || r >= b,
        r < b ==> forall|j: int| i <= j < l.len() ==> reply_at_most(s, #[trigger] l[j], b, r),
    decreases l.len() - i,
{
    if i < l.len() {
        let v = choose|v: int|
            #[trigger] a_score(v) && q_rel(make_spec(s, l[i as int]), -b, -a, v) && (if b <= -v {
                r == -v
            } else {
                q_loop(s, l, i + 1, imax(a, -v), b, r)
            });
        if !(b <= -v) {
            lemma_q_loop_bounds(s, l, i + 1, imax(a, -v), b, r);
            assert(q_rel(make_spec(s, l[i as int]), -b, -a, v) && -v <= r);
            assert(reply_at_most(s, l[i as int], b, r));
            if r < b {
                assert forall|j: int| i <= j < l.len() implies reply_at_most(s, #[trigger] l[j], b, r) by {
                    if j > i {
                        assert(i + 1 <= j);
                    }
                }
            }
        }
    }
}

/// The capture search never scores a position below its static evaluation, and a score
/// below `b` is at least the negation of the reply search after each capture of a list
/// that the generator may give (all legal captures, in a position that play reaches and
/// with fewer than 256 of them): a capture that loses to a recapture does not count as a
/// gain.
pub proof fn lemma_capture_search_bounds(s: PositionState, a: int, b: int, r: int)
    requires
        q_rel(s, a, b, r),
    ensures
        r >= clamp_eval(material_spec(s)),
        r < b ==> exists|l: Seq<Move>|
            #[trigger] generated(s, l, true) && forall|i: int| 0 <= i < l.len() ==> reply_at_most(s, #[trigger] l[i], b, r),
{
    let st = clamp_eval(material_spec(s));
    if b > st {
        let l = choose|l: Seq<Move>| #[trigger] generated(s, l, true) && q_loop(s, l, 0, imax(a, st), b, r);
        lemma_q_loop_bounds(s, l, 0, imax(a, st), b, r);
        if r < b {
            assert(generated(s, l, true) && forall|i: int| 0 <= i < l.len() ==> reply_at_most(s, #[trigger] l[i], b, r));
        }
    }
}

/// With no plies left, in a position that play reaches where a move is legal, that is not
/// drawn and for which the table holds nothing, the search gives the capture search's
/// score (quiescence) with the same window and leaves the table as it was.
pub proof fn lemma_leaf_is_capture_search(
    s: PositionState,
    h: Seq<Unmake>,
    t: Seq<Option<(u64, Entry)>>,
    mask: usize,
    a: int,
    b: int,
    sd: int,
    r: int,
    t2: Seq<Option<(u64, Entry)>>,
)
    requires
        ab_rel(s, h, t, mask, a, b, 0, sd, r, t2),
        sane(s),
        has_legal_move(s),
        !is_draw_spec(s, h, state_hash(s)),
        lookup(t, mask, state_hash(s)) is None,
    ensures
        t2 == t,
        q_rel(s, a, b, r),
{
    let l = choose|l: Seq<Move>| #[trigger] generated(s, l, false) && ab_node(s, h, t, mask, l, a, b, 0, sd, r, t2);
    let m = choose|m: Move| #[trigger] legal_move(s, m);
    if l.len() < 256 {
        assert(l.contains(m));
    }
    assert(l.len() != 0);
}

/// In a position that play reaches where the player to move has no legal move, the
/// search scores checkmate as a mate against that player in half the plies from the root
/// (rounded up), and stalemate as 0, before any draw by repetition or the fifty-move rule
/// and whatever the table holds; the table is left as it was.
pub proof fn lemma_no_move_scores(
    s: PositionState,
    h: Seq<Unmake>,
    t: Seq<Option<(u64, Entry)>>,
    mask: usize,
    a: int,
    b: int,
    d: nat,
    sd: int,
    r: int,
    t2: Seq<Option<(u64, Entry)>>,
)
    requires
        ab_rel(s, h, t, mask, a, b, d, sd, r, t2),
        sane(s),
        !has_legal_move(s),
    ensures
        t2 == t,
        in_check(s) ==> r == i16::MIN + 1 + (sd - d + 1) / 2,
        !in_check(s) ==> r == 0,
{
    let l = choose|l: Seq<Move>| #[trigger] generated(s, l, false) && ab_node(s, h, t, mask, l, a, b, d, sd, r, t2);
    if l.len() > 0 {
        assert(legal_move(s, l[0]));
    }
}

/// The root moves of `o` from the `i`-th on, each searched with the window from a mate
/// against the player to move up to the best score so far, `depth` plies deep in a search
/// `depth + 1` plies deep; each better score is stored as an upper bound, and the best one
/// as exact at the end.
pub open spec fn root_loop(
    s: PositionState,
    h: Seq<Unmake>,
    t: Seq<Option<(u64, Entry)>>,
    mask: usize,
    o: Seq<Move>,
    i: nat,
    maxv: int,
    bm: Move,
    depth: nat,
    r: int,
    t2: Seq<Option<(u64, Entry)>>,
) -> bool
    decreases o.len() - i,
{
    let key = state_hash(s);
    if i >= o.len() {
        t2 == insert_spec(t, mask, key, stored(maxv, bm, Bound::Exact, depth + 1)) && r == maxv
    } else {
        let m = o[i as int];
        exists|v: int, t1: Seq<Option<(u64, Entry)>>|
            #[trigger] a_result(v, t1) && ab_rel(
                make_spec(s, m),
                h.push(entry_spec(s, m)),
                t,
                mask,
                i16::MIN + 1,
                -maxv,
                depth,
                (depth + 1) as int,
                v,
                t1,
            ) && (if maxv < -v {
                root_loop(s, h, insert_spec(t1, mask, key, stored(-v, m, Bound::Upper, depth + 1)), mask, o, i + 1, -v, m, depth, r, t2)
            } else {
                root_loop(s, h, t1, mask, o, i + 1, maxv, bm, depth, r, t2)
            })
    }
}

/// One completed iteration of iterative deepening, `depth + 1` plies deep, over the root
/// moves `ms` from table `t`: the moves in the order of `reordered`, the table's best move
/// first, give the score `r` and the table `t2`.
pub open spec fn root_iter(
    s: PositionState,
    h: Seq<Unmake>,
    t: Seq<Option<(u64, Entry)>>,
    mask: usize,
    ms: Seq<Move>,
    depth: nat,
    r: int,
    t2: Seq<Option<(u64, Entry)>>,
) -> bool {
    let tm = match lookup(t, mask, state_hash(s)) {
        Some(e) => Some(e.best_move),
        None => None,
    };
    let bm = match tm {
        Some(m) => m,
        None => ms[0],
    };
    root_loop(s, h, t, mask, reordered(ms, tm), 0, i16::MIN + 1, bm, depth, r, t2)
}

/// Every run of an iteration, its root moves and tables: names one in a quantifier.
pub open spec fn a_run(ms: Seq<Move>, t: Seq<Option<(u64, Entry)>>, t2: Seq<Option<(u64, Entry)>>) -> bool {
    true
}

/// The best move the table `t` (slot mask `mask`) stores for `s`, if any.
pub open spec fn table_move_of(t: Seq<Option<(u64, Entry)>>, mask: usize, s: PositionState) -> Option<Move> {
    match lookup(t, mask, state_hash(s)) {
        Some(e) => Some(e.best_move),
        None => None,
    }
}

/// Iteration `j` of the search of `s` (history `h`, slot mask `mask`) went from table
/// `ts[j]` and root moves `mss[j]` to table `ts[j + 1]`: its score is the one `root_iter`
/// gives, its line the one the table then stores, and the next iteration searches the
/// root moves in the order of `reordered`.
pub open spec fn iteration_ok(
    s: PositionState,
    h: Seq<Unmake>,
    mask: usize,
    ts: Seq<Seq<Option<(u64, Entry)>>>,
    mss: Seq<Seq<Move>>,
    res: Seq<SearchResult>,
    j: int,
) -> bool {
    &&& root_iter(s, h, ts[j], mask, mss[j], j as nat, res[j].value@, ts[j + 1])
    &&& res[j].line@ == stored_line(ts[j + 1], mask, s, (j + 1) as nat)
    &&& mss[j + 1] == reordered(mss[j], table_move_of(ts[j], mask, s))
}

/// The results `res` are the completed iterations of the search of `s`, one after the
/// other: iteration `j` goes from table `ts[j]` and root moves `mss[j]` (see
/// `iteration_ok`).
pub open spec fn run_chain(
    s: PositionState,
    h: Seq<Unmake>,
    mask: usize,
    ts: Seq<Seq<Option<(u64, Entry)>>>,
    mss: Seq<Seq<Move>>,
    res: Seq<SearchResult>,
) -> bool {
    &&& ts.len() == res.len() + 1
    &&& mss.len() == res.len() + 1
    &&& forall|j: int| 0 <= j < res.len() ==> #[trigger] iteration_ok(s, h, mask, ts, mss, res, j)
}

/// A completed iteration extends the chain of results.
proof fn lemma_chain_push(
    s: PositionState,
    h: Seq<Unmake>,
    mask: usize,
    ts: Seq<Seq<Option<(u64, Entry)>>>,
    mss: Seq<Seq<Move>>,
    res: Seq<SearchResult>,
    t2: Seq<Option<(u64, Entry)>>,
    ms2: Seq<Move>,
    x: SearchResult,
)
    requires
        run_chain(s, h, mask, ts, mss, res),
        iteration_ok(s, h, mask, ts.push(t2), mss.push(ms2), res.push(x), res.len() as int),
    ensures
        run_chain(s, h, mask, ts.push(t2), mss.push(ms2), res.push(x)),
{
    assert forall|j: int| 0 <= j < res.push(x).len() implies #[trigger] iteration_ok(
        s,
        h,
        mask,
        ts.push(t2),
        mss.push(ms2),
        res.push(x),
        j,
    ) by {
        if j < res.len() {
            assert(iteration_ok(s, h, mask, ts, mss, res, j));
            assert(ts.push(t2)[j] == ts[j] && ts.push(t2)[j + 1] == ts[j + 1]);
            assert(mss.push(ms2)[j] == mss[j] && mss.push(ms2)[j + 1] == mss[j + 1]);
            assert(res.push(x)[j] == res[j]);
        }
    }
}

/// Every run of the search, its tables and root moves: names one in a quantifier.
pub open spec fn a_chain(ts: Seq<Seq<Option<(u64, Entry)>>>, mss: Seq<Seq<Move>>) -> bool {
    true
}

/// One root move searched: the step that `root_loop` takes.
proof fn lemma_root_loop_step(
    s: PositionState,
    h: Seq<Unmake>,
    t: Seq<Option<(u64, Entry)>>,
    mask: usize,
    o: Seq<Move>,
    i: nat,
    maxv: int,
    bm: Move,
    depth: nat,
    r: int,
    t2: Seq<Option<(u64, Entry)>>,
    v: int,
    t1: Seq<Option<(u64, Entry)>>,
)
    requires
        i < o.len(),
        ab_rel(make_spec(s, o[i as int]), h.push(entry_spec(s, o[i as int])), t, mask, i16::MIN + 1, -maxv, depth, (depth + 1) as int, v, t1),
        if maxv < -v {
            root_loop(s, h, insert_spec(t1, mask, state_hash(s), stored(-v, o[i as int], Bound::Upper, depth + 1)), mask, o, i + 1, -v, o[i as int], depth, r, t2)
        } else {
            root_loop(s, h, t1, mask, o, i + 1, maxv, bm, depth, r, t2)
        },
    ensures
        root_loop(s, h, t, mask, o, i, maxv, bm, depth, r, t2),
{
    assert(a_result(v, t1));
}

/// The place of a move in the order of search: the best move of the previous search first,
/// then en passant captures, queen promotions, castling, regular moves, and other
/// promotions.
pub open spec fn move_rank(mv: Move, best_move: Option<Move>) -> int {
    if best_move == Some(mv) {
        0
    } else {
        match mv {
            Move::Regular(_, _) => 4,
            Move::Castling(_, _) => 3,
            Move::Promotion(_, _, kind) => if kind == PieceKind::Queen { 2 } else { 5 },
            Move::EnPassant(_, _) => 1,
        }
    }
}

fn move_rank_exec(mv: Move, best_move: Option<Move>) -> (r: u8)
    ensures
        r == move_rank(mv, best_move),
{
    let is_best = match best_move {
        Some(b) => b == mv,
        None => false,
    };
    if is_best {
        0
    } else {
        match mv {
            Move::Regular(_, _) => 4,
            Move::Castling(_, _) => 3,
            Move::Promotion(_, _, kind) => match kind {
                PieceKind::Queen => 2,
                _ => 5,
            },
            Move::EnPassant(_, _) => 1,
        }
    }
}

/// The moves of `s` whose rank is `k`, in their order.
pub open spec fn with_rank(s: Seq<Move>, best_move: Option<Move>, k: int) -> Seq<Move>
    decreases s.len(),
{
    if s.len() == 0 {
        Seq::empty()
    } else {
        let r = with_rank(s.drop_last(), best_move, k);
        if move_rank(s.last(), best_move) == k {
            r.push(s.last())
        } else {
            r
        }
    }
}

/// The moves of `s` with rank below `k`, sorted by rank, keeping the order of equal ranks.
pub open spec fn ranked_below(s: Seq<Move>, best_move: Option<Move>, k: nat) -> Seq<Move>
    decreases k,
{
    if k == 0 {
        Seq::empty()
    } else {
        ranked_below(s, best_move, (k - 1) as nat) + with_rank(s, best_move, k - 1)
    }
}

/// The moves of `s` sorted by `move_rank`, keeping the order of moves of equal rank.
pub open spec fn reordered(s: Seq<Move>, best_move: Option<Move>) -> Seq<Move> {
    ranked_below(s, best_move, 6)
}

proof fn lemma_with_rank_in(s: Seq<Move>, best_move: Option<Move>, k: int, i: int)
    requires
        0 <= i < with_rank(s, best_move, k).len(),
    ensures
        s.contains(with_rank(s, best_move, k)[i]),
    decreases s.len(),
{
    let r = with_rank(s.drop_last(), best_move, k);
    if i < r.len() {
        lemma_with_rank_in(s.drop_last(), best_move, k, i);
        let j = choose|j: int| 0 <= j < s.drop_last().len() && s.drop_last()[j] == r[i];
        assert(s[j] == r[i]);
    } else {
        assert(s[s.len() - 1] == s.last());
    }
}

proof fn lemma_ranked_in(s: Seq<Move>, best_move: Option<Move>, k: nat, i: int)
    requires
        0 <= i < ranked_below(s, best_move, k).len(),
    ensures
        s.contains(ranked_below(s, best_move, k)[i]),
    decreases k,
{
    let a = ranked_below(s, best_move, (k - 1) as nat);
    if i < a.len() {
        lemma_ranked_in(s, best_move, (k - 1) as nat, i);
    } else {
        lemma_with_rank_in(s, best_move, k - 1, i - a.len());
    }
}

/// The number of moves of `s` with rank below `n`.
pub open spec fn count_below(s: Seq<Move>, best_move: Option<Move>, n: int) -> nat
    decreases s.len(),
{
    if s.len() == 0 {
        0
    } else {
        count_below(s.drop_last(), best_move, n) + if move_rank(s.last(), best_move) < n { 1nat } else { 0nat }
    }
}

proof fn lemma_with_rank_len(s: Seq<Move>, best_move: Option<Move>, k: int)
    ensures
        with_rank(s, best_move, k).len() + count_below(s, best_move, k) == count_below(s, best_move, k + 1),
    decreases s.len(),
{
    if s.len() > 0 {
        lemma_with_rank_len(s.drop_last(), best_move, k);
    }
}

proof fn lemma_ranked_len(s: Seq<Move>, best_move: Option<Move>, n: nat)
    ensures
        ranked_below(s, best_move, n).len() == count_below(s, best_move, n as int),
    decreases n,
{
    if n == 0 {
        lemma_count_none(s, best_move);
    } else {
        lemma_ranked_len(s, best_move, (n - 1) as nat);
        lemma_with_rank_len(s, best_move, n - 1);
    }
}

proof fn lemma_count_none(s: Seq<Move>, best_move: Option<Move>)
    ensures
        count_below(s, best_move, 0) == 0,
    decreases s.len(),
{
    if s.len() > 0 {
        lemma_count_none(s.drop_last(), best_move);
    }
}

proof fn lemma_count_all(s: Seq<Move>, best_move: Option<Move>)
    ensures
        count_below(s, best_move, 6) == s.len(),
    decreases s.len(),
{
    if s.len() > 0 {
        lemma_count_all(s.drop_last(), best_move);
    }
}

/// `moves` sorted by `move_rank`, keeping the order of moves of equal rank.
pub fn reorder_moves(moves: &Vec<Move>, best_move: Option<Move>) -> (r: Vec<Move>)
    ensures
        r@ == reordered(moves@, best_move),
        r@.len() == moves@.len(),
        forall|i: int| 0 <= i < r@.len() ==> moves@.contains(#[trigger] r@[i]),
{
    let mut out: Vec<Move> = Vec::new();
    let mut k: u8 = 0;
    while k < 6
        invariant
            k <= 6,
            out@ == ranked_below(moves@, best_move, k as nat),
        decreases 6 - k,
    {
        let mut i: usize = 0;
        let ghost base = out@;
        while i < moves.len()
            invariant
                i <= moves@.len(),
                k < 6,
                base == ranked_below(moves@, best_move, k as nat),
                out@ == base + with_rank(moves@.subrange(0, i as int), best_move, k as int),
            decreases moves@.len() - i,
        {
            let mv = moves[i];
            proof {
                assert(moves@.subrange(0, i + 1).drop_last() =~= moves@.subrange(0, i as int));
                assert(moves@.subrange(0, i + 1).last() == mv);
            }
            if move_rank_exec(mv, best_move) == k {
                out.push(mv);
            }
            i = i + 1;
        }
        proof {
            assert(moves@.subrange(0, moves@.len() as int) =~= moves@);
        }
        k = k + 1;
    }
    proof {
        assert forall|i: int| 0 <= i < out@.len() implies moves@.contains(#[trigger] out@[i]) by {
            lemma_ranked_in(moves@, best_move, 6, i);
        }
        lemma_ranked_len(moves@, best_move, 6);
        lemma_count_all(moves@, best_move);
    }
    out
}

/// What a search to one depth found.
#[derive(Debug)]
pub struct SearchResult {
    pub value: Value,
    pub line: Vec<Move>,
    pub depth: u8,
    pub sel_depth: u8,
    pub nodes_searched: u64,
    pub nps: u64,
    pub total_duration: Duration,
    pub hash_full: u32,
}

impl SearchResult {
    pub fn new(
        value: Value,
        line: Vec<Move>,
        depth: u8,
        sel_depth: u8,
        nodes_searched: u64,
        nps: u64,
        total_duration: Duration,
        hash_full: u32,
    ) -> (r: SearchResult)
        ensures
            r.value == value,
            r.line@ == line@,
            r.depth == depth,
            r.sel_depth == sel_depth,
            r.nodes_searched == nodes_searched,
            r.nps == nps,
            r.total_duration == total_duration,
            r.hash_full == hash_full,
    {
        SearchResult { value, line, depth, sel_depth, nodes_searched, nps, total_duration, hash_full }
    }
}


/// The counters of one iteration of the search.
pub struct SearchParams {
    pub nodes: u64,
    pub sel_depth: u8,
    pub start_depth: u8,
}

/// What the search works with and the limits it keeps to.
struct SearchCtx<'a> {
    move_gen: &'a MoveGen,
    eval: MaterialEval,
    stop_search: &'a AtomicBool,
    search_start: Instant,
    search_time: Option<Duration>,
    search_nodes: Option<u64>,
}

/// Whether a search must stop, given whether the stop flag is set, whether the time is up,
/// the number of nodes searched and the node limit.
pub open spec fn must_stop(flag: bool, time_up: bool, nodes: u64, limit: Option<u64>) -> bool {
    flag || time_up || (limit matches Some(n) && nodes >= n)
}

/// Whether a search must stop (see `must_stop`).
fn stop_decision(flag: bool, time_up: bool, nodes: u64, limit: Option<u64>) -> (r: bool)
    ensures
        r == must_stop(flag, time_up, nodes, limit),
{
    if flag || time_up {
        return true;
    }
    match limit {
        Some(n) => nodes >= n,
        None => false,
    }
}

/// Whether the search must stop: the flag is set, the time is up, or `nodes` reached the
/// node limit. The flag and the clock are read here; whatever they give, the answer is
/// `must_stop` of them, and the time can only be up where a time limit is set.
fn should_stop(ctx: &SearchCtx, nodes: u64) -> (r: bool)
    ensures
        exists|flag: bool, time_up: bool|
            (time_up ==> ctx.search_time is Some) && r == must_stop(flag, time_up, nodes, ctx.search_nodes),
{
    let flag = ctx.stop_search.load(std::sync::atomic::Ordering::Acquire);
    let time_up = match &ctx.search_time {
        Some(t) => at_least(&elapsed(&ctx.search_start), t),
        None => false,
    };
    let r = stop_decision(flag, time_up, nodes, ctx.search_nodes);
    assert((time_up ==> ctx.search_time is Some) && r == must_stop(flag, time_up, nodes, ctx.search_nodes));
    r
}

/// The position is as it was, history included.
pub open spec fn restored(before: Position, after: Position) -> bool {
    &&& after.wf()
    &&& after@ == before@
    &&& after.spec_history() == before.spec_history()
    &&& after.spec_states() == before.spec_states()
}

/// Making a move (`p0` to `p1`), leaving the new position as it was (`p1` to `p2`) and
/// taking the move back (`p2` to `p3`) restores the position, history included.
pub(crate) proof fn lemma_make_unmake(p0: Position, p1: Position, p2: Position, p3: Position, mv: Move)
    requires
        p0.wf(),
        p1.wf(),
        p1@ == make_spec(p0@, mv),
        p1.spec_history() == p0.spec_history().push(crate::position::entry_spec(p0@, mv)),
        p1.spec_states() == p0.spec_states().push(p1@),
        restored(p1, p2),
        p3.wf(),
        p3@ == p2.spec_states()[p2.spec_states().len() - 2],
        p3.spec_history() == p2.spec_history().drop_last(),
        p3.spec_states() == p2.spec_states().drop_last(),
    ensures
        restored(p0, p3),
{
    p0.lemma_wf();
    assert(p2.spec_states().drop_last() =~= p0.spec_states());
    assert(p2.spec_history().drop_last() =~= p0.spec_history());
}

/// Searches the captures of the position until it is quiet, with the window
/// `alpha`..`beta`, standing on the static evaluation when it beats the captures.
fn quiesce(
    ctx: &SearchCtx,
    position: &mut Position,
    params: &mut SearchParams,
    window_alpha: Value,
    beta: Value,
    start_depth: u8,
    Ghost(budget): Ghost<nat>,
) -> (r: Value)
    requires
        ctx.move_gen.wf(),
        old(position).wf(),
        budget == piece_count(old(position)@),
    ensures
        restored(*old(position), *final(position)),
        final(params).start_depth == old(params).start_depth,
        r@ >= clamp_eval(material_spec(old(position)@)),
        q_rel(old(position)@, window_alpha@, beta@, r@),
    decreases budget,
{
    let ghost p0 = *position;
    let ghost a_in = window_alpha@;
    let mut alpha = window_alpha;
    params.sel_depth = if start_depth > params.sel_depth { start_depth } else { params.sel_depth };
    // The player to move can do at least as well as the static evaluation: zugzwang is not
    // considered.
    let static_eval = ctx.eval.eval(position);
    if beta.le(static_eval) {
        return static_eval;
    } else if alpha.lt(static_eval) {
        alpha = static_eval;
    }
    let moves = ctx.move_gen.gen_captures(position).into_vec();
    let ghost s = p0@;
    let ghost a0 = alpha@;
    proof {
        assert(a0 == imax(a_in, static_eval@));
        assert(generated(s, moves@, true));
    }
    let mut i: usize = 0;
    while i < moves.len()
        invariant
            s == p0@,
            static_eval@ < beta@,
            a0 == imax(a_in, clamp_eval(material_spec(s))),
            a_in == window_alpha@,
            generated(s, moves@, true),
            forall|r: int| #[trigger] q_loop(s, moves@, i as nat, alpha@, beta@, r) ==> q_loop(s, moves@, 0, a0, beta@, r),
            ctx.move_gen.wf(),
            restored(p0, *position),
            p0 == *old(position),
            p0.wf(),
            budget == piece_count(p0@),
            params.start_depth == old(params).start_depth,
            list_ok(moves@, p0@, true),
            i <= moves@.len(),
            static_eval@ == clamp_eval(material_spec(p0@)),
            alpha@ >= static_eval@,
            beta@ > static_eval@,
        decreases moves@.len() - i,
    {
        let mv = moves[i];
        proof {
            assert(list_ok(moves@, p0@, true));
            assert(legal_shape(p0@, mv) && is_capture(p0@, mv));
            lemma_capture_reduces(p0@, mv);
        }
        let ghost p_before = *position;
        position.make_move(mv);
        let ghost p1 = *position;
        params.nodes = params.nodes.saturating_add(1);
        let score = quiesce(
            ctx,
            position,
            params,
            beta.neg(),
            alpha.neg(),
            start_depth.saturating_add(1),
            Ghost(piece_count(p1@)),
        ).neg();
        let ghost p2 = *position;
        position.unmake_move();
        proof {
            lemma_make_unmake(p_before, p1, p2, *position, mv);
        }
        let ghost v = -score@;
        let ghost a_cur = alpha@;
        proof {
            assert(q_rel(make_spec(s, moves@[i as int]), -beta@, -a_cur, v));
            assert(applicable(s, moves@[i as int]) && is_capture(s, moves@[i as int]));
        }
        if beta.le(score) {
            proof {
                lemma_q_loop_step(s, moves@, i as nat, a_cur, beta@, v, score@);
                assert(q_loop(s, moves@, 0, a0, beta@, score@));
                lemma_q_rel_intro(s, moves@, a_in, beta@, score@);
            }
            return score;
        }
        if alpha.lt(score) {
            alpha = score;
        }
        proof {
            assert(alpha@ == imax(a_cur, -v));
            assert forall|r: int| #[trigger] q_loop(s, moves@, (i + 1) as nat, alpha@, beta@, r) implies q_loop(
                s,
                moves@,
                0,
                a0,
                beta@,
                r,
            ) by {
                lemma_q_loop_step(s, moves@, i as nat, a_cur, beta@, v, r);
                assert(q_loop(s, moves@, i as nat, a_cur, beta@, r));
            }
        }
        i = i + 1;
        proof {
            assert forall|r: int| #[trigger] q_loop(s, moves@, i as nat, alpha@, beta@, r) implies q_loop(
                s,
                moves@,
                0,
                a0,
                beta@,
                r,
            ) by {
                assert(q_loop(s, moves@, ((i - 1) + 1) as nat, alpha@, beta@, r));
            }
        }
    }
    proof {
        assert(q_loop(s, moves@, i as nat, alpha@, beta@, alpha@));
        assert(q_loop(s, moves@, 0, a0, beta@, alpha@));
        lemma_q_rel_intro(s, moves@, a_in, beta@, alpha@);
    }
    alpha
}

/// Fail-soft alpha-beta search of the position to `depth_left` more plies, then the
/// captures: the score of the position for the player to move, within the window
/// `window_alpha`..`window_beta` if it lies in it, and whether the search was stopped
/// (by `should_stop`, here or deeper).
/// Scores go into the transposition table. Unless it was stopped, the score and the table
/// after it are as `ab_rel` says.
fn alpha_beta(
    ctx: &SearchCtx,
    position: &mut Position,
    tt: &mut TranspositionTable,
    params: &mut SearchParams,
    window_alpha: Value,
    window_beta: Value,
    depth_left: u8,
) -> (r: (Value, bool))
    requires
        ctx.move_gen.wf(),
        old(position).wf(),
        old(tt).wf(),
        depth_left < old(params).start_depth,
    ensures
        restored(*old(position), *final(position)),
        final(tt).wf(),
        final(tt).spec_mask() == old(tt).spec_mask(),
        final(params).start_depth == old(params).start_depth,
        !r.1 ==> ab_rel(
            old(position)@,
            old(position).spec_history(),
            old(tt).spec_data(),
            old(tt).spec_mask(),
            window_alpha@,
            window_beta@,
            depth_left as nat,
            old(params).start_depth as int,
            r.0@,
            final(tt).spec_data(),
        ),
        sane(old(position)@) && !has_legal_move(old(position)@) ==> r.1 || r.0@ == (if in_check(
            old(position)@,
        ) {
            i16::MIN + 1 + (old(params).start_depth - depth_left + 1) / 2
        } else {
            0
        }),
        sane(old(position)@) && has_legal_move(old(position)@) && is_draw_spec(
            old(position)@,
            old(position).spec_history(),
            old(position).spec_zobrist(),
        ) ==> r.1 || r.0@ == 0,
    decreases depth_left,
{
    let ghost p0 = *position;
    let ghost s = p0@;
    let ghost h = p0.spec_history();
    let ghost t0 = tt.spec_data();
    let ghost mask = tt.spec_mask();
    let ghost sd = params.start_depth as int;
    let ghost d = depth_left as nat;
    proof {
        p0.lemma_wf();
    }
    if should_stop(ctx, params.nodes) {
        return (Value::from_inf(0), true);
    }
    let (moves, check) = ctx.move_gen.gen_all_moves_and_check(position);
    proof {
        assert(generated(s, moves@, false));
        if sane(p0@) {
            if moves@.len() == 0 && has_legal_move(p0@) {
                let m = choose|m: Move| legal_move(p0@, m);
                assert(moves@.contains(m));
            }
            if moves@.len() > 0 {
                assert(legal_move(p0@, moves@[0]));
            }
        }
    }
    if moves.len() == 0 {
        // Checkmate or stalemate
        let v = if check {
            Value::from_neg_inf(((params.start_depth - depth_left) as u16 + 1) / 2)
        } else {
            Value::from_cp(0)
        };
        proof {
            assert(ab_node(s, h, t0, mask, moves@, window_alpha@, window_beta@, d, sd, v@, t0));
            lemma_ab_rel_intro(s, h, t0, mask, moves@, window_alpha@, window_beta@, d, sd, v@, t0);
        }
        return (v, false);
    }
    // Draw by threefold repetition or fifty-move rule
    if position.is_draw() {
        let v = Value::from_cp(0);
        proof {
            assert(ab_node(s, h, t0, mask, moves@, window_alpha@, window_beta@, d, sd, v@, t0));
            lemma_ab_rel_intro(s, h, t0, mask, moves@, window_alpha@, window_beta@, d, sd, v@, t0);
        }
        return (v, false);
    }
    let orig_alpha = window_alpha;
    let mut alpha = window_alpha;
    let mut beta = window_beta;
    let mut table_move: Option<Move> = None;
    let ghost e = lookup(t0, mask, state_hash(s));
    match tt.get(position) {
        Some(entry) => {
            if entry.depth >= depth_left {
                match entry.bound {
                    Bound::Exact => {
                        proof {
                            assert(ab_node(s, h, t0, mask, moves@, window_alpha@, window_beta@, d, sd, entry.score@, t0));
                            lemma_ab_rel_intro(s, h, t0, mask, moves@, window_alpha@, window_beta@, d, sd, entry.score@, t0);
                        }
                        return (entry.score, false);
                    },
                    Bound::Lower => {
                        alpha = alpha.max(entry.score);
                    },
                    Bound::Upper => {
                        beta = beta.min(entry.score);
                    },
                }
                if beta.le(alpha) {
                    proof {
                        assert(ab_node(s, h, t0, mask, moves@, window_alpha@, window_beta@, d, sd, entry.score@, t0));
                        lemma_ab_rel_intro(s, h, t0, mask, moves@, window_alpha@, window_beta@, d, sd, entry.score@, t0);
                    }
                    return (entry.score, false);
                }
            }
            table_move = Some(entry.best_move);
        },
        None => {},
    }
    let ghost a1 = alpha@;
    let ghost b1 = beta@;
    let moves = moves.into_vec();
    let mut best_move = match table_move {
        Some(mv) => mv,
        None => moves[0],
    };
    let mut best_score = Value::from_neg_inf(0);
    if depth_left == 0 {
        let v = quiesce(ctx, position, params, alpha, beta, params.start_depth, Ghost(piece_count(position@)));
        proof {
            assert(ab_node(s, h, t0, mask, moves@, window_alpha@, window_beta@, d, sd, v@, t0));
            lemma_ab_rel_intro(s, h, t0, mask, moves@, window_alpha@, window_beta@, d, sd, v@, t0);
        }
        return (v, false);
    }
    let ordered = reorder_moves(&moves, table_move);
    let ghost bm0 = best_move;
    let mut stopped = false;
    proof {
        assert forall|r: int, t2: Seq<Option<(u64, Entry)>>|
            #[trigger] ab_loop(s, h, t0, mask, ordered@, 0, a1, b1, orig_alpha@, i16::MIN + 1, bm0, d, sd, r, t2)
            implies ab_rel(s, h, t0, mask, window_alpha@, window_beta@, d, sd, r, t2) by {
            assert(ab_node(s, h, t0, mask, moves@, window_alpha@, window_beta@, d, sd, r, t2));
            lemma_ab_rel_intro(s, h, t0, mask, moves@, window_alpha@, window_beta@, d, sd, r, t2);
        }
    }
    let mut i: usize = 0;
    while i < ordered.len()
        invariant
            ctx.move_gen.wf(),
            restored(p0, *position),
            p0 == *old(position),
            p0.wf(),
            tt.wf(),
            tt.spec_mask() == mask,
            mask == old(tt).spec_mask(),
            t0 == old(tt).spec_data(),
            s == p0@,
            h == p0.spec_history(),
            d == depth_left as nat,
            sd == params.start_depth as int,
            0 < depth_left < params.start_depth,
            params.start_depth == old(params).start_depth,
            list_ok(moves@, p0@, false),
            generated(s, moves@, false),
            ordered@ == reordered(moves@, table_move),
            forall|j: int| 0 <= j < ordered@.len() ==> moves@.contains(#[trigger] ordered@[j]),
            i <= ordered@.len(),
            orig_alpha == window_alpha,
            sane(p0@) ==> has_legal_move(p0@) && !is_draw_spec(p0@, p0.spec_history(), p0.spec_zobrist()),
            !stopped ==> forall|r: int, t2: Seq<Option<(u64, Entry)>>|
                #[trigger] ab_loop(s, h, tt.spec_data(), mask, ordered@, i as nat, alpha@, beta@, orig_alpha@, best_score@, best_move, d, sd, r, t2)
                    ==> ab_loop(s, h, t0, mask, ordered@, 0, a1, b1, orig_alpha@, i16::MIN + 1, bm0, d, sd, r, t2),
            !stopped ==> forall|r: int, t2: Seq<Option<(u64, Entry)>>|
                #[trigger] ab_loop(s, h, t0, mask, ordered@, 0, a1, b1, orig_alpha@, i16::MIN + 1, bm0, d, sd, r, t2)
                    ==> ab_rel(s, h, t0, mask, window_alpha@, window_beta@, d, sd, r, t2),
            beta@ == b1,
        decreases ordered@.len() - i,
    {
        let mv = ordered[i];
        proof {
            assert(moves@.contains(ordered@[i as int]));
            let j = choose|j: int| 0 <= j < moves@.len() && moves@[j] == mv;
            assert(legal_shape(p0@, moves@[j]));
        }
        let ghost p_before = *position;
        let ghost t_cur = tt.spec_data();
        let ghost a_cur = alpha@;
        let ghost best_cur = best_score@;
        let ghost bm_cur = best_move;
        position.make_move(mv);
        let ghost p1 = *position;
        params.nodes = params.nodes.saturating_add(1);
        let (child, child_stopped) = alpha_beta(ctx, position, tt, params, beta.neg(), alpha.neg(), depth_left - 1);
        let score = child.neg();
        let ghost v = child@;
        let ghost t1 = tt.spec_data();
        stopped = stopped || child_stopped;
        let ghost p2 = *position;
        position.unmake_move();
        proof {
            lemma_make_unmake(p_before, p1, p2, *position, mv);
        }
        if best_score.lt(score) {
            best_score = score;
            best_move = mv;
            if alpha.lt(score) {
                alpha = best_score;
            }
        }
        if beta.le(alpha) {
            let entry = Entry::new(alpha, best_move, Bound::Lower, depth_left);
            proof {
                Value::lemma_spec_of(alpha);
                assert(entry == stored(alpha@, best_move, Bound::Lower, d));
            }
            tt.insert(position, entry);
            proof {
                if !stopped {
                    lemma_ab_loop_step(s, h, t_cur, mask, ordered@, i as nat, a_cur, beta@, orig_alpha@, best_cur, bm_cur, d, sd, alpha@, tt.spec_data(), v, t1);
                }
            }
            return (alpha, stopped);
        }
        proof {
            if !stopped {
                assert forall|r: int, t2: Seq<Option<(u64, Entry)>>|
                    #[trigger] ab_loop(s, h, tt.spec_data(), mask, ordered@, (i + 1) as nat, alpha@, beta@, orig_alpha@, best_score@, best_move, d, sd, r, t2)
                    implies ab_loop(s, h, t0, mask, ordered@, 0, a1, b1, orig_alpha@, i16::MIN + 1, bm0, d, sd, r, t2) by {
                    lemma_ab_loop_step(s, h, t_cur, mask, ordered@, i as nat, a_cur, beta@, orig_alpha@, best_cur, bm_cur, d, sd, r, t2, v, t1);
                    assert(ab_loop(s, h, t_cur, mask, ordered@, i as nat, a_cur, beta@, orig_alpha@, best_cur, bm_cur, d, sd, r, t2));
                }
            }
        }
        i = i + 1;
    }
    let bound = if best_score.lt(orig_alpha) {
        Bound::Upper
    } else {
        Bound::Exact
    };
    let entry = Entry::new(best_score, best_move, bound, depth_left);
    proof {
        Value::lemma_spec_of(best_score);
        assert(entry == stored(best_score@, best_move, bound, d));
    }
    let ghost t_end = tt.spec_data();
    tt.insert(position, entry);
    proof {
        if !stopped {
            assert(ab_loop(s, h, t_end, mask, ordered@, i as nat, alpha@, beta@, orig_alpha@, best_score@, best_move, d, sd, best_score@, tt.spec_data()));
        }
    }
    (best_score, stopped)
}

/// The pseudo move `pm` designates a legal move of `s`.
pub open spec fn designates_legal(s: PositionState, pm: PseudoMove) -> bool {
    exists|m: Move| legal_move(s, m) && #[trigger] pm.designates(m)
}

/// Some move is legal in `s`.
pub open spec fn has_legal_move(s: PositionState) -> bool {
    exists|m: Move| #[trigger] legal_move(s, m)
}

/// The position reached from `s` by making the moves of `line` one after the other.
pub open spec fn after(s: PositionState, line: Seq<Move>) -> PositionState
    decreases line.len(),
{
    if line.len() == 0 {
        s
    } else {
        make_spec(after(s, line.drop_last()), line.last())
    }
}

/// The moves of `line` can be made one after the other from `s` (see `applicable`).
pub open spec fn plays(s: PositionState, line: Seq<Move>) -> bool
    decreases line.len(),
{
    line.len() == 0 || (plays(s, line.drop_last()) && applicable(after(s, line.drop_last()), line.last()))
}

/// The line that the best moves stored in the table (`data`, `mask`) give from `s`: at
/// most `n` moves, ending where the table holds no entry for the position reached or its
/// move cannot be made there.
pub open spec fn stored_line(data: Seq<Option<(u64, Entry)>>, mask: usize, s: PositionState, n: nat) -> Seq<Move>
    decreases n,
{
    if n == 0 {
        Seq::empty()
    } else {
        match lookup(data, mask, state_hash(s)) {
            Some(e) => if applicable(s, e.best_move) {
                seq![e.best_move] + stored_line(data, mask, make_spec(s, e.best_move), (n - 1) as nat)
            } else {
                Seq::empty()
            },
            None => Seq::empty(),
        }
    }
}

/// The moves of the principal variation stored in the transposition table, from the
/// position on, at most `max_len` of them, each one that can be made; the position is left
/// as it was.
fn principal_variation(position: &mut Position, tt: &TranspositionTable, max_len: u8) -> (r: Vec<Move>)
    requires
        old(position).wf(),
        tt.wf(),
    ensures
        restored(*old(position), *final(position)),
        r@.len() <= max_len,
        plays(old(position)@, r@),
        r@ == stored_line(tt.spec_data(), tt.spec_mask(), old(position)@, max_len as nat),
{
    let ghost p0 = *position;
    let ghost h0 = p0.spec_history();
    let ghost st0 = p0.spec_states();
    proof {
        p0.lemma_wf();
    }
    let mut line: Vec<Move> = Vec::new();
    loop
        invariant
            position.wf(),
            tt.wf(),
            p0.wf(),
            h0 == p0.spec_history(),
            st0 == p0.spec_states(),
            line@.len() <= max_len,
            st0.len() == h0.len() + 1,
            position.spec_history().len() == h0.len() + line@.len(),
            position.spec_history().subrange(0, h0.len() as int) == h0,
            position.spec_states().subrange(0, st0.len() as int) == st0,
            plays(p0@, line@),
            position@ == after(p0@, line@),
            line@ + stored_line(tt.spec_data(), tt.spec_mask(), position@, (max_len - line@.len()) as nat) == stored_line(
                tt.spec_data(),
                tt.spec_mask(),
                p0@,
                max_len as nat,
            ),
        ensures
            line@ == stored_line(tt.spec_data(), tt.spec_mask(), p0@, max_len as nat),
        decreases max_len - line@.len(),
    {
        let ghost rest = stored_line(tt.spec_data(), tt.spec_mask(), position@, (max_len - line@.len()) as nat);
        if line.len() >= max_len as usize {
            proof {
                assert(rest =~= Seq::<Move>::empty());
                assert(line@ + rest =~= line@);
            }
            break;
        }
        let mv = match tt.get(position) {
            Some(entry) => entry.best_move,
            None => {
                proof {
                    assert(rest =~= Seq::<Move>::empty());
                    assert(line@ + rest =~= line@);
                }
                break;
            },
        };
        if !position.can_make(mv) {
            proof {
                assert(rest =~= Seq::<Move>::empty());
                assert(line@ + rest =~= line@);
            }
            break;
        }
        proof {
            position.lemma_wf();
        }
        let ghost hb = position.spec_history();
        let ghost sb = position.spec_states();
        let ghost l0 = line@;
        let ghost pb = position@;
        line.push(mv);
        position.make_move(mv);
        proof {
            let rest = stored_line(tt.spec_data(), tt.spec_mask(), position@, (max_len - line@.len()) as nat);
            assert(stored_line(tt.spec_data(), tt.spec_mask(), pb, (max_len - l0.len()) as nat) == seq![mv] + rest);
            assert(l0 + (seq![mv] + rest) =~= line@ + rest);
            assert(line@.drop_last() =~= l0);
            assert(line@.last() == mv);
            assert(position.spec_history().subrange(0, h0.len() as int) =~= hb.subrange(0, h0.len() as int));
            assert(position.spec_states().subrange(0, st0.len() as int) =~= sb.subrange(0, st0.len() as int));
        }
    }
    let mut k: usize = line.len();
    while k > 0
        invariant
            plays(p0@, line@),
            position.wf(),
            p0.wf(),
            h0 == p0.spec_history(),
            st0 == p0.spec_states(),
            st0.len() == h0.len() + 1,
            position.spec_history().len() == h0.len() + k,
            position.spec_history().subrange(0, h0.len() as int) == h0,
            position.spec_states().subrange(0, st0.len() as int) == st0,
        decreases k,
    {
        let ghost hb = position.spec_history();
        let ghost sb = position.spec_states();
        proof {
            position.lemma_wf();
        }
        position.unmake_move();
        proof {
            position.lemma_wf();
            assert(position.spec_history().subrange(0, h0.len() as int) =~= hb.subrange(0, h0.len() as int));
            assert(position.spec_states().subrange(0, st0.len() as int) =~= sb.subrange(0, st0.len() as int));
        }
        k = k - 1;
    }
    proof {
        position.lemma_wf();
        p0.lemma_wf();
        assert(position.spec_history() =~= h0);
        assert(position.spec_states() =~= st0);
    }
    line
}

/// How full the table is, in thousandths.
fn hash_full(tt: &TranspositionTable) -> (r: u32)
    requires
        tt.wf(),
    ensures
        r * tt.spec_data().len() <= crate::transposition_table::filled(tt.spec_data()) * 1000 < (r + 1) * tt.spec_data().len(),
        r <= 1000,
{
    let len = tt.len() as u128;
    let cap = tt.capacity() as u128;
    let q = len * 1000 / cap;
    assert(q <= 1000 && q * cap <= len * 1000 < (q + 1) * cap) by (nonlinear_arith)
        requires
            len <= cap,
            cap >= 1,
            q as int == (len as int * 1000) / (cap as int),
    ;
    q as u32
}

/// A search of a position, with its limits.
pub struct Search<'a> {
    search_moves: Option<Vec<Move>>,
    search_depth: Option<u8>,
    search_nodes: Option<u64>,
    search_time: Option<Duration>,
    position: Position,
    move_gen: &'a MoveGen,
    eval: MaterialEval,
}

impl<'a> Search<'a> {
    /// The position is consistent, the tables are right, and the moves to search, if given,
    /// can be made in the position.
    pub closed spec fn wf(&self) -> bool {
        &&& self.position.wf()
        &&& self.move_gen.wf()
        &&& (self.search_moves matches Some(v) ==> forall|i: int| 0 <= i < v@.len() ==> legal_shape(self.position@, #[trigger] v@[i]))
    }

    /// The position searched.
    pub closed spec fn spec_position(&self) -> Position {
        self.position
    }

    /// The depth limit, if any.
    pub closed spec fn spec_depth(&self) -> Option<u8> {
        self.search_depth
    }

    /// The node limit, if any.
    pub closed spec fn spec_nodes(&self) -> Option<u64> {
        self.search_nodes
    }

    /// The moves to search, if they are given.
    pub closed spec fn spec_moves(&self) -> Option<Seq<Move>> {
        match self.search_moves {
            Some(v) => Some(v@),
            None => None,
        }
    }

    /// A search of `position` without limits.
    pub fn new(position: Position, move_gen: &'a MoveGen, eval: MaterialEval) -> (r: Search<'a>)
        requires
            position.wf(),
            move_gen.wf(),
        ensures
            r.wf(),
            r.spec_position() == position,
            r.spec_depth() is None,
            r.spec_nodes() is None,
            r.spec_moves() is None,
    {
        Search {
            search_moves: None,
            search_depth: None,
            search_nodes: None,
            search_time: None,
            position,
            move_gen,
            eval,
        }
    }

    /// Searches only the moves that `moves` designate among the moves of the position; an
    /// error if one of them designates none.
    pub fn moves(self, moves: &[PseudoMove]) -> (r: Result<Search<'a>, String>)
        requires
            self.wf(),
        ensures
            r is Ok ==> r->Ok_0.wf(),
            r is Ok ==> r->Ok_0.spec_position() == self.spec_position() && r->Ok_0.spec_depth()
                == self.spec_depth() && r->Ok_0.spec_nodes() == self.spec_nodes(),
            r is Ok ==> r->Ok_0.spec_moves() is Some && r->Ok_0.spec_moves()->0.len() == moves@.len(),
            r is Ok ==> forall|i: int|
                0 <= i < moves@.len() ==> moves@[i].designates(#[trigger] r->Ok_0.spec_moves()->0[i]),
            r is Ok && sane(self.spec_position()@) ==> forall|i: int|
                0 <= i < moves@.len() ==> legal_move(self.spec_position()@, #[trigger] r->Ok_0.spec_moves()->0[i]),
            r is Err ==> exists|i: int|
                0 <= i < moves@.len() && r->Err_0@ == "Illegal move '"@ + square_text(moves@[i].from) + square_text(
                    moves@[i].to,
                ) + "'"@,
            sane(self.spec_position()@) && legal_moves(self.spec_position()@).finite() && legal_moves(
                self.spec_position()@,
            ).len() < 256 ==> (r is Ok <==> forall|i: int|
                0 <= i < moves@.len() ==> designates_legal(self.spec_position()@, #[trigger] moves@[i])),
    {
        let ghost s = self.position@;
        let generated = self.move_gen.gen_all_moves(&self.position);
        let legal = generated.as_slice();
        let ghost full = sane(s) && legal_moves(s).finite() && legal_moves(s).len() < 256;
        proof {
            if full {
                lemma_generated_are_legal(s, generated@);
            }
        }
        let mut search_moves: Vec<Move> = Vec::new();
        let mut i: usize = 0;
        while i < moves.len()
            invariant
                i <= moves@.len(),
                search_moves@.len() == i,
                legal@ == generated@,
                s == self.position@,
                list_ok(generated@, s, false),
                sane(s) ==> forall|j: int| 0 <= j < generated@.len() ==> legal_move(s, #[trigger] generated@[j]),
                full == (sane(s) && legal_moves(s).finite() && legal_moves(s).len() < 256),
                full ==> generated@.to_set() == legal_moves(s),
                forall|j: int| 0 <= j < i ==> legal_shape(s, #[trigger] search_moves@[j]),
                forall|j: int| 0 <= j < i ==> moves@[j].designates(#[trigger] search_moves@[j]),
                sane(s) ==> forall|j: int| 0 <= j < i ==> legal_move(s, #[trigger] search_moves@[j]),
            decreases moves@.len() - i,
        {
            match moves[i].into_move(legal) {
                Ok(mv) => {
                    proof {
                        let k = choose|k: int| 0 <= k < legal@.len() && legal@[k] == mv && forall|j: int|
                            0 <= j < k ==> !moves@[i as int].designates(#[trigger] legal@[j]);
                        assert(legal_shape(s, generated@[k]));
                    }
                    search_moves.push(mv);
                },
                Err(e) => {
                    proof {
                        if full {
                            assert forall|m: Move| legal_move(s, m) implies !moves@[i as int].designates(m) by {
                                assert(legal_moves(s).contains(m));
                                assert(generated@.to_set().contains(m));
                                let k = choose|k: int| 0 <= k < generated@.len() && generated@[k] == m;
                                assert(!moves@[i as int].designates(legal@[k]));
                            }
                        }
                    }
                    return Err(e);
                },
            }
            i = i + 1;
        }
        proof {
            if sane(s) {
                assert forall|j: int| 0 <= j < moves@.len() implies designates_legal(s, #[trigger] moves@[j]) by {
                    assert(legal_move(s, search_moves@[j]));
                    assert(moves@[j].designates(search_moves@[j]));
                }
            }
        }
        Ok(Search { search_moves: Some(search_moves), ..self })
    }

    /// Searches to at most `depth` plies.
    pub fn depth(self, depth: u8) -> (r: Search<'a>)
        requires
            self.wf(),
        ensures
            r.wf(),
            r.spec_position() == self.spec_position(),
            r.spec_depth() == Some(depth),
            r.spec_nodes() == self.spec_nodes(),
            r.spec_moves() == self.spec_moves(),
    {
        Search { search_depth: Some(depth), ..self }
    }

    /// Stops the search once `time` has passed.
    pub fn time(self, time: Duration) -> (r: Search<'a>)
        requires
            self.wf(),
        ensures
            r.wf(),
            r.spec_position() == self.spec_position(),
            r.spec_depth() == self.spec_depth(),
            r.spec_nodes() == self.spec_nodes(),
            r.spec_moves() == self.spec_moves(),
    {
        Search { search_time: Some(time), ..self }
    }

    /// Stops the search once `nodes` nodes have been searched in an iteration.
    pub fn nodes(self, nodes: u64) -> (r: Search<'a>)
        requires
            self.wf(),
        ensures
            r.wf(),
            r.spec_position() == self.spec_position(),
            r.spec_depth() == self.spec_depth(),
            r.spec_nodes() == Some(nodes),
            r.spec_moves() == self.spec_moves(),
    {
        Search { search_nodes: Some(nodes), ..self }
    }

    /// Searches with iterative deepening, one depth after the other up to the depth limit,
    /// until the search must stop (the flag `stop_search` is set, the time is up or the
    /// node limit is reached): the result of each depth completed, in order.
    pub fn start(self, trans_table: &mut TranspositionTable, stop_search: &AtomicBool) -> (r: Vec<SearchResult>)
        requires
            self.wf(),
            old(trans_table).wf(),
        ensures
            final(trans_table).wf(),
            r@.len() <= match self.spec_depth() {
                Some(d) => d as int,
                None => 255,
            },
            forall|i: int| 0 <= i < r@.len() ==> (#[trigger] r@[i]).depth == i + 1 && r@[i].line@.len() <= i + 1,
            forall|i: int| 0 <= i < r@.len() ==> plays(self.spec_position()@, (#[trigger] r@[i]).line@),
            (match self.spec_moves() {
                Some(v) => v.len() == 0,
                None => sane(self.spec_position()@) && !has_legal_move(self.spec_position()@),
            }) ==> r@.len() == 0,
            final(trans_table).spec_mask() == old(trans_table).spec_mask(),
            exists|ts: Seq<Seq<Option<(u64, Entry)>>>, mss: Seq<Seq<Move>>|
                #[trigger] a_chain(ts, mss) && run_chain(
                    self.spec_position()@,
                    self.spec_position().spec_history(),
                    old(trans_table).spec_mask(),
                    ts,
                    mss,
                    r@,
                ) && ts[0] == old(trans_table).spec_data() && match self.spec_moves() {
                    Some(v) => mss[0] == v,
                    None => generated(self.spec_position()@, mss[0], false),
                },
    {
        let search_start = now();
        let ghost mask = trans_table.spec_mask();
        let ghost sd = self.spec_depth();
        let Search { search_moves, search_depth, search_nodes, search_time, position, move_gen, eval } = self;
        let mut position = position;
        let ctx = SearchCtx { move_gen, eval, stop_search, search_start, search_time, search_nodes };
        let mut results: Vec<SearchResult> = Vec::new();
        let mut moves = match search_moves {
            Some(v) => v,
            None => move_gen.gen_all_moves(&position).into_vec(),
        };
        proof {
            if search_moves is None && sane(position@) && moves@.len() > 0 {
                assert(legal_move(position@, moves@[0]));
            }
        }
        let ghost mut ts = seq![trans_table.spec_data()];
        let ghost mut mss = seq![moves@];
        let ghost start_moves_ok = match self.spec_moves() {
            Some(v) => moves@ == v,
            None => generated(position@, moves@, false),
        };
        proof {
            assert(start_moves_ok);
            assert(a_chain(ts, mss));
        }
        if moves.len() == 0 {
            return results;
        }
        let max_depth: u8 = match search_depth {
            Some(d) => d,
            None => 255,
        };
        let ghost p0 = position;
        let mut depth: u8 = 0;
        while depth < max_depth
            invariant
                restored(p0, position),
                p0.wf(),
                trans_table.wf(),
                ctx.move_gen.wf(),
                moves@.len() > 0,
                forall|j: int| 0 <= j < moves@.len() ==> legal_shape(p0@, #[trigger] moves@[j]),
                sd == search_depth,
                sd == self.spec_depth(),
                results@.len() == depth,
                depth <= max_depth,
                max_depth == match search_depth {
                    Some(d) => d,
                    None => 255u8,
                },
                forall|j: int| 0 <= j < results@.len() ==> (#[trigger] results@[j]).depth == j + 1 && results@[j].line@.len() <= j + 1,
                forall|j: int| 0 <= j < results@.len() ==> plays(p0@, (#[trigger] results@[j]).line@),
                p0 == self.spec_position(),
                !(match self.spec_moves() {
                    Some(v) => v.len() == 0,
                    None => sane(p0@) && !has_legal_move(p0@),
                }),
                trans_table.spec_mask() == mask,
                mask == old(trans_table).spec_mask(),
                run_chain(p0@, p0.spec_history(), mask, ts, mss, results@),
                ts[0] == old(trans_table).spec_data(),
                start_moves_ok == match self.spec_moves() {
                    Some(v) => mss[0] == v,
                    None => generated(p0@, mss[0], false),
                },
                start_moves_ok,
                ts.last() == trans_table.spec_data(),
                mss.last() == moves@,
            decreases max_depth - depth,
        {
            let depth_start = now();
            let mut params = SearchParams { nodes: 0, sel_depth: depth, start_depth: depth + 1 };
            let mut max_score = Value::from_neg_inf(0);
            let ghost t_start = trans_table.spec_data();
            let ghost ms_prev = moves@;
            let table_move = match trans_table.get(&position) {
                Some(entry) => Some(entry.best_move),
                None => None,
            };
            let mut best_move = match table_move {
                Some(mv) => mv,
                None => moves[0],
            };
            let ordered = reorder_moves(&moves, table_move);
            proof {
                assert forall|j: int| 0 <= j < ordered@.len() implies legal_shape(p0@, #[trigger] ordered@[j]) by {
                    assert(moves@.contains(ordered@[j]));
                }
            }
            moves = ordered;
            let ghost bm0 = best_move;
            proof {
                assert(root_iter(p0@, p0.spec_history(), t_start, mask, ms_prev, depth as nat, 0, t_start) == root_loop(
                    p0@,
                    p0.spec_history(),
                    t_start,
                    mask,
                    moves@,
                    0,
                    i16::MIN + 1,
                    bm0,
                    depth as nat,
                    0,
                    t_start,
                ));
            }
            let mut i: usize = 0;
            while i < moves.len()
                invariant
                    restored(p0, position),
                    p0.wf(),
                    trans_table.wf(),
                    ctx.move_gen.wf(),
                    params.start_depth == depth + 1,
                    sd == search_depth,
                    sd == self.spec_depth(),
                    results@.len() == depth,
                    depth < max_depth,
                    max_depth == match search_depth {
                        Some(d) => d,
                        None => 255u8,
                    },
                    forall|j: int| 0 <= j < results@.len() ==> (#[trigger] results@[j]).depth == j + 1 && results@[j].line@.len() <= j + 1,
                    forall|j: int| 0 <= j < results@.len() ==> plays(p0@, (#[trigger] results@[j]).line@),
                    p0 == self.spec_position(),
                    !(match self.spec_moves() {
                        Some(v) => v.len() == 0,
                        None => sane(p0@) && !has_legal_move(p0@),
                    }),
                    moves@.len() > 0,
                    forall|j: int| 0 <= j < moves@.len() ==> legal_shape(p0@, #[trigger] moves@[j]),
                    i <= moves@.len(),
                    trans_table.spec_mask() == mask,
                    mask == old(trans_table).spec_mask(),
                    run_chain(p0@, p0.spec_history(), mask, ts, mss, results@),
                ts[0] == old(trans_table).spec_data(),
                start_moves_ok == match self.spec_moves() {
                    Some(v) => mss[0] == v,
                    None => generated(p0@, mss[0], false),
                },
                start_moves_ok,
                ts.last() == t_start,
                mss.last() == ms_prev,
                    ms_prev.len() > 0,
                    forall|r: int, t2: Seq<Option<(u64, Entry)>>|
                        #[trigger] root_loop(p0@, p0.spec_history(), trans_table.spec_data(), mask, moves@, i as nat, max_score@, best_move, depth as nat, r, t2)
                            ==> root_loop(p0@, p0.spec_history(), t_start, mask, moves@, 0, i16::MIN + 1, bm0, depth as nat, r, t2),
                    forall|r: int, t2: Seq<Option<(u64, Entry)>>|
                        #[trigger] root_loop(p0@, p0.spec_history(), t_start, mask, moves@, 0, i16::MIN + 1, bm0, depth as nat, r, t2)
                            ==> root_iter(p0@, p0.spec_history(), t_start, mask, ms_prev, depth as nat, r, t2),
                decreases moves@.len() - i,
            {
                if should_stop(&ctx, params.nodes) {
                    proof {
                        assert(a_chain(ts, mss));
                    }
                    return results;
                }
                let mv = moves[i];
                let ghost p_before = position;
                let ghost t_cur = trans_table.spec_data();
                let ghost max_cur = max_score@;
                let ghost bm_cur = best_move;
                position.make_move(mv);
                let ghost p1 = position;
                params.nodes = params.nodes.saturating_add(1);
                let (child, child_stopped) = alpha_beta(&ctx, &mut position, trans_table, &mut params, Value::from_neg_inf(0), max_score.neg(), depth);
                let score = child.neg();
                let ghost v = child@;
                let ghost t1 = trans_table.spec_data();
                let ghost p2 = position;
                position.unmake_move();
                proof {
                    lemma_make_unmake(p_before, p1, p2, position, mv);
                }
                // An iteration whose search was cut short is not reported.
                if child_stopped {
                    proof {
                        assert(a_chain(ts, mss));
                    }
                    return results;
                }
                if max_score.lt(score) {
                    max_score = score;
                    best_move = mv;
                    let entry = Entry::new(max_score, best_move, Bound::Upper, depth + 1);
                    proof {
                        Value::lemma_spec_of(max_score);
                        assert(entry == stored(-v, mv, Bound::Upper, (depth + 1) as nat));
                    }
                    trans_table.insert(&position, entry);
                }
                proof {
                    assert forall|r: int, t2: Seq<Option<(u64, Entry)>>|
                        #[trigger] root_loop(p0@, p0.spec_history(), trans_table.spec_data(), mask, moves@, (i + 1) as nat, max_score@, best_move, depth as nat, r, t2)
                        implies root_loop(p0@, p0.spec_history(), t_start, mask, moves@, 0, i16::MIN + 1, bm0, depth as nat, r, t2) by {
                        lemma_root_loop_step(p0@, p0.spec_history(), t_cur, mask, moves@, i as nat, max_cur, bm_cur, depth as nat, r, t2, v, t1);
                        assert(root_loop(p0@, p0.spec_history(), t_cur, mask, moves@, i as nat, max_cur, bm_cur, depth as nat, r, t2));
                    }
                }
                i = i + 1;
                proof {
                    let ii: nat = i as nat;
                    assert(ii == (i - 1) + 1);
                    assert forall|r: int, t2: Seq<Option<(u64, Entry)>>|
                        #[trigger] root_loop(p0@, p0.spec_history(), trans_table.spec_data(), mask, moves@, i as nat, max_score@, best_move, depth as nat, r, t2)
                        implies root_loop(p0@, p0.spec_history(), t_start, mask, moves@, 0, i16::MIN + 1, bm0, depth as nat, r, t2) by {
                        assert(root_loop(p0@, p0.spec_history(), trans_table.spec_data(), mask, moves@, ((i - 1) + 1) as nat, max_score@, best_move, depth as nat, r, t2));
                    }
                }
            }
            let entry = Entry::new(max_score, best_move, Bound::Exact, depth + 1);
            proof {
                Value::lemma_spec_of(max_score);
                assert(entry == stored(max_score@, best_move, Bound::Exact, (depth + 1) as nat));
            }
            let ghost t_last = trans_table.spec_data();
            trans_table.insert(&position, entry);
            let ghost t_done = trans_table.spec_data();
            proof {
                assert(root_loop(p0@, p0.spec_history(), t_last, mask, moves@, i as nat, max_score@, best_move, depth as nat, max_score@, t_done));
                assert(root_iter(p0@, p0.spec_history(), t_start, mask, ms_prev, depth as nat, max_score@, t_done));
            }
            let line = principal_variation(&mut position, trans_table, depth + 1);
            let full = hash_full(trans_table);
            let nps = nodes_per_second(params.nodes, as_nanos(&elapsed(&depth_start)));
            let result = SearchResult::new(
                max_score,
                line,
                depth + 1,
                params.sel_depth,
                params.nodes,
                nps,
                elapsed(&ctx.search_start),
                full,
            );
            let ghost r0 = results@;
            results.push(result);
            proof {
                assert(a_run(ms_prev, t_start, t_done));
                assert(table_move == table_move_of(t_start, mask, p0@));
                assert(iteration_ok(p0@, p0.spec_history(), mask, ts.push(t_done), mss.push(moves@), results@, r0.len() as int));
                lemma_chain_push(p0@, p0.spec_history(), mask, ts, mss, r0, t_done, moves@, result);
                ts = ts.push(t_done);
                mss = mss.push(moves@);
            }
            depth = depth + 1;
        }
        proof {
            assert(a_chain(ts, mss));
        }
        results
    }
}
} // verus!
