use vstd::prelude::*;

use std::sync::atomic::AtomicBool;
use std::time::Duration;

use crate::eval::MaterialEval;
use crate::fen::{parse_fen_spec, FenParseError};
use crate::legal::{legal_move, sane};
use crate::move_gen::{lemma_generated_are_legal, legal_moves, legal_shape, list_ok, no_dup, MoveGen};
use crate::moves::{move_text, square_text, Move, MoveList};
use crate::position::{make_spec, starting_state, unmake_spec, Position, PositionState, Unmake};
use crate::moves::PseudoMove;
use crate::search::{a_chain, designates_legal, generated, has_legal_move, plays, restored, run_chain, Search, SearchResult};
use crate::transposition_table::{Entry, TranspositionTable};

verus! {

/// The operation is not supported.
#[derive(Clone, Copy, Debug, PartialEq, Eq, Structural)]
pub struct NotSupportedError;

/// The legal moves of `s` listed once each, in some order.
pub open spec fn moves_of(s: PositionState) -> Seq<Move> {
    choose|l: Seq<Move>| no_dup(l) && l.to_set() == legal_moves(s)
}

/// The number of sequences of `d` legal moves from `s`.
pub open spec fn perft_spec(s: PositionState, d: nat) -> int
    decreases d, 0nat,
{
    if d == 0 {
        1
    } else {
        perft_sum(s, moves_of(s), (d - 1) as nat)
    }
}

/// The sum over the moves `m` of `l` of the number of sequences of `d` legal moves from the
/// position after `m`.
pub open spec fn perft_sum(s: PositionState, l: Seq<Move>, d: nat) -> int
    decreases d, l.len() + 1,
{
    if l.len() == 0 {
        0
    } else {
        perft_sum(s, l.drop_last(), d) + perft_spec(make_spec(s, l.last()), d)
    }
}

/// Up to `d` moves deep from `s`, every position that legal play reaches is one that play
/// reaches from the start (see `sane`) and has fewer than 256 legal moves.
pub open spec fn perft_ok(s: PositionState, d: nat) -> bool
    decreases d,
{
    d == 0 || (sane(s) && legal_moves(s).finite() && legal_moves(s).len() < 256 && forall|m: Move|
        #[trigger] legal_move(s, m) ==> perft_ok(make_spec(s, m), (d - 1) as nat))
}

/// Taking the move at `i` out of `l` takes its term out of the sum.
proof fn lemma_perft_sum_remove(s: PositionState, l: Seq<Move>, i: int, d: nat)
    requires
        0 <= i < l.len(),
    ensures
        perft_sum(s, l, d) == perft_sum(s, l.remove(i), d) + perft_spec(make_spec(s, l[i]), d),
    decreases l.len(),
{
    if i == l.len() - 1 {
        assert(l.remove(i) =~= l.drop_last());
    } else {
        lemma_perft_sum_remove(s, l.drop_last(), i, d);
        assert(l.remove(i).drop_last() =~= l.drop_last().remove(i));
        assert(l.remove(i).last() == l.last());
    }
}

/// Two lists of the same moves, each listing a move once, give the same sum.
proof fn lemma_perft_sum_perm(s: PositionState, l1: Seq<Move>, l2: Seq<Move>, d: nat)
    requires
        no_dup(l1),
        no_dup(l2),
        l1.to_set() == l2.to_set(),
    ensures
        perft_sum(s, l1, d) == perft_sum(s, l2, d),
    decreases l1.len(),
{
    if l1.len() == 0 {
        if l2.len() > 0 {
            assert(l2.to_set().contains(l2[0]));
        }
    } else {
        let x = l1.last();
        assert(l1.to_set().contains(x));
        assert(l2.contains(x));
        let i = choose|i: int| 0 <= i < l2.len() && l2[i] == x;
        lemma_perft_sum_remove(s, l2, i, d);
        let r1 = l1.drop_last();
        let r2 = l2.remove(i);
        assert forall|a: int, b: int| 0 <= a < b < r2.len() implies r2[a] != r2[b] by {
            let a2 = if a < i { a } else { a + 1 };
            let b2 = if b < i { b } else { b + 1 };
            assert(r2[a] == l2[a2] && r2[b] == l2[b2]);
        }
        assert forall|y: Move| r1.to_set().contains(y) <==> r2.to_set().contains(y) by {
            if r1.contains(y) {
                let j = choose|j: int| 0 <= j < r1.len() && r1[j] == y;
                assert(l1[j] == y);
                assert(l1.to_set().contains(y));
                assert(l2.contains(y));
                let k = choose|k: int| 0 <= k < l2.len() && l2[k] == y;
                assert(k != i);
                if k < i {
                    assert(r2[k] == y);
                } else {
                    assert(r2[k - 1] == y);
                }
            }
            if r2.contains(y) {
                let k = choose|k: int| 0 <= k < r2.len() && r2[k] == y;
                let k2 = if k < i { k } else { k + 1 };
                assert(l2[k2] == y);
                assert(l2.to_set().contains(y));
                assert(l1.contains(y));
                let j = choose|j: int| 0 <= j < l1.len() && l1[j] == y;
                assert(j != l1.len() - 1);
                assert(r1[j] == y);
            }
        }
        assert(r1.to_set() =~= r2.to_set());
        lemma_perft_sum_perm(s, r1, r2, d);
    }
}

/// With no move left to make, each move of `l` counts once.
proof fn lemma_perft_sum_ones(s: PositionState, l: Seq<Move>)
    ensures
        perft_sum(s, l, 0) == l.len(),
    decreases l.len(),
{
    if l.len() > 0 {
        lemma_perft_sum_ones(s, l.drop_last());
        assert(perft_spec(make_spec(s, l.last()), 0) == 1);
    }
}

/// A list of moves of `s` that is as `gen_all_moves` promises lists the legal moves of `s`
/// once each, and its sum counts the move sequences from `s`.
proof fn lemma_perft_list(s: PositionState, l: Seq<Move>, d: nat)
    requires
        perft_ok(s, d),
        d > 0,
        no_dup(l),
        sane(s) ==> forall|i: int| 0 <= i < l.len() ==> legal_move(s, #[trigger] l[i]),
        sane(s) && l.len() < 256 ==> forall|m: Move| #[trigger] legal_move(s, m) ==> l.contains(m),
    ensures
        l.to_set() == legal_moves(s),
        l.len() < 256,
        perft_spec(s, d) == perft_sum(s, l, (d - 1) as nat),
{
    lemma_generated_are_legal(s, l);
    let lc = moves_of(s);
    assert(no_dup(lc) && lc.to_set() == legal_moves(s));
    lemma_perft_sum_perm(s, lc, l, (d - 1) as nat);
}

/// The number of move sequences of `depth` moves from the position, counting the moves
/// that `move_gen` generates, modulo 2^64; the position is left as it was. Where every
/// position within `depth` moves is one that play reaches (see `perft_ok`), these are the
/// sequences of legal moves.
pub fn perft(position: &mut Position, move_gen: &MoveGen, depth: u32) -> (r: u64)
    requires
        old(position).wf(),
        move_gen.wf(),
    ensures
        restored(*old(position), *final(position)),
        depth == 0 ==> r == 1,
        perft_ok(old(position)@, depth as nat) ==> r == perft_spec(old(position)@, depth as nat) % 0x1_0000_0000_0000_0000,
    decreases depth,
{
    if depth == 0 {
        return 1;
    }
    let ghost s = position@;
    let moves = move_gen.gen_all_moves(position);
    proof {
        if perft_ok(s, depth as nat) {
            lemma_perft_list(s, moves@, depth as nat);
        }
    }
    if depth == 1 {
        proof {
            lemma_perft_sum_ones(s, moves@);
        }
        return moves.len() as u64;
    }
    let moves = moves.into_vec();
    let ghost p0 = *position;
    let mut count: u64 = 0;
    let mut i: usize = 0;
    while i < moves.len()
        invariant
            move_gen.wf(),
            p0 == *old(position),
            p0.wf(),
            s == p0@,
            restored(p0, *position),
            list_ok(moves@, p0@, false),
            i <= moves@.len(),
            depth >= 2,
            perft_ok(s, depth as nat) ==> perft_spec(s, depth as nat) == perft_sum(s, moves@, (depth - 1) as nat),
            perft_ok(s, depth as nat) ==> forall|j: int| 0 <= j < moves@.len() ==> legal_move(s, #[trigger] moves@[j]),
            perft_ok(s, depth as nat) ==> count == perft_sum(s, moves@.subrange(0, i as int), (depth - 1) as nat)
                % 0x1_0000_0000_0000_0000,
        decreases moves@.len() - i,
    {
        let mv = moves[i];
        proof {
            assert(legal_shape(p0@, moves@[i as int]));
        }
        let ghost p_before = *position;
        position.make_move(mv);
        let ghost p1 = *position;
        let sub = perft(position, move_gen, depth - 1);
        proof {
            if perft_ok(s, depth as nat) {
                assert(legal_move(s, mv));
                assert(perft_ok(make_spec(s, mv), (depth - 1) as nat));
                let d1 = (depth - 1) as nat;
                let pre = moves@.subrange(0, i as int);
                let post = moves@.subrange(0, i + 1);
                assert(post.drop_last() =~= pre);
                assert(post.last() == mv);
                let a = perft_sum(s, pre, d1);
                let b = perft_spec(make_spec(s, mv), d1);
                assert(perft_sum(s, post, d1) == a + b);
                vstd::arithmetic::div_mod::lemma_add_mod_noop(a, b, 0x1_0000_0000_0000_0000);
            }
        }
        count = count.wrapping_add(sub);
        let ghost p2 = *position;
        position.unmake_move();
        proof {
            crate::search::lemma_make_unmake(p_before, p1, p2, *position, mv);
        }
        i = i + 1;
    }
    proof {
        assert(moves@.subrange(0, moves@.len() as int) =~= moves@);
    }
    count
}

/// A game of chess: a position with its move generator and evaluation, and a table of the
/// positions searched.
pub struct Client {
    position: Option<Position>,
    move_gen: Option<MoveGen>,
    eval: Option<MaterialEval>,
    trans_table: TranspositionTable,
}

impl Client {
    /// The parts are consistent; once initialized, there is a position and a move generator.
    pub closed spec fn wf(&self) -> bool {
        &&& self.trans_table.wf()
        &&& (self.position matches Some(p) ==> p.wf())
        &&& (self.move_gen matches Some(g) ==> g.wf())
        &&& (self.move_gen is Some ==> self.position is Some)
    }

    /// Whether the client has been initialized.
    pub closed spec fn spec_init(&self) -> bool {
        self.move_gen is Some
    }

    /// The position of the game.
    pub closed spec fn spec_position(&self) -> Position {
        self.position->0
    }

    /// The table of the positions searched.
    pub closed spec fn spec_table(&self) -> TranspositionTable {
        self.trans_table
    }

    /// A client to be initialized.
    pub fn new() -> (r: Client)
        ensures
            r.wf(),
            !r.spec_init(),
    {
        Client { position: None, move_gen: None, eval: None, trans_table: TranspositionTable::new() }
    }

    /// Builds the tables and sets up the starting position.
    pub fn init(&mut self)
        requires
            old(self).wf(),
        ensures
            final(self).wf(),
            final(self).spec_init(),
            final(self).spec_position()@ == starting_state(),
            final(self).spec_position().spec_history() == Seq::<Unmake>::empty(),
    {
        self.position = Some(Position::new());
        self.move_gen = Some(MoveGen::create());
        self.eval = Some(MaterialEval::create());
    }

    /// Whether the client has been initialized.
    pub fn is_init(&self) -> (r: bool)
        ensures
            r == self.spec_init(),
    {
        self.move_gen.is_some()
    }

    /// Sets the position that `fen` describes; on an error the position stays as it was.
    pub fn set_position(&mut self, fen: &str) -> (r: Result<(), FenParseError>)
        requires
            old(self).wf(),
            old(self).spec_init(),
        ensures
            final(self).wf(),
            final(self).spec_init(),
            match parse_fen_spec(fen@) {
                Err(e) => r is Err && r->Err_0.message@ == e.spec_message() && final(self).spec_position()
                    == old(self).spec_position(),
                Ok(st) => r is Ok && final(self).spec_position()@ == st && final(self).spec_position().spec_history()
                    == Seq::<Unmake>::empty(),
            },
    {
        match Position::from_fen(fen) {
            Ok(p) => {
                self.position = Some(p);
                Ok(())
            },
            Err(e) => Err(e),
        }
    }

    /// The moves of the position (see `MoveGen::gen_all_moves`).
    pub fn get_moves(&self) -> (r: MoveList)
        requires
            self.wf(),
            self.spec_init(),
        ensures
            list_ok(r@, self.spec_position()@, false),
            sane(self.spec_position()@) ==> forall|i: int| 0 <= i < r@.len() ==> legal_move(self.spec_position()@, #[trigger] r@[i]),
            sane(self.spec_position()@) && r@.len() < 256 ==> forall|m: Move| #[trigger] legal_move(self.spec_position()@, m) ==> r@.contains(m),
            no_dup(r@),
    {
        match (&self.move_gen, &self.position) {
            (Some(g), Some(p)) => g.gen_all_moves(p),
            _ => MoveList::new(),
        }
    }

    /// Makes `mv` if it is one of the moves of the position; an error naming it otherwise.
    pub fn make_move(&mut self, mv: Move) -> (r: Result<(), String>)
        requires
            old(self).wf(),
            old(self).spec_init(),
        ensures
            final(self).wf(),
            final(self).spec_init(),
            r is Ok && sane(old(self).spec_position()@) ==> legal_move(old(self).spec_position()@, mv),
            r is Ok ==> legal_shape(old(self).spec_position()@, mv) && final(self).spec_position()@ == make_spec(
                old(self).spec_position()@,
                mv,
            ) && final(self).spec_position().spec_history() == old(self).spec_position().spec_history().push(
                crate::position::entry_spec(old(self).spec_position()@, mv),
            ),
            r is Err ==> final(self).spec_position() == old(self).spec_position() && r->Err_0@ == "Illegal move: "@
                + move_text(mv),
            sane(old(self).spec_position()@) && legal_moves(old(self).spec_position()@).finite() && legal_moves(
                old(self).spec_position()@,
            ).len() < 256 ==> (r is Ok <==> legal_move(old(self).spec_position()@, mv)),
    {
        let moves = self.get_moves();
        proof {
            let s = self.spec_position()@;
            if sane(s) && legal_moves(s).finite() && legal_moves(s).len() < 256 {
                lemma_generated_are_legal(s, moves@);
                if legal_move(s, mv) {
                    assert(legal_moves(s).contains(mv));
                    assert(moves@.to_set().contains(mv));
                }
            }
        }
        if moves.contains(mv) {
            match &mut self.position {
                Some(p) => {
                    p.make_move(mv);
                },
                None => {},
            }
            Ok(())
        } else {
            let mut message = String::from_str("Illegal move: ");
            message.append(mv.to_uci().as_str());
            Err(message)
        }
    }

    /// Takes back the last move; an error if no move was made.
    pub fn unmake_move(&mut self) -> (r: Result<(), String>)
        requires
            old(self).wf(),
            old(self).spec_init(),
        ensures
            final(self).wf(),
            final(self).spec_init(),
            r is Ok <==> old(self).spec_position().spec_history().len() > 0,
            r is Ok ==> final(self).spec_position()@ == unmake_spec(
                old(self).spec_position()@,
                old(self).spec_position().spec_history().last(),
            ) && final(self).spec_position().spec_history() == old(self).spec_position().spec_history().drop_last(),
            r is Err ==> final(self).spec_position() == old(self).spec_position() && r->Err_0@
                == "No move to unmake"@,
    {
        match &mut self.position {
            Some(p) => {
                if p.last_move().is_some() {
                    p.unmake_move();
                    Ok(())
                } else {
                    Err(String::from_str("No move to unmake"))
                }
            },
            None => Err(String::from_str("No move to unmake")),
        }
    }

    /// The number of move sequences of `depth` moves from the position (see `perft`).
    pub fn perft(&self, depth: u32) -> (r: u64)
        requires
            self.wf(),
            self.spec_init(),
        ensures
            depth == 0 ==> r == 1,
            perft_ok(self.spec_position()@, depth as nat) ==> r == perft_spec(self.spec_position()@, depth as nat)
                % 0x1_0000_0000_0000_0000,
    {
        match (&self.move_gen, &self.position) {
            (Some(g), Some(p)) => {
                let mut position = p.clone();
                perft(&mut position, g, depth)
            },
            _ => 1,
        }
    }

    /// Replaces the table by one of `hash_size` megabytes; not supported for sizes whose
    /// number of entries does not fit in memory addresses.
    pub fn set_hash_size(&mut self, hash_size: usize) -> (r: Result<(), NotSupportedError>)
        requires
            old(self).wf(),
        ensures
            final(self).wf(),
            final(self).spec_init() == old(self).spec_init(),
            final(self).spec_position() == old(self).spec_position(),
            r is Err ==> *final(self) == *old(self),
            r is Ok <==> hash_size * 0x10_0000 <= usize::MAX && hash_size * 0x10_0000 / (if vstd::layout::size_of::<Entry>() == 0 {
                1int
            } else {
                vstd::layout::size_of::<Entry>() as int
            }) <= usize::MAX / 4,
    {
        let entry_size = core::mem::size_of::<Entry>();
        let divisor = if entry_size == 0 { 1 } else { entry_size };
        let bytes = match hash_size.checked_mul(0x10_0000) {
            Some(b) => b,
            None => {
                return Err(NotSupportedError);
            },
        };
        let capacity = bytes / divisor;
        if capacity > usize::MAX / 4 {
            return Err(NotSupportedError);
        }
        self.trans_table = TranspositionTable::with_capacity(capacity);
        Ok(())
    }

    /// Empties the table.
    pub fn clear_trans_table(&mut self)
        requires
            old(self).wf(),
        ensures
            final(self).wf(),
            final(self).spec_init() == old(self).spec_init(),
            final(self).spec_position() == old(self).spec_position(),
            final(self).spec_table().spec_mask() == old(self).spec_table().spec_mask(),
            final(self).spec_table().spec_data().len() == old(self).spec_table().spec_data().len(),
            forall|i: int|
                0 <= i < final(self).spec_table().spec_data().len() ==> final(self).spec_table().spec_data()[i] is None,
    {
        self.trans_table.clear();
    }

    /// Searches the position (see `Search::start`), after emptying the table: only the
    /// moves `search_moves` designate if they are given (an error if one designates no move
    /// of the position), within the depth, node and time limits given, until `stop_search`
    /// is set.
    pub fn go(
        &mut self,
        search_moves: Option<&[PseudoMove]>,
        depth: Option<u8>,
        nodes: Option<u64>,
        time: Option<Duration>,
        stop_search: &AtomicBool,
    ) -> (r: Result<Vec<SearchResult>, String>)
        requires
            old(self).wf(),
            old(self).spec_init(),
        ensures
            final(self).wf(),
            final(self).spec_init(),
            final(self).spec_position() == old(self).spec_position(),
            r is Ok ==> r->Ok_0@.len() <= match depth {
                Some(d) => d as int,
                None => 255,
            },
            r is Ok ==> forall|i: int|
                0 <= i < r->Ok_0@.len() ==> (#[trigger] r->Ok_0@[i]).depth == i + 1 && plays(
                    old(self).spec_position()@,
                    r->Ok_0@[i].line@,
                ),
            r is Ok ==> exists|ts: Seq<Seq<Option<(u64, Entry)>>>, mss: Seq<Seq<Move>>|
                #[trigger] a_chain(ts, mss) && run_chain(
                    old(self).spec_position()@,
                    old(self).spec_position().spec_history(),
                    old(self).spec_table().spec_mask(),
                    ts,
                    mss,
                    r->Ok_0@,
                ) && ts[0].len() == old(self).spec_table().spec_data().len() && (forall|k: int|
                    0 <= k < ts[0].len() ==> ts[0][k] is None) && match search_moves {
                    Some(ms) => mss[0].len() == ms@.len() && forall|k: int|
                        0 <= k < ms@.len() ==> ms@[k].designates(#[trigger] mss[0][k]),
                    None => generated(old(self).spec_position()@, mss[0], false),
                },
            search_moves is None ==> r is Ok,
            search_moves is None && sane(old(self).spec_position()@) && !has_legal_move(old(self).spec_position()@)
                ==> r->Ok_0@.len() == 0,
            r is Err ==> search_moves is Some && exists|i: int|
                0 <= i < search_moves->0@.len() && r->Err_0@ == "Illegal move '"@ + square_text(search_moves->0@[i].from)
                    + square_text(search_moves->0@[i].to) + "'"@,
            search_moves is Some && sane(old(self).spec_position()@) && legal_moves(old(self).spec_position()@).finite()
                && legal_moves(old(self).spec_position()@).len() < 256 ==> (r is Ok <==> forall|i: int|
                0 <= i < search_moves->0@.len() ==> designates_legal(
                    old(self).spec_position()@,
                    #[trigger] search_moves->0@[i],
                )),
    {
        self.trans_table.clear();
        let (move_gen, position) = match (&self.move_gen, &self.position) {
            (Some(g), Some(p)) => (g, p),
            _ => {
                return Err(String::from_str("Client not initialized"));
            },
        };
        let mut search = Search::new(position.clone(), move_gen, MaterialEval::create());
        match search_moves {
            Some(moves) => {
                search = match search.moves(moves) {
                    Ok(s) => s,
                    Err(e) => {
                        return Err(e);
                    },
                };
            },
            None => {},
        }
        match depth {
            Some(d) => {
                search = search.depth(d);
            },
            None => {},
        }
        match nodes {
            Some(n) => {
                search = search.nodes(n);
            },
            None => {},
        }
        match time {
            Some(t) => {
                search = search.time(t);
            },
            None => {},
        }
        Ok(search.start(&mut self.trans_table, stop_search))
    }
}

} // verus!
