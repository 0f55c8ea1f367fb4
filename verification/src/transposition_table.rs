use vstd::prelude::*;

use crate::moves::Move;
use crate::position::{state_hash, Position};
use crate::value::Value;

verus! {

/// How a stored score bounds the true score of a position.
#[derive(Clone, Copy, Debug, PartialEq, Eq, Structural)]
pub enum Bound {
    Exact,
    Lower,
    Upper,
}

/// What the search stored about a position; `entry_score` is how much it is worth keeping:
/// its depth, one more for an exact score.
#[derive(Clone, Copy, Debug, PartialEq, Eq, Structural)]
pub struct Entry {
    pub score: Value,
    pub best_move: Move,
    pub bound: Bound,
    pub depth: u8,
    pub entry_score: u32,
}

impl Entry {
    pub fn new(score: Value, best_move: Move, kind: Bound, depth: u8) -> (r: Entry)
        ensures
            r.score == score,
            r.best_move == best_move,
            r.bound == kind,
            r.depth == depth,
            r.entry_score == depth + if kind == Bound::Exact { 1int } else { 0int },
    {
        let entry_score = depth as u32 + match kind {
            Bound::Exact => 1,
            Bound::Lower | Bound::Upper => 0,
        };
        Entry { score, best_move, bound: kind, depth, entry_score }
    }
}

/// The number of further slots looked at after the first one.
pub const PROBE_DEPTH: usize = 2;

/// The slot looked at in the `i`-th probe for `key`.
pub open spec fn slot_idx(mask: usize, key: u64, i: int) -> int {
    (((key as usize & mask) + i) as usize & mask) as int
}

/// The entry found for `key` by probing from the `i`-th probe on: the probing stops at an
/// empty slot, at the slot of `key`, or after the last probe.
pub open spec fn lookup_from(data: Seq<Option<(u64, Entry)>>, mask: usize, key: u64, i: nat) -> Option<Entry>
    decreases PROBE_DEPTH + 1 - i,
{
    if i > PROBE_DEPTH {
        None
    } else {
        match data[slot_idx(mask, key, i as int)] {
            None => None,
            Some((k, e)) => if k == key {
                Some(e)
            } else {
                lookup_from(data, mask, key, i + 1)
            },
        }
    }
}

/// The entry stored for `key`, if the probes find it.
pub open spec fn lookup(data: Seq<Option<(u64, Entry)>>, mask: usize, key: u64) -> Option<Entry> {
    lookup_from(data, mask, key, 0)
}

/// The slots after storing `entry` for `key`, from the `i`-th probe on, where `min_idx` is
/// the slot of least entry score `min` seen so far: the entry goes into the slot of
/// `key`, or else the first empty slot, or else replaces the least valuable entry probed
/// if it is worth at least as much.
pub open spec fn insert_from(
    data: Seq<Option<(u64, Entry)>>,
    mask: usize,
    key: u64,
    entry: Entry,
    i: nat,
    min: int,
    min_idx: int,
) -> Seq<Option<(u64, Entry)>>
    decreases PROBE_DEPTH + 1 - i,
{
    if i > PROBE_DEPTH {
        if entry.entry_score >= min {
            data.update(min_idx, Some((key, entry)))
        } else {
            data
        }
    } else {
        let j = slot_idx(mask, key, i as int);
        match data[j] {
            None => data.update(j, Some((key, entry))),
            Some((k, e)) => if k == key {
                data.update(j, Some((key, entry)))
            } else if e.entry_score < min {
                insert_from(data, mask, key, entry, i + 1, e.entry_score as int, j)
            } else {
                insert_from(data, mask, key, entry, i + 1, min, min_idx)
            },
        }
    }
}

/// The slots after storing `entry` for `key`.
pub open spec fn insert_spec(data: Seq<Option<(u64, Entry)>>, mask: usize, key: u64, entry: Entry) -> Seq<
    Option<(u64, Entry)>,
> {
    insert_from(data, mask, key, entry, 0, u32::MAX as int, 0)
}

/// The number of filled slots.
pub open spec fn filled(data: Seq<Option<(u64, Entry)>>) -> nat
    decreases data.len(),
{
    if data.len() == 0 {
        0
    } else {
        filled(data.drop_last()) + if data.last() is Some { 1nat } else { 0nat }
    }
}

proof fn lemma_filled_update(data: Seq<Option<(u64, Entry)>>, j: int, x: Option<(u64, Entry)>)
    requires
        0 <= j < data.len(),
    ensures
        filled(data.update(j, x)) + (if data[j] is Some { 1int } else { 0int }) == filled(data) + (
        if x is Some { 1int } else { 0int }),
    decreases data.len(),
{
    let u = data.update(j, x);
    if j < data.len() - 1 {
        lemma_filled_update(data.drop_last(), j, x);
        assert(u.drop_last() =~= data.drop_last().update(j, x));
    } else {
        assert(u.drop_last() =~= data.drop_last());
    }
}

proof fn lemma_filled_bound(data: Seq<Option<(u64, Entry)>>)
    ensures
        filled(data) <= data.len(),
    decreases data.len(),
{
    if data.len() > 0 {
        lemma_filled_bound(data.drop_last());
    }
}

/// Every probed slot is a slot of the table.
proof fn lemma_slot_bound(mask: usize, key: u64, i: usize)
    requires
        i <= PROBE_DEPTH,
        mask < usize::MAX / 2,
    ensures
        0 <= slot_idx(mask, key, i as int) <= mask,
{
    let a = key as usize & mask;
    let b = (a + i) as usize;
    assert(b & mask <= mask) by (bit_vector);
}

/// The table refuses to store `entry` for `key`: every probed slot holds another key, with
/// an entry worth more.
pub open spec fn refused(data: Seq<Option<(u64, Entry)>>, mask: usize, key: u64, entry: Entry) -> bool {
    forall|i: int|
        0 <= i <= PROBE_DEPTH ==> {
            let slot = #[trigger] data[slot_idx(mask, key, i)];
            &&& slot is Some
            &&& slot.unwrap().0 != key
            &&& slot.unwrap().1.entry_score > entry.entry_score
        }
}

/// A read of a key gives back what was last stored for it, unless the table refused to
/// store it, in which case the table is as it was.
pub proof fn lemma_get_after_insert(data: Seq<Option<(u64, Entry)>>, mask: usize, key: u64, entry: Entry)
    requires
        data.len() == mask + 1,
        mask < usize::MAX / 2,
        forall|i: int| 0 <= i < data.len() && #[trigger] data[i] is Some ==> data[i].unwrap().1.entry_score <= 256,
        entry.entry_score <= 256,
    ensures
        lookup(insert_spec(data, mask, key, entry), mask, key) == Some(entry) || (refused(
            data,
            mask,
            key,
            entry,
        ) && insert_spec(data, mask, key, entry) == data),
{
    reveal_with_fuel(insert_from, 4);
    reveal_with_fuel(lookup_from, 4);
    let j0 = slot_idx(mask, key, 0);
    let j1 = slot_idx(mask, key, 1);
    let j2 = slot_idx(mask, key, 2);
    lemma_slot_bound(mask, key, 0);
    lemma_slot_bound(mask, key, 1);
    lemma_slot_bound(mask, key, 2);
    let u = insert_spec(data, mask, key, entry);
    if !(lookup(u, mask, key) == Some(entry)) {
        assert(refused(data, mask, key, entry)) by {
            assert forall|i: int| 0 <= i <= PROBE_DEPTH implies {
                let slot = #[trigger] data[slot_idx(mask, key, i)];
                &&& slot is Some
                &&& slot.unwrap().0 != key
                &&& slot.unwrap().1.entry_score > entry.entry_score
            } by {
                assert(i == 0 || i == 1 || i == 2);
            }
        }
    }
}

/// Whether `n` is a power of two.
pub open spec fn power_of_two(n: int) -> bool
    decreases n,
{
    if n <= 1 {
        n == 1
    } else {
        n % 2 == 0 && power_of_two(n / 2)
    }
}

/// Of two powers of two, the smaller one doubled is at most the larger one.
proof fn lemma_power_of_two_double(a: int, b: int)
    requires
        power_of_two(a),
        power_of_two(b),
        a < b,
    ensures
        2 * a <= b,
    decreases b,
{
    if a > 1 {
        lemma_power_of_two_double(a / 2, b / 2);
    }
}

/// A fixed size table of entries by position hash, probing a few slots from the one the
/// hash picks.
pub struct TranspositionTable {
    data: Vec<Option<(u64, Entry)>>,
    mod_mask: usize,
    count: usize,
}

impl TranspositionTable {
    /// The slots.
    pub closed spec fn spec_data(&self) -> Seq<Option<(u64, Entry)>> {
        self.data@
    }

    /// The mask that picks a slot from a hash.
    pub closed spec fn spec_mask(&self) -> usize {
        self.mod_mask
    }

    /// The slots are `mask + 1`, the count is the number of filled ones, and every stored
    /// entry is worth at most 256.
    pub closed spec fn wf(&self) -> bool {
        &&& self.data@.len() == self.mod_mask + 1
        &&& self.mod_mask < usize::MAX / 2
        &&& self.count == filled(self.data@)
        &&& forall|i: int| 0 <= i < self.data@.len() && #[trigger] self.data@[i] is Some ==> self.data@[i].unwrap().1.entry_score <= 256
    }

    /// A table of 2^22 slots.
    pub fn new() -> (r: TranspositionTable)
        ensures
            r.wf(),
            r.spec_data().len() == 0x40_0000,
            forall|i: int| 0 <= i < r.spec_data().len() ==> r.spec_data()[i] is None,
    {
        proof {
            reveal_with_fuel(power_of_two, 24);
            assert(power_of_two(0x40_0000));
        }
        TranspositionTable::with_capacity(0x40_0000)
    }

    /// A table with `capacity` slots, rounded up to a power of two.
    pub fn with_capacity(capacity: usize) -> (r: TranspositionTable)
        requires
            capacity <= usize::MAX / 4,
        ensures
            r.wf(),
            power_of_two(r.spec_data().len() as int),
            capacity <= r.spec_data().len(),
            r.spec_data().len() == 1 || r.spec_data().len() < 2 * capacity,
            power_of_two(capacity as int) ==> r.spec_data().len() == capacity,
            forall|i: int| 0 <= i < r.spec_data().len() ==> r.spec_data()[i] is None,
    {
        let mut cap: usize = 1;
        while cap < capacity
            invariant
                power_of_two(cap as int),
                cap == 1 || cap < 2 * capacity,
                power_of_two(capacity as int) ==> cap <= capacity,
                capacity <= usize::MAX / 4,
            decreases 2 * capacity - cap,
        {
            proof {
                if power_of_two(capacity as int) {
                    lemma_power_of_two_double(cap as int, capacity as int);
                }
            }
            cap = cap * 2;
            assert(power_of_two(cap as int));
        }
        let mut data: Vec<Option<(u64, Entry)>> = Vec::new();
        let mut i: usize = 0;
        while i < cap
            invariant
                i <= cap,
                data@.len() == i,
                forall|j: int| 0 <= j < i ==> data@[j] is None,
                filled(data@) == 0,
            decreases cap - i,
        {
            let ghost before = data@;
            data.push(None);
            proof {
                assert(data@.drop_last() =~= before);
            }
            i = i + 1;
        }
        TranspositionTable { data, mod_mask: cap - 1, count: 0 }
    }

    /// The slot looked at in the `i`-th probe for `key`.
    fn probe(&self, key: u64, i: usize) -> (r: usize)
        requires
            self.wf(),
            i <= PROBE_DEPTH,
        ensures
            r == slot_idx(self.spec_mask(), key, i as int),
            r < self.spec_data().len(),
    {
        let mask = self.mod_mask;
        let index = key as usize & mask;
        assert(index <= mask) by (bit_vector)
            requires
                index == key as usize & mask,
        ;
        let sum = index + i;
        let r = sum & mask;
        assert(r <= mask) by (bit_vector)
            requires
                r == sum & mask,
        ;
        r
    }

    /// Stores `entry` for `position` (see `insert_spec`).
    pub fn insert(&mut self, position: &Position, entry: Entry)
        requires
            old(self).wf(),
            position.wf(),
            entry.entry_score <= 256,
        ensures
            final(self).wf(),
            final(self).spec_mask() == old(self).spec_mask(),
            final(self).spec_data() == insert_spec(
                old(self).spec_data(),
                old(self).spec_mask(),
                state_hash(position@),
                entry,
            ),
    {
        let key = position.zobrist();
        let ghost d0 = self.data@;
        let mut min: u32 = u32::MAX;
        let mut min_idx: usize = 0;
        let mut i: usize = 0;
        while i <= PROBE_DEPTH
            invariant
                self.wf(),
                self.data@ == d0,
                d0 == old(self).data@,
                self.mod_mask == old(self).mod_mask,
                self.count == old(self).count,
                key == state_hash(position@),
                i <= PROBE_DEPTH + 1,
                min_idx < self.data@.len(),
                min == u32::MAX || d0[min_idx as int] is Some,
                entry.entry_score <= 256,
                insert_spec(d0, self.mod_mask, key, entry) == insert_from(d0, self.mod_mask, key, entry, i as nat, min as int, min_idx as int),
            decreases PROBE_DEPTH + 1 - i,
        {
            let j = self.probe(key, i);
            match self.data[j] {
                Some((k, e)) => {
                    if k == key {
                        self.data.set(j, Some((key, entry)));
                        proof {
                            lemma_filled_update(d0, j as int, Some((key, entry)));
                        }
                        return;
                    }
                    if e.entry_score < min {
                        min = e.entry_score;
                        min_idx = j;
                    }
                },
                None => {
                    self.data.set(j, Some((key, entry)));
                    proof {
                        lemma_filled_update(d0, j as int, Some((key, entry)));
                        lemma_filled_bound(d0);
                    }
                    self.count = self.count + 1;
                    return;
                },
            }
            i = i + 1;
        }
        if entry.entry_score >= min {
            proof {
                lemma_filled_update(d0, min_idx as int, Some((key, entry)));
            }
            self.data.set(min_idx, Some((key, entry)));
        }
    }

    /// The entry stored for `position`, if the probes find it (see `lookup`).
    pub fn get(&self, position: &Position) -> (r: Option<Entry>)
        requires
            self.wf(),
            position.wf(),
        ensures
            r == lookup(self.spec_data(), self.spec_mask(), state_hash(position@)),
    {
        let key = position.zobrist();
        let mut i: usize = 0;
        while i <= PROBE_DEPTH
            invariant
                self.wf(),
                key == state_hash(position@),
                i <= PROBE_DEPTH + 1,
                lookup(self.data@, self.mod_mask, key) == lookup_from(self.data@, self.mod_mask, key, i as nat),
            decreases PROBE_DEPTH + 1 - i,
        {
            let j = self.probe(key, i);
            match self.data[j] {
                Some((k, e)) => {
                    if k == key {
                        return Some(e);
                    }
                },
                None => {
                    return None;
                },
            }
            i = i + 1;
        }
        None
    }

    /// The number of filled slots.
    pub fn len(&self) -> (r: usize)
        requires
            self.wf(),
        ensures
            r == filled(self.spec_data()),
            r <= self.spec_data().len(),
    {
        proof {
            lemma_filled_bound(self.data@);
        }
        self.count
    }

    /// The number of slots.
    pub fn capacity(&self) -> (r: usize)
        requires
            self.wf(),
        ensures
            r == self.spec_data().len(),
            r >= 1,
    {
        self.data.len()
    }

    /// Empties every slot.
    pub fn clear(&mut self)
        requires
            old(self).wf(),
        ensures
            final(self).wf(),
            final(self).spec_mask() == old(self).spec_mask(),
            final(self).spec_data().len() == old(self).spec_data().len(),
            forall|i: int| 0 <= i < final(self).spec_data().len() ==> final(self).spec_data()[i] is None,
    {
        let n = self.data.len();
        let mut i: usize = 0;
        while i < n
            invariant
                i <= n,
                n == self.data@.len(),
                self.data@.len() == self.mod_mask + 1,
                self.mod_mask < usize::MAX / 2,
                forall|j: int| 0 <= j < i ==> self.data@[j] is None,
                forall|j: int| 0 <= j < self.data@.len() && #[trigger] self.data@[j] is Some ==> self.data@[j].unwrap().1.entry_score <= 256,
            decreases n - i,
        {
            self.data.set(i, None);
            i = i + 1;
        }
        proof {
            assert(filled(self.data@) == 0) by {
                lemma_filled_none(self.data@);
            }
        }
        self.count = 0;
    }
}

proof fn lemma_filled_none(data: Seq<Option<(u64, Entry)>>)
    requires
        forall|j: int| 0 <= j < data.len() ==> data[j] is None,
    ensures
        filled(data) == 0,
    decreases data.len(),
{
    if data.len() > 0 {
        lemma_filled_none(data.drop_last());
    }
}

} // verus!
