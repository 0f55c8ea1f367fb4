use vstd::prelude::*;

use crate::square::Square;

verus! {

/// One value for each of the 64 squares.
pub struct SquareMap<T> {
    items: Vec<T>,
}

impl<T> View for SquareMap<T> {
    type V = Seq<T>;

    closed spec fn view(&self) -> Seq<T> {
        self.items@
    }
}

impl<T: Copy> SquareMap<T> {
    /// The map holds a value for each square.
    pub open spec fn wf(&self) -> bool {
        self@.len() == 64
    }

    /// The map with `value` on every square.
    pub fn new(value: T) -> (r: SquareMap<T>)
        ensures
            r.wf(),
            r@ == Seq::new(64, |i: int| value),
    {
        let mut items: Vec<T> = Vec::new();
        let mut i: usize = 0;
        while i < 64
            invariant
                i <= 64,
                items@ == Seq::new(i as nat, |j: int| value),
            decreases 64 - i,
        {
            items.push(value);
            i = i + 1;
            assert(items@ =~= Seq::new(i as nat, |j: int| value));
        }
        SquareMap { items }
    }

    /// The map with the values of `items`, by square index.
    pub fn from_vec(items: Vec<T>) -> (r: SquareMap<T>)
        requires
            items@.len() == 64,
        ensures
            r.wf(),
            r@ == items@,
    {
        SquareMap { items }
    }

    /// The value of square `sq`.
    pub fn get(&self, sq: Square) -> (r: T)
        requires
            self.wf(),
        ensures
            r == self@[sq.idx()],
    {
        self.items[sq.index() as usize]
    }

    /// Gives square `sq` the value `value`.
    pub fn set(&mut self, sq: Square, value: T)
        requires
            old(self).wf(),
        ensures
            final(self).wf(),
            final(self)@ == old(self)@.update(sq.idx(), value),
    {
        self.items.set(sq.index() as usize, value);
    }

    /// The squares with their values, in the order of the square indices.
    pub fn iter(&self) -> (r: Vec<(Square, T)>)
        requires
            self.wf(),
        ensures
            r@.len() == 64,
            forall|i: int| 0 <= i < 64 ==> #[trigger] r@[i] == (Square::from_index_spec(i), self@[i]),
    {
        let mut r: Vec<(Square, T)> = Vec::new();
        let mut i: u8 = 0;
        while i < 64
            invariant
                i <= 64,
                self.wf(),
                r@.len() == i,
                forall|j: int| 0 <= j < i ==> #[trigger] r@[j] == (Square::from_index_spec(j), self@[j]),
            decreases 64 - i,
        {
            r.push((Square::from_index(i), self.items[i as usize]));
            i = i + 1;
        }
        r
    }
}

} // verus!
