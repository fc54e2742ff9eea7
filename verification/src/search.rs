use vstd::prelude::*;

verus! {

use crate::list::GenerationalTokenList;
use crate::token::ItemToken;
use vstd::std_specs::cmp::PartialEqSpec;

impl<T> GenerationalTokenList<T> {
    /// Returns the token of the item at position `pos` from the front,
    /// or `None` if `pos` is out of range.  Walks the chain, O(`pos`).
    pub fn token_at(&self, pos: usize) -> (r: Option<ItemToken>)
        requires
            self.well_formed(),
        ensures
            r == (if (pos as int) < self.tokens().len() {
                Some(self.tokens()[pos as int])
            } else {
                None::<ItemToken>
            }),
    {
        if pos >= self.len() {
            return None;
        }
        let mut cur = self.head_token();
        let mut i: usize = 0;
        while i < pos
            invariant
                self.well_formed(),
                (pos as int) < self.tokens().len(),
                0 <= i <= pos,
                cur == Some(self.tokens()[i as int]),
            decreases pos - i,
        {
            let t = cur.unwrap();
            proof {
                assert(self.valid(t));
                self.lemma_token_index(t);
            }
            cur = self.next_token(t);
            i = i + 1;
        }
        cur
    }

    /// Returns the token of the item at position `pos` from the back,
    /// or `None` if `pos` is out of range.
    pub fn token_at_back(&self, pos: usize) -> (r: Option<ItemToken>)
        requires
            self.well_formed(),
        ensures
            r == (if (pos as int) < self.tokens().len() {
                Some(self.tokens()[self.tokens().len() - 1 - pos as int])
            } else {
                None::<ItemToken>
            }),
    {
        if pos >= self.len() {
            return None;
        }
        self.token_at(self.len() - pos - 1)
    }
}

impl<T: PartialEq> GenerationalTokenList<T> {
    /// Returns `true` if the list holds an item that compares equal to
    /// `value`.  Linear scan in iteration order.  The guarantee is stated
    /// under the premise that `T`'s equality agrees with its logical
    /// equality specification.
    pub fn contains(&self, value: &T) -> (r: bool)
        requires
            self.well_formed(),
        ensures
            T::obeys_eq_spec() ==> (r <==> exists|j: int|
                0 <= j < self@.len() && self@[j].eq_spec(value)),
    {
        let found = self.find_token(value);
        found.is_some()
    }

    /// Returns the token of the first item, in head-to-tail order, that
    /// compares equal to `value`, or `None` if there is none.  Two equal
    /// values are told apart only by their distinct tokens; the earlier
    /// position wins.  The guarantee is stated under the premise that
    /// `T`'s equality agrees with its logical equality specification.
    pub fn find_token(&self, value: &T) -> (r: Option<ItemToken>)
        requires
            self.well_formed(),
        ensures
            T::obeys_eq_spec() ==> match r {
                Some(t) => {
                    &&& self.valid(t)
                    &&& self@[self.position(t)].eq_spec(value)
                    &&& forall|j: int| 0 <= j < self.position(t) ==> !self@[j].eq_spec(value)
                },
                None => forall|j: int| 0 <= j < self@.len() ==> !self@[j].eq_spec(value),
            },
    {
        let mut cur = self.head_token();
        let ghost mut pos: int = 0;
        loop
            invariant
                self.well_formed(),
                0 <= pos <= self.tokens().len(),
                cur == (if pos == self.tokens().len() {
                    None::<ItemToken>
                } else {
                    Some(self.tokens()[pos])
                }),
                T::obeys_eq_spec() ==> forall|j: int| 0 <= j < pos ==> !self@[j].eq_spec(value),
            decreases self.tokens().len() - pos,
        {
            match cur {
                None => {
                    return None;
                },
                Some(t) => {
                    proof {
                        assert(self.valid(t));
                        self.lemma_token_index(t);
                    }
                    let v = self.get(t).unwrap();
                    if *v == *value {
                        return Some(t);
                    }
                    proof {
                        pos = pos + 1;
                    }
                    cur = self.next_token(t);
                },
            }
        }
    }
}

} // verus!
