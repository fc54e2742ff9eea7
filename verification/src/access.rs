use vstd::prelude::*;

verus! {

use crate::list::{GenerationalTokenList, Item, Slot};
use crate::token::ItemToken;

impl<T> GenerationalTokenList<T> {
    /// Whether the token currently names an element of this list.
    pub(crate) fn check_token(&self, token: ItemToken) -> (r: bool)
        requires
            self.well_formed(),
        ensures
            r == self.valid(token),
    {
        proof {
            self.lemma_live_is_valid(token);
        }
        token.slot < self.slots.len() && self.slots[token.slot].generation == token.generation
            && self.slots[token.slot].item.is_some()
    }

    /// Two independent exclusive references to the values of two distinct
    /// occupied slots `i < j`.  Everything but the two values is unchanged.
    fn two_items(&mut self, i: usize, j: usize) -> (r: (&mut T, &mut T))
        requires
            i < j,
            (j as int) < old(self).slots@.len(),
            old(self).slots@[i as int].item is Some,
            old(self).slots@[j as int].item is Some,
        ensures
            *r.0 == old(self).slots@[i as int].item->0.data,
            *r.1 == old(self).slots@[j as int].item->0.data,
            final(self).slots@ =~= old(self).slots@.update(
                i as int,
                (Slot {
                    generation: old(self).slots@[i as int].generation,
                    item: Some(
                        Item {
                            data: *final(r.0),
                            previous: old(self).slots@[i as int].item->0.previous,
                            next: old(self).slots@[i as int].item->0.next,
                        },
                    ),
                }),
            ).update(
                j as int,
                (Slot {
                    generation: old(self).slots@[j as int].generation,
                    item: Some(
                        Item {
                            data: *final(r.1),
                            previous: old(self).slots@[j as int].item->0.previous,
                            next: old(self).slots@[j as int].item->0.next,
                        },
                    ),
                }),
            ),
            final(self).free@ == old(self).free@,
            final(self).head == old(self).head,
            final(self).tail == old(self).tail,
            final(self).count == old(self).count,
            final(self).order@ == old(self).order@,
            final(self).minted@ == old(self).minted@,
    {
        let ghost orig = *self;
        let slice = self.slots.as_mut_slice();
        let (left, right) = slice.split_at_mut(j);
        let (l0, _) = left.split_at_mut(i + 1);
        let a_slot = l0.last_mut().unwrap();
        let b_slot = right.first_mut().unwrap();
        let a = &mut a_slot.item.as_mut().unwrap().data;
        let b = &mut b_slot.item.as_mut().unwrap().data;
        proof {
            let fin = after_borrow(*self);
            assert(fin.slots@ == after_borrow(slice)@);
            assert(fin.slots@ =~= orig.slots@.update(
                i as int,
                (Slot {
                    generation: orig.slots@[i as int].generation,
                    item: Some(
                        Item {
                            data: *final(a),
                            previous: orig.slots@[i as int].item->0.previous,
                            next: orig.slots@[i as int].item->0.next,
                        },
                    ),
                }),
            ).update(
                j as int,
                (Slot {
                    generation: orig.slots@[j as int].generation,
                    item: Some(
                        Item {
                            data: *final(b),
                            previous: orig.slots@[j as int].item->0.previous,
                            next: orig.slots@[j as int].item->0.next,
                        },
                    ),
                }),
            ));
        }
        (a, b)
    }

    /// Get a mutable reference to the value the token names, or `None` if
    /// the token is no longer (or never was) valid.  Only the value can be
    /// reached through the reference; the links and the order of the list
    /// are untouched, whatever the caller writes.
    pub fn get_mut(&mut self, token: ItemToken) -> (r: Option<&mut T>)
        requires
            old(self).well_formed(),
        ensures
            final(self).well_formed(),
            r is Some <==> old(self).valid(token),
            !old(self).valid(token) ==> *final(self) == *old(self),
            old(self).valid(token) ==> ({
                let k = old(self).position(token);
                &&& *r.unwrap() == old(self)@[k]
                &&& final(self)@ == old(self)@.update(k, *final(r.unwrap()))
                &&& final(self).tokens() == old(self).tokens()
                &&& final(self).issued() == old(self).issued()
            }),
    {
        proof {
            self.lemma_live_is_valid(token);
            if self.valid(token) {
                self.lemma_token_index(token);
            }
        }
        if token.slot >= self.slots.len() {
            return None;
        }
        if self.slots[token.slot].generation != token.generation {
            return None;
        }
        if self.slots[token.slot].item.is_none() {
            return None;
        }
        let ghost orig = *self;
        let ghost k = orig.position(token);
        let slot = &mut self.slots[token.slot];
        match &mut slot.item {
            Some(item) => {
                let r = &mut item.data;
                proof {
                    let fin = after_borrow(*self);
                    assert forall|k2: int|
                        0 <= k2 < fin.order@.len() implies #[trigger] fin.link_ok(k2) by {
                        assert(orig.link_ok(k2));
                        if orig.order@[k2].slot != token.slot {
                            assert(fin.slots@[orig.order@[k2].slot as int] == orig.slots@[orig
                                .order@[k2].slot as int]);
                        }
                    }
                    assert forall|i: int|
                        0 <= i < fin.slots@.len() implies #[trigger] fin.covered(i) by {
                        assert(orig.covered(i));
                    }
                    assert forall|j: int|
                        0 <= j < fin.free@.len() implies #[trigger] fin.free_ok(j) by {
                        assert(orig.free_ok(j));
                    }
                    assert forall|t2: ItemToken| #[trigger] fin.minted@.contains(t2)
                        implies fin.minted_ok(t2) by {
                        assert(orig.minted_ok(t2));
                    }
                    assert forall|k2: int|
                        0 <= k2 < fin.order@.len() implies fin@[k2] == orig@.update(
                        k,
                        *final(r),
                    )[k2] by {
                        assert(orig.link_ok(k2));
                        if k2 != k {
                            assert(orig.order@[k2].slot != orig.order@[k].slot);
                        }
                    }
                    assert(fin@ =~= orig@.update(k, *final(r)));
                }
                Some(r)
            },
            None => {
                proof {
                    assert(false);
                }
                None
            },
        }
    }
    /// Get a pair of mutable (exclusive) references to the values named by
    /// `token1` and `token2`.  An invalid token yields `None` in its place.
    /// Asking twice for the same occupied slot is a contract violation —
    /// it would alias two exclusive references — so that case is excluded
    /// outright.  The two references are independent: each write lands at
    /// its own position and cannot disturb the other.
    pub fn get2_mut(&mut self, token1: ItemToken, token2: ItemToken) -> (r: (
        Option<&mut T>,
        Option<&mut T>,
    ))
        requires
            old(self).well_formed(),
            !(old(self).valid(token1) && token1 == token2),
        ensures
            final(self).well_formed(),
            final(self).tokens() == old(self).tokens(),
            final(self).issued() == old(self).issued(),
            r.0 is Some <==> old(self).valid(token1),
            r.1 is Some <==> old(self).valid(token2),
            old(self).valid(token1) ==> *r.0.unwrap() == old(self)@[old(self).position(token1)],
            old(self).valid(token2) ==> *r.1.unwrap() == old(self)@[old(self).position(token2)],
            final(self)@ == ({
                let through_first = if old(self).valid(token1) {
                    old(self)@.update(old(self).position(token1), *final(r.0.unwrap()))
                } else {
                    old(self)@
                };
                if old(self).valid(token2) {
                    through_first.update(old(self).position(token2), *final(r.1.unwrap()))
                } else {
                    through_first
                }
            }),
    {
        let v1 = self.check_token(token1);
        let v2 = self.check_token(token2);
        if v1 && v2 {
            let ghost orig = *self;
            let ghost k1 = orig.position(token1);
            let ghost k2 = orig.position(token2);
            proof {
                orig.lemma_token_index(token1);
                orig.lemma_token_index(token2);
                if token1.slot == token2.slot {
                    assert(token1 == token2);
                    assert(false);
                }
                if k1 < k2 {
                    assert(orig.order@[k1].slot != orig.order@[k2].slot);
                } else {
                    assert(orig.order@[k2].slot != orig.order@[k1].slot);
                }
            }
            let swapped = token2.slot < token1.slot;
            let (lo, hi) = if swapped {
                (token2.slot, token1.slot)
            } else {
                (token1.slot, token2.slot)
            };
            let pair = self.two_items(lo, hi);
            let (a, b) = if swapped {
                (pair.1, pair.0)
            } else {
                (pair.0, pair.1)
            };
            proof {
                let fin = after_borrow(*self);
                assert forall|j2: int|
                    0 <= j2 < fin.order@.len() implies #[trigger] fin.link_ok(j2) by {
                    assert(orig.link_ok(j2));
                    if orig.order@[j2].slot != token1.slot && orig.order@[j2].slot != token2.slot {
                        assert(fin.slots@[orig.order@[j2].slot as int] == orig.slots@[orig
                            .order@[j2].slot as int]);
                    }
                }
                assert forall|i: int|
                    0 <= i < fin.slots@.len() implies #[trigger] fin.covered(i) by {
                    assert(orig.covered(i));
                }
                assert forall|j: int|
                    0 <= j < fin.free@.len() implies #[trigger] fin.free_ok(j) by {
                    assert(orig.free_ok(j));
                    assert(orig.slots@[orig.free@[j] as int].item is None);
                }
                assert forall|t2: ItemToken| #[trigger] fin.minted@.contains(t2)
                    implies fin.minted_ok(t2) by {
                    assert(orig.minted_ok(t2));
                }
                assert forall|j2: int|
                    0 <= j2 < fin.order@.len() implies fin@[j2] == orig@.update(
                    k1,
                    *final(a),
                ).update(k2, *final(b))[j2] by {
                    assert(orig.link_ok(j2));
                    if j2 != k1 {
                        if j2 < k1 {
                            assert(orig.order@[j2].slot != orig.order@[k1].slot);
                        } else {
                            assert(orig.order@[k1].slot != orig.order@[j2].slot);
                        }
                    }
                    if j2 != k2 {
                        if j2 < k2 {
                            assert(orig.order@[j2].slot != orig.order@[k2].slot);
                        } else {
                            assert(orig.order@[k2].slot != orig.order@[j2].slot);
                        }
                    }
                }
                assert(fin@ =~= orig@.update(k1, *final(a)).update(k2, *final(b)));
            }
            (Some(a), Some(b))
        } else if v1 {
            (self.get_mut(token1), None)
        } else if v2 {
            (None, self.get_mut(token2))
        } else {
            (None, None)
        }
    }

    /// Returns a mutable reference to the first value, or `None` if the
    /// list is empty.
    pub fn head_mut(&mut self) -> (r: Option<&mut T>)
        requires
            old(self).well_formed(),
        ensures
            final(self).well_formed(),
            r is Some <==> old(self)@.len() > 0,
            old(self)@.len() == 0 ==> *final(self) == *old(self),
            old(self)@.len() > 0 ==> {
                &&& *r.unwrap() == old(self)@.first()
                &&& final(self)@ == old(self)@.update(0, *final(r.unwrap()))
                &&& final(self).tokens() == old(self).tokens()
                &&& final(self).issued() == old(self).issued()
            },
    {
        let anchor = self.head_token();
        match anchor {
            None => None,
            Some(t) => {
                proof {
                    self.lemma_token_index(t);
                }
                self.get_mut(t)
            },
        }
    }

    /// Returns a mutable reference to the last value, or `None` if the
    /// list is empty.
    pub fn tail_mut(&mut self) -> (r: Option<&mut T>)
        requires
            old(self).well_formed(),
        ensures
            final(self).well_formed(),
            r is Some <==> old(self)@.len() > 0,
            old(self)@.len() == 0 ==> *final(self) == *old(self),
            old(self)@.len() > 0 ==> {
                &&& *r.unwrap() == old(self)@.last()
                &&& final(self)@ == old(self)@.update(old(self)@.len() - 1, *final(r.unwrap()))
                &&& final(self).tokens() == old(self).tokens()
                &&& final(self).issued() == old(self).issued()
            },
    {
        let anchor = self.tail_token();
        match anchor {
            None => None,
            Some(t) => {
                proof {
                    self.lemma_token_index(t);
                }
                self.get_mut(t)
            },
        }
    }

    /// A reference to the value the token names.  This is the strict
    /// indexing accessor: the token must be valid.
    pub fn index(&self, token: ItemToken) -> (r: &T)
        requires
            self.well_formed(),
            self.valid(token),
        ensures
            *r == self@[self.position(token)],
    {
        self.get(token).unwrap()
    }

    /// A mutable reference to the value the token names.  This is the
    /// strict indexing accessor: the token must be valid.
    pub fn index_mut(&mut self, token: ItemToken) -> (r: &mut T)
        requires
            old(self).well_formed(),
            old(self).valid(token),
        ensures
            final(self).well_formed(),
            *r == old(self)@[old(self).position(token)],
            final(self)@ == old(self)@.update(old(self).position(token), *final(r)),
            final(self).tokens() == old(self).tokens(),
            final(self).issued() == old(self).issued(),
    {
        self.get_mut(token).unwrap()
    }
}

} // verus!
