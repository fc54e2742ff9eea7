use vstd::prelude::*;

verus! {

use crate::list::GenerationalTokenList;
use crate::token::ItemToken;

/// Read-only iterator over a list, yielding `(token, &value)` pairs in
/// head-to-tail order.  It walks the `next` chain starting at the head.
pub struct IterWithTokens<'a, T> {
    pub(crate) list: &'a GenerationalTokenList<T>,
    pub(crate) next_item: Option<ItemToken>,
    pub(crate) pos: Ghost<int>,
}

impl<'a, T> IterWithTokens<'a, T> {
    /// The list being walked.
    pub open(crate) spec fn spec_list(&self) -> &'a GenerationalTokenList<T> {
        self.list
    }

    /// How many elements have been yielded so far.
    pub open(crate) spec fn spec_pos(&self) -> int {
        self.pos@
    }

    /// The iterator points at the next unvisited element of a well-formed
    /// list, or just past the end.
    pub open(crate) spec fn well_formed(&self) -> bool {
        &&& self.list.well_formed()
        &&& 0 <= self.pos@ <= self.list.tokens().len()
        &&& self.next_item == (if self.pos@ == self.list.tokens().len() {
            None::<ItemToken>
        } else {
            Some(self.list.tokens()[self.pos@])
        })
    }

    /// The values not yet yielded, in order.
    pub open(crate) spec fn remaining_values(&self) -> Seq<T> {
        self.spec_list()@.skip(self.spec_pos())
    }

    /// The tokens not yet yielded, in order.
    pub open(crate) spec fn remaining_tokens(&self) -> Seq<ItemToken> {
        self.spec_list().tokens().skip(self.spec_pos())
    }

    /// Yields the token and a reference to the value of the next element,
    /// advancing past it; `None` once the chain is exhausted.
    pub fn next(&mut self) -> (r: Option<(ItemToken, &'a T)>)
        requires
            old(self).well_formed(),
        ensures
            final(self).well_formed(),
            final(self).spec_list() == old(self).spec_list(),
            old(self).spec_pos() == old(self).spec_list().tokens().len() ==> r is None && *final(self) == *old(self),
            old(self).spec_pos() < old(self).spec_list().tokens().len() ==> ({
                let k = old(self).spec_pos();
                &&& r == Some((old(self).spec_list().tokens()[k], &old(self).spec_list()@[k]))
                &&& final(self).spec_pos() == k + 1
            }),
    {
        match self.next_item {
            None => None,
            Some(t) => {
                let list = self.list;
                proof {
                    assert(list.tokens()[self.pos@] == t);
                    assert(list.valid(t));
                    list.lemma_token_index(t);
                }
                let v = list.get(t);
                let nt = list.next_token(t);
                self.next_item = nt;
                proof {
                    self.pos@ = self.pos@ + 1;
                }
                Some((t, v.unwrap()))
            },
        }
    }
}

/// Read-only iterator over a list, yielding `&value` in head-to-tail order.
pub struct Iter<'a, T> {
    pub(crate) inner: IterWithTokens<'a, T>,
}

impl<'a, T> Iter<'a, T> {
    /// The list being walked.
    pub open(crate) spec fn spec_list(&self) -> &'a GenerationalTokenList<T> {
        self.inner.spec_list()
    }

    /// How many elements have been yielded so far.
    pub open(crate) spec fn spec_pos(&self) -> int {
        self.inner.spec_pos()
    }

    /// See [`IterWithTokens::well_formed`].
    pub open(crate) spec fn well_formed(&self) -> bool {
        self.inner.well_formed()
    }

    /// The values not yet yielded, in order.
    pub open(crate) spec fn remaining_values(&self) -> Seq<T> {
        self.inner.remaining_values()
    }

    /// Yields a reference to the value of the next element, advancing past
    /// it; `None` once the chain is exhausted.
    pub fn next(&mut self) -> (r: Option<&'a T>)
        requires
            old(self).well_formed(),
        ensures
            final(self).well_formed(),
            final(self).spec_list() == old(self).spec_list(),
            old(self).spec_pos() == old(self).spec_list().tokens().len() ==> r is None && *final(self) == *old(self),
            old(self).spec_pos() < old(self).spec_list().tokens().len() ==> ({
                let k = old(self).spec_pos();
                &&& r == Some(&old(self).spec_list()@[k])
                &&& final(self).spec_pos() == k + 1
            }),
    {
        match self.inner.next() {
            None => None,
            Some(p) => Some(p.1),
        }
    }
}

/// Forward cursor for mutable traversal.  It holds no borrow of the list;
/// each step resolves the cursor token against the list inside its own
/// short-lived exclusive borrow, which makes the traversal safe by
/// construction even though several values are modified in turn.
pub struct IterWithTokensMut {
    pub(crate) next_item: Option<ItemToken>,
}

impl IterWithTokensMut {
    /// The token the next step will try to resolve.
    pub open(crate) spec fn cursor(&self) -> Option<ItemToken> {
        self.next_item
    }

    /// Yields the token and an exclusive reference to the value of the
    /// next element of `list`, advancing the cursor along the `next`
    /// chain.  Returns `None` once exhausted, or if the cursor token has
    /// been invalidated since the last step.
    pub fn next<'a, T>(&mut self, list: &'a mut GenerationalTokenList<T>) -> (r: Option<
        (ItemToken, &'a mut T),
    >)
        requires
            old(list).well_formed(),
        ensures
            final(list).well_formed(),
            match old(self).cursor() {
                None => r is None && *final(list) == *old(list) && *final(self) == *old(self),
                Some(t) => {
                    if old(list).valid(t) {
                        let k = old(list).position(t);
                        &&& r is Some
                        &&& r.unwrap().0 == t
                        &&& *r.unwrap().1 == old(list)@[k]
                        &&& final(list)@ == old(list)@.update(k, *final(r.unwrap().1))
                        &&& final(list).tokens() == old(list).tokens()
                        &&& final(list).issued() == old(list).issued()
                        &&& final(self).cursor() == (if k + 1 < old(list).tokens().len() {
                            Some(old(list).tokens()[k + 1])
                        } else {
                            None::<ItemToken>
                        })
                    } else {
                        r is None && *final(list) == *old(list) && *final(self) == *old(self)
                    }
                },
            },
    {
        match self.next_item {
            None => None,
            Some(t) => {
                if list.check_token(t) {
                    proof {
                        list.lemma_token_index(t);
                    }
                    let nt = list.next_token(t);
                    self.next_item = nt;
                    match list.get_mut(t) {
                        Some(vr) => Some((t, vr)),
                        None => {
                            proof {
                                assert(false);
                            }
                            None
                        },
                    }
                } else {
                    None
                }
            },
        }
    }
}

/// Forward cursor for mutable traversal, yielding only the values.
pub struct IterMut {
    pub(crate) inner: IterWithTokensMut,
}

impl IterMut {
    /// The token the next step will try to resolve.
    pub open(crate) spec fn cursor(&self) -> Option<ItemToken> {
        self.inner.cursor()
    }

    /// Yields an exclusive reference to the value of the next element of
    /// `list`, advancing the cursor along the `next` chain.
    pub fn next<'a, T>(&mut self, list: &'a mut GenerationalTokenList<T>) -> (r: Option<&'a mut T>)
        requires
            old(list).well_formed(),
        ensures
            final(list).well_formed(),
            match old(self).cursor() {
                None => r is None && *final(list) == *old(list) && *final(self) == *old(self),
                Some(t) => {
                    if old(list).valid(t) {
                        let k = old(list).position(t);
                        &&& r is Some
                        &&& *r.unwrap() == old(list)@[k]
                        &&& final(list)@ == old(list)@.update(k, *final(r.unwrap()))
                        &&& final(list).tokens() == old(list).tokens()
                        &&& final(list).issued() == old(list).issued()
                        &&& final(self).cursor() == (if k + 1 < old(list).tokens().len() {
                            Some(old(list).tokens()[k + 1])
                        } else {
                            None::<ItemToken>
                        })
                    } else {
                        r is None && *final(list) == *old(list) && *final(self) == *old(self)
                    }
                },
            },
    {
        match self.inner.next(list) {
            None => None,
            Some(p) => Some(p.1),
        }
    }
}

/// Consuming iterator: removes and yields each value from the front in
/// turn, leaving the list it owns progressively emptied.
pub struct IntoIter<T> {
    pub(crate) list: GenerationalTokenList<T>,
}

impl<T> IntoIter<T> {
    /// The values not yet yielded, in order.
    pub open(crate) spec fn remaining(&self) -> Seq<T> {
        self.list@
    }

    /// The owned list is well-formed.
    pub open(crate) spec fn well_formed(&self) -> bool {
        self.list.well_formed()
    }

    /// Removes and returns the first remaining value, or `None` once the
    /// list has been fully consumed.
    pub fn next(&mut self) -> (r: Option<T>)
        requires
            old(self).well_formed(),
        ensures
            final(self).well_formed(),
            old(self).remaining().len() == 0 ==> r is None && final(self).remaining() == old(
                self,
            ).remaining(),
            old(self).remaining().len() > 0 ==> {
                &&& r == Some(old(self).remaining().first())
                &&& final(self).remaining() == old(self).remaining().drop_first()
            },
    {
        self.list.pop_front()
    }
}

impl<T> GenerationalTokenList<T> {
    /// Returns an iterator of references to the values in the list.
    pub fn iter(&self) -> (it: Iter<'_, T>)
        requires
            self.well_formed(),
        ensures
            it.well_formed(),
            it.spec_list() == self,
            it.spec_pos() == 0,
            it.remaining_values() == self@,
    {
        let it = Iter { inner: self.iter_with_tokens() };
        proof {
            assert(it.remaining_values() =~= self@);
        }
        it
    }

    /// Returns an iterator of `(token, &value)` pairs over the list.
    pub fn iter_with_tokens(&self) -> (it: IterWithTokens<'_, T>)
        requires
            self.well_formed(),
        ensures
            it.well_formed(),
            it.spec_list() == self,
            it.spec_pos() == 0,
            it.remaining_values() == self@,
            it.remaining_tokens() == self.tokens(),
    {
        let it = IterWithTokens { list: self, next_item: self.head_token(), pos: Ghost(0) };
        proof {
            assert(it.remaining_values() =~= self@);
            assert(it.remaining_tokens() =~= self.tokens());
        }
        it
    }

    /// Returns a cursor for mutable traversal, positioned at the head.
    /// Each step takes the list again and resolves one token in a fresh
    /// exclusive borrow.
    pub fn iter_mut(&mut self) -> (it: IterMut)
        requires
            old(self).well_formed(),
        ensures
            *final(self) == *old(self),
            it.cursor() == (if old(self).tokens().len() == 0 {
                None::<ItemToken>
            } else {
                Some(old(self).tokens()[0])
            }),
    {
        IterMut { inner: self.iter_with_tokens_mut() }
    }

    /// Returns a token-yielding cursor for mutable traversal, positioned
    /// at the head.  Each step takes the list again and resolves one token
    /// in a fresh exclusive borrow.
    pub fn iter_with_tokens_mut(&mut self) -> (it: IterWithTokensMut)
        requires
            old(self).well_formed(),
        ensures
            *final(self) == *old(self),
            it.cursor() == (if old(self).tokens().len() == 0 {
                None::<ItemToken>
            } else {
                Some(old(self).tokens()[0])
            }),
    {
        IterWithTokensMut { next_item: self.head_token() }
    }

    /// Turns the list into a consuming iterator over its values, front to
    /// back.  After full consumption the structure is empty.
    pub fn into_iter(self) -> (it: IntoIter<T>)
        requires
            self.well_formed(),
        ensures
            it.well_formed(),
            it.remaining() == self@,
    {
        IntoIter { list: self }
    }
}

} // verus!
