use vstd::prelude::*;

verus! {

use crate::list::{GenerationalTokenList, Item, Slot};
use crate::token::ItemToken;

impl<T> GenerationalTokenList<T> {
    /// The token the next allocation will return: the last free slot with
    /// its generation bumped, or a brand-new slot at the end of storage.
    pub(crate) open spec fn spec_peek(&self) -> ItemToken {
        if self.free@.len() > 0 {
            let i = self.free@[self.free@.len() - 1];
            ItemToken { slot: i, generation: (self.slots@[i as int].generation + 1) as u64 }
        } else {
            ItemToken { slot: self.slots@.len() as usize, generation: 0 }
        }
    }

    /// Computes, without changing anything, the token that `allocate` will
    /// hand out next.  This lets a value be constructed from its own
    /// future token before the slot is filled.
    fn peek_token(&self) -> (t: ItemToken)
        requires
            self.storage_ok(),
        ensures
            t == self.spec_peek(),
    {
        if self.free.len() > 0 {
            let i = self.free[self.free.len() - 1];
            proof {
                assert(self.free_ok(self.free@.len() - 1));
            }
            let g = self.slots[i].generation;
            ItemToken { slot: i, generation: g + 1 }
        } else {
            ItemToken { slot: self.slots.len(), generation: 0 }
        }
    }

    /// Places an item into storage: reuses the last free slot, bumping its
    /// generation, or grows storage by one slot.  Returns the fresh token,
    /// which differs from every token ever issued before.
    fn allocate(&mut self, data: T, previous: Option<ItemToken>, next: Option<ItemToken>) -> (t:
        ItemToken)
        requires
            old(self).storage_ok(),
        ensures
            t == old(self).spec_peek(),
            !old(self).minted@.contains(t),
            final(self).storage_ok(),
            (t.slot as int) < final(self).slots@.len(),
            final(self).slots@[t.slot as int].generation == t.generation,
            final(self).slots@[t.slot as int].item matches Some(it) && it.data == data
                && it.previous == previous && it.next == next,
            final(self).slots@.len() == (if (t.slot as int) < old(self).slots@.len() {
                old(self).slots@.len()
            } else {
                old(self).slots@.len() + 1
            }),
            forall|i: int|
                0 <= i < old(self).slots@.len() && i != t.slot as int ==> final(self).slots@[i]
                    == old(self).slots@[i],
            (t.slot as int) < old(self).slots@.len() ==> old(self).slots@[t.slot as int].item
                is None,
            final(self).minted@ == old(self).minted@.insert(t),
            final(self).head == old(self).head,
            final(self).tail == old(self).tail,
            final(self).count == old(self).count,
            final(self).order@ == old(self).order@,
    {
        let ghost orig = *self;
        match self.free.pop() {
            Some(i) => {
                proof {
                    assert(orig.free_ok(orig.free@.len() - 1));
                }
                let g = self.slots[i].generation;
                let t = ItemToken { slot: i, generation: g + 1 };
                self.slots[i] = Slot { generation: g + 1, item: Some(Item { data, previous, next }) };
                proof {
                    self.minted@ = self.minted@.insert(t);
                    assert forall|j: int| 0 <= j < self.free@.len() implies #[trigger] self
                        .free_ok(j) by {
                        assert(orig.free_ok(j));
                        assert(orig.free@[j] != i as usize);
                    }
                    assert forall|t2: ItemToken| #[trigger] self.minted@.contains(t2)
                        implies self.minted_ok(t2) by {
                        if t2 != t {
                            assert(orig.minted_ok(t2));
                        }
                    }
                }
                t
            },
            None => {
                let t = ItemToken { slot: self.slots.len(), generation: 0 };
                self.slots.push(Slot { generation: 0, item: Some(Item { data, previous, next }) });
                proof {
                    self.minted@ = self.minted@.insert(t);
                    assert forall|t2: ItemToken| #[trigger] self.minted@.contains(t2)
                        implies self.minted_ok(t2) by {
                        if t2 != t {
                            assert(orig.minted_ok(t2));
                        }
                    }
                }
                t
            },
        }
    }

    /// Overwrites the forward link of the occupied slot at index `i`,
    /// leaving its value, its backward link and its generation unchanged.
    fn set_next(&mut self, i: usize, link: Option<ItemToken>)
        requires
            (i as int) < old(self).slots@.len(),
            old(self).slots@[i as int].item is Some,
        ensures
            final(self).slots@.len() == old(self).slots@.len(),
            final(self).slots@[i as int].generation == old(self).slots@[i as int].generation,
            final(self).slots@[i as int].item matches Some(it) && it.data == old(self).slots@[i
                as int].item->0.data && it.previous == old(self).slots@[i as int].item->0.previous
                && it.next == link,
            forall|j: int|
                0 <= j < old(self).slots@.len() && j != i as int ==> final(self).slots@[j] == old(
                self,
            ).slots@[j],
            final(self).free@ == old(self).free@,
            final(self).head == old(self).head,
            final(self).tail == old(self).tail,
            final(self).count == old(self).count,
            final(self).order@ == old(self).order@,
            final(self).minted@ == old(self).minted@,
    {
        let slot = &mut self.slots[i];
        match &mut slot.item {
            Some(item) => {
                item.next = link;
            },
            None => {
                proof {
                    assert(false);
                }
            },
        }
    }

    /// Overwrites the backward link of the occupied slot at index `i`,
    /// leaving its value, its forward link and its generation unchanged.
    fn set_prev(&mut self, i: usize, link: Option<ItemToken>)
        requires
            (i as int) < old(self).slots@.len(),
            old(self).slots@[i as int].item is Some,
        ensures
            final(self).slots@.len() == old(self).slots@.len(),
            final(self).slots@[i as int].generation == old(self).slots@[i as int].generation,
            final(self).slots@[i as int].item matches Some(it) && it.data == old(self).slots@[i
                as int].item->0.data && it.next == old(self).slots@[i as int].item->0.next
                && it.previous == link,
            forall|j: int|
                0 <= j < old(self).slots@.len() && j != i as int ==> final(self).slots@[j] == old(
                self,
            ).slots@[j],
            final(self).free@ == old(self).free@,
            final(self).head == old(self).head,
            final(self).tail == old(self).tail,
            final(self).count == old(self).count,
            final(self).order@ == old(self).order@,
            final(self).minted@ == old(self).minted@,
    {
        let slot = &mut self.slots[i];
        match &mut slot.item {
            Some(item) => {
                item.previous = link;
            },
            None => {
                proof {
                    assert(false);
                }
            },
        }
    }

    /// Inserts the sole element of a previously empty list.
    fn push_only(&mut self, data: T) -> (t: ItemToken)
        requires
            old(self).well_formed(),
            old(self)@.len() == 0,
        ensures
            final(self).well_formed(),
            t == old(self).spec_peek(),
            !old(self).issued().contains(t),
            final(self).issued() == old(self).issued().insert(t),
            final(self).tokens() == old(self).tokens().push(t),
            final(self)@ == old(self)@.push(data),
    {
        let ghost orig = *self;
        let t = self.allocate(data, None, None);
        let ghost mid = *self;
        self.head = Some(t);
        self.tail = Some(t);
        self.count = self.count + 1;
        proof {
            self.order@ = self.order@.push(t);
            assert forall|j: int| 0 <= j < self.free@.len() implies #[trigger] self.free_ok(
                j,
            ) by {
                assert(mid.free_ok(j));
            }
            assert forall|k: int| 0 <= k < self.order@.len() implies #[trigger] self.link_ok(
                k,
            ) by {
                assert(self.order@[k] == t);
            }
            assert forall|i: int| 0 <= i < self.slots@.len() implies #[trigger] self.covered(
                i,
            ) by {
                if i != t.slot as int && i < orig.slots@.len() {
                    assert(orig.covered(i));
                    if orig.slots@[i].item is Some {
                        assert(orig.order@.contains(
                            ItemToken { slot: i as usize, generation: orig.slots@[i].generation },
                        ));
                        assert(false);
                    }
                }
                if i == t.slot as int {
                    assert(self.order@[0] == ItemToken {
                        slot: i as usize,
                        generation: self.slots@[i].generation,
                    });
                }
            }
            assert(self@ =~= orig@.push(data));
            assert(self.order@ =~= orig.order@.push(t));
        }
        t
    }

    /// Insert the item returned by `create` at the end of the list.
    /// `create` receives the token of the element it is creating, so a
    /// value can embed its own handle.  Returns that fresh token.
    pub fn push_back_with<F: FnOnce(ItemToken) -> T>(&mut self, create: F) -> (t: ItemToken)
        requires
            old(self).well_formed(),
            forall|tok: ItemToken| call_requires(create, (tok,)),
        ensures
            final(self).well_formed(),
            !old(self).issued().contains(t),
            final(self).issued() == old(self).issued().insert(t),
            final(self).tokens() == old(self).tokens().push(t),
            final(self)@.len() == old(self)@.len() + 1,
            final(self)@ == old(self)@.push(final(self)@.last()),
            call_ensures(create, (t,), final(self)@.last()),
    {
        let ghost orig = *self;
        let tok = self.peek_token();
        let data = create(tok);
        match self.tail {
            None => {
                proof {
                    if orig.order@.len() > 0 {
                        assert(orig.tail == Some(orig.order@[orig.order@.len() - 1]));
                    }
                }
                let t = self.push_only(data);
                proof {
                    assert(self@ =~= orig@.push(self@.last()));
                }
                t
            },
            Some(old_tail) => {
                proof {
                    assert(orig.link_ok(orig.order@.len() - 1));
                    if orig.free@.len() > 0 {
                        assert(orig.free_ok(orig.free@.len() - 1));
                    }
                }
                let t = self.allocate(data, Some(old_tail), None);
                let ghost mid = *self;
                proof {
                    assert(t.slot != old_tail.slot);
                }
                self.set_next(old_tail.slot, Some(t));
                proof {
                    vstd::std_specs::vec::axiom_spec_len(&self.slots);
                    if orig.free@.len() > 0 {
                        orig.lemma_count_strict(orig.free@[orig.free@.len() - 1] as int);
                    } else {
                        orig.lemma_count_bound();
                    }
                }
                self.tail = Some(t);
                self.count = self.count + 1;
                proof {
                    let n = orig.order@.len() as int;
                    self.order@ = self.order@.push(t);
                    assert forall|k: int| 0 <= k < self.order@.len() implies #[trigger] self
                        .link_ok(k) by {
                        assert(k < n ==> orig.link_ok(k));
                        if k < n - 1 {
                            assert(orig.order@[k].slot != orig.order@[n - 1].slot);
                            assert(orig.slot_live(orig.order@[k]));
                            assert(self.order@[k] == orig.order@[k]);
                        } else if k == n - 1 {
                            assert(self.order@[k] == old_tail);
                        } else {
                            assert(self.order@[k] == t);
                        }
                    }
                    assert forall|k1: int, k2: int|
                        0 <= k1 < k2 < self.order@.len() implies self.order@[k1].slot != self
                        .order@[k2].slot by {
                        if k2 == n {
                            assert(k1 < n ==> orig.link_ok(k1));
                        }
                    }
                    assert forall|i: int| 0 <= i < self.slots@.len() implies #[trigger] self
                        .covered(i) by {
                        if i == t.slot as int {
                            assert(self.order@[n] == ItemToken {
                                slot: i as usize,
                                generation: self.slots@[i].generation,
                            });
                        } else if i < orig.slots@.len() {
                            assert(orig.covered(i));
                            if orig.slots@[i].item is Some {
                                let ti = ItemToken {
                                    slot: i as usize,
                                    generation: orig.slots@[i].generation,
                                };
                                let k = orig.order@.index_of(ti);
                                assert(self.order@[k] == ti);
                                assert(self.slots@[i].generation == orig.slots@[i].generation);
                                assert(self.order@.contains(
                                    ItemToken {
                                        slot: i as usize,
                                        generation: self.slots@[i].generation,
                                    },
                                ));
                            }
                        }
                    }
                    assert forall|k: int| 0 <= k < self.order@.len() implies self.minted@.contains(
                        #[trigger] self.order@[k],
                    ) by {
                        if k < n {
                            assert(orig.minted@.contains(orig.order@[k]));
                        }
                    }
                    assert forall|j: int| 0 <= j < self.free@.len() implies #[trigger] self.free_ok(
                        j,
                    ) by {
                        assert(mid.free_ok(j));
                        assert(mid.free@[j] as int != old_tail.slot as int);
                    }
                    assert forall|j1: int, j2: int|
                        0 <= j1 < j2 < self.free@.len() implies self.free@[j1] != self
                        .free@[j2] by {
                        assert(mid.free@[j1] != mid.free@[j2]);
                    }
                    assert forall|t2: ItemToken| #[trigger] self.minted@.contains(t2)
                        implies self.minted_ok(t2) by {
                        assert(mid.minted_ok(t2));
                    }
                    assert forall|k: int| 0 <= k < self.order@.len() implies self@[k] == orig@.push(
                        data,
                    )[k] by {
                        if k < n {
                            assert(orig.link_ok(k));
                        }
                    }
                    assert(self@ =~= orig@.push(data));
                }
                t
            },
        }
    }

    /// Remove the item identified by the token from the list and return
    /// its value.  The token (and every copy of it) is invalidated.  An
    /// invalid token — stale, or from another list — is reported as
    /// `None` and leaves the list completely unchanged; removing twice is
    /// therefore always safe.
    pub fn remove(&mut self, token: ItemToken) -> (r: Option<T>)
        requires
            old(self).well_formed(),
        ensures
            final(self).well_formed(),
            r is Some <==> old(self).valid(token),
            !old(self).valid(token) ==> *final(self) == *old(self),
            old(self).valid(token) ==> {
                let k = old(self).position(token);
                &&& r == Some(old(self)@[k])
                &&& final(self)@ == old(self)@.remove(k)
                &&& final(self).tokens() == old(self).tokens().remove(k)
                &&& final(self).issued() == old(self).issued()
                &&& !final(self).valid(token)
            },
    {
        let ghost orig = *self;
        proof {
            orig.lemma_live_is_valid(token);
        }
        if token.slot >= self.slots.len() {
            return None;
        }
        let g = self.slots[token.slot].generation;
        if g != token.generation {
            return None;
        }
        if self.slots[token.slot].item.is_none() {
            return None;
        }
        let slot = &mut self.slots[token.slot];
        let taken = slot.item.take();
        match taken {
            None => {
                proof {
                    assert(false);
                }
                None
            },
            Some(item) => {
                let ghost k = orig.position(token);
                proof {
                    orig.lemma_token_index(token);
                    orig.order@.remove_ensures(k);
                }
                if g < u64::MAX {
                    self.free.push(token.slot);
                    proof {
                        assert forall|j: int|
                            0 <= j < self.free@.len() - 1 implies orig.free_ok(j) by {}
                    }
                }
                self.count = self.count - 1;
                let ghost n = orig.order@.len() as int;
                match (item.previous, item.next) {
                    (None, None) => {
                        // sole element: clear both anchors
                        self.head = None;
                        self.tail = None;
                        proof {
                            assert(k == 0 && n == 1);
                            self.order@ = orig.order@.remove(k);
                            self.lemma_remove_restores(orig, token, k);
                        }
                    },
                    (None, Some(nt)) => {
                        // head with a successor: promote the successor
                        proof {
                            assert(k == 0 && n > 1);
                            assert(nt == orig.order@[1]);
                            assert(orig.link_ok(1));
                            assert(orig.order@[0].slot != orig.order@[1].slot);
                        }
                        self.set_prev(nt.slot, None);
                        self.head = Some(nt);
                        proof {
                            self.order@ = orig.order@.remove(k);
                            self.lemma_remove_restores(orig, token, k);
                        }
                    },
                    (Some(pt), None) => {
                        // tail with a predecessor: promote the predecessor
                        proof {
                            assert(k == n - 1 && n > 1);
                            assert(pt == orig.order@[n - 2]);
                            assert(orig.link_ok(n - 2));
                            assert(orig.order@[n - 2].slot != orig.order@[n - 1].slot);
                        }
                        self.set_next(pt.slot, None);
                        self.tail = Some(pt);
                        proof {
                            self.order@ = orig.order@.remove(k);
                            self.lemma_remove_restores(orig, token, k);
                        }
                    },
                    (Some(pt), Some(nt)) => {
                        // interior: cross-link the two neighbours
                        proof {
                            assert(0 < k < n - 1);
                            assert(pt == orig.order@[k - 1]);
                            assert(nt == orig.order@[k + 1]);
                            assert(orig.link_ok(k - 1));
                            assert(orig.link_ok(k + 1));
                            assert(orig.order@[k - 1].slot != orig.order@[k].slot);
                            assert(orig.order@[k].slot != orig.order@[k + 1].slot);
                            assert(orig.order@[k - 1].slot != orig.order@[k + 1].slot);
                        }
                        self.set_prev(nt.slot, Some(pt));
                        self.set_next(pt.slot, Some(nt));
                        proof {
                            self.order@ = orig.order@.remove(k);
                            self.lemma_remove_restores(orig, token, k);
                        }
                    },
                }
                proof {
                    if self.valid(token) {
                        let j = self.order@.index_of(token);
                        assert(0 <= j < self.order@.len() && self.order@[j] == token);
                        if j < k {
                            assert(orig.order@[j] == token);
                            orig.lemma_token_index(token);
                            assert(false);
                        } else {
                            assert(orig.order@[j + 1] == token);
                            orig.lemma_token_index(token);
                            assert(false);
                        }
                    }
                }
                Some(item.data)
            },
        }
    }

    /// Insert the item returned by `create` directly after the item the
    /// valid token `after` identifies; `create` receives the new item's own
    /// token.  When `after` is the tail this degenerates to `push_back_with`.
    #[verifier::rlimit(60)]
    pub fn insert_after_with<F: FnOnce(ItemToken) -> T>(
        &mut self,
        after: ItemToken,
        create: F,
    ) -> (t: ItemToken)
        requires
            old(self).well_formed(),
            old(self).valid(after),
            forall|tok: ItemToken| call_requires(create, (tok,)),
        ensures
            final(self).well_formed(),
            !old(self).issued().contains(t),
            final(self).issued() == old(self).issued().insert(t),
            final(self).tokens() == old(self).tokens().insert(old(self).position(after) + 1, t),
            final(self)@.len() == old(self)@.len() + 1,
            final(self)@ == old(self)@.insert(
                old(self).position(after) + 1,
                final(self)@[old(self).position(after) + 1],
            ),
            call_ensures(create, (t,), final(self)@[old(self).position(after) + 1]),
    {
        let ghost orig = *self;
        let ghost pos = orig.position(after) + 1;
        proof {
            orig.lemma_token_index(after);
        }
        let successor = self.next_token(after);
        match successor {
            None => {
                // `after` is the tail: this is a plain push at the back
                let t = self.push_back_with(create);
                proof {
                    let n = orig.order@.len() as int;
                    assert(pos == n);
                    orig.order@.insert_ensures(pos, t);
                    assert(self.order@ =~= orig.order@.insert(pos, t));
                    orig@.insert_ensures(pos, self@[pos]);
                    assert(self@ =~= orig@.insert(pos, self@[pos]));
                }
                t
            },
            Some(nt) => {
                proof {
                    assert(nt == orig.order@[pos]);
                    assert(orig.link_ok(pos));
                    assert(orig.order@[pos - 1].slot != orig.order@[pos].slot);
                    if orig.free@.len() > 0 {
                        assert(orig.free_ok(orig.free@.len() - 1));
                    }
                }
                let tok = self.peek_token();
                let data = create(tok);
                let t = self.allocate(data, Some(after), Some(nt));
                let ghost mid = *self;
                proof {
                    assert(t.slot != after.slot);
                    assert(t.slot != nt.slot);
                }
                self.set_next(after.slot, Some(t));
                self.set_prev(nt.slot, Some(t));
                proof {
                    vstd::std_specs::vec::axiom_spec_len(&self.slots);
                    if orig.free@.len() > 0 {
                        orig.lemma_count_strict(orig.free@[orig.free@.len() - 1] as int);
                    } else {
                        orig.lemma_count_bound();
                    }
                }
                self.count = self.count + 1;
                proof {
                    let n = orig.order@.len() as int;
                    self.order@ = orig.order@.insert(pos, t);
                    orig.order@.insert_ensures(pos, t);
                    assert forall|k: int| 0 <= k < self.order@.len() implies #[trigger] self
                        .link_ok(k) by {
                        let j = if k < pos {
                            k
                        } else {
                            k - 1
                        };
                        if k != pos {
                            assert(orig.link_ok(j));
                            assert(self.order@[k] == orig.order@[j]);
                            if j != pos - 1 && j != pos {
                                if j < pos - 1 {
                                    assert(orig.order@[j].slot != orig.order@[pos - 1].slot);
                                    assert(orig.order@[j].slot != orig.order@[pos].slot);
                                } else {
                                    assert(orig.order@[pos - 1].slot != orig.order@[j].slot);
                                    assert(orig.order@[pos].slot != orig.order@[j].slot);
                                }
                                assert(orig.slot_live(orig.order@[j]));
                                assert(self.slots@[orig.order@[j].slot as int] == orig.slots@[orig
                                    .order@[j].slot as int]);
                            }
                        }
                        if k > 0 {
                            let jp = if k - 1 < pos {
                                k - 1
                            } else {
                                k - 2
                            };
                            if k - 1 != pos {
                                assert(self.order@[k - 1] == orig.order@[jp]);
                            } else {
                                assert(self.order@[k - 1] == t);
                            }
                        }
                        if k < self.order@.len() - 1 {
                            let js = if k + 1 < pos {
                                k + 1
                            } else {
                                k
                            };
                            if k + 1 != pos {
                                assert(self.order@[k + 1] == orig.order@[js]);
                            } else {
                                assert(self.order@[k + 1] == t);
                            }
                        }
                    }
                    assert forall|k1: int, k2: int|
                        0 <= k1 < k2 < self.order@.len() implies self.order@[k1].slot != self
                        .order@[k2].slot by {
                        let j1 = if k1 < pos {
                            k1
                        } else {
                            k1 - 1
                        };
                        let j2 = if k2 < pos {
                            k2
                        } else {
                            k2 - 1
                        };
                        if k1 == pos {
                            assert(orig.link_ok(j2));
                        } else if k2 == pos {
                            assert(orig.link_ok(j1));
                        } else {
                            assert(orig.order@[j1].slot != orig.order@[j2].slot);
                        }
                    }
                    assert forall|i: int| 0 <= i < self.slots@.len() implies #[trigger] self
                        .covered(i) by {
                        if i == t.slot as int {
                            assert(self.order@[pos] == ItemToken {
                                slot: i as usize,
                                generation: self.slots@[i].generation,
                            });
                        } else if i < orig.slots@.len() {
                            assert(orig.covered(i));
                            if orig.slots@[i].item is Some {
                                let ti = ItemToken {
                                    slot: i as usize,
                                    generation: orig.slots@[i].generation,
                                };
                                let j = orig.order@.index_of(ti);
                                assert(0 <= j < n && orig.order@[j] == ti);
                                if j < pos {
                                    assert(self.order@[j] == ti);
                                } else {
                                    assert(self.order@[j + 1] == ti);
                                }
                                assert(self.slots@[i].generation == orig.slots@[i].generation);
                                assert(self.order@.contains(
                                    ItemToken {
                                        slot: i as usize,
                                        generation: self.slots@[i].generation,
                                    },
                                ));
                            }
                        }
                    }
                    assert forall|k: int| 0 <= k < self.order@.len() implies self.minted@.contains(
                        #[trigger] self.order@[k],
                    ) by {
                        if k != pos {
                            let j = if k < pos {
                                k
                            } else {
                                k - 1
                            };
                            assert(orig.minted@.contains(orig.order@[j]));
                        }
                    }
                    assert forall|j: int| 0 <= j < self.free@.len() implies #[trigger] self.free_ok(
                        j,
                    ) by {
                        assert(mid.free_ok(j));
                        assert(mid.free@[j] as int != after.slot as int);
                        assert(mid.free@[j] as int != nt.slot as int);
                    }
                    assert forall|j1: int, j2: int|
                        0 <= j1 < j2 < self.free@.len() implies self.free@[j1] != self
                        .free@[j2] by {
                        assert(mid.free@[j1] != mid.free@[j2]);
                    }
                    assert forall|t2: ItemToken| #[trigger] self.minted@.contains(t2)
                        implies self.minted_ok(t2) by {
                        assert(mid.minted_ok(t2));
                    }
                    assert forall|k: int| 0 <= k < self.order@.len() implies self@[k] == orig@
                        .insert(pos, data)[k] by {
                        orig@.insert_ensures(pos, data);
                        if k != pos {
                            let j = if k < pos {
                                k
                            } else {
                                k - 1
                            };
                            assert(orig.link_ok(j));
                        }
                    }
                    assert(self@ =~= orig@.insert(pos, data));
                    assert(self@[pos] == data);
                }
                t
            },
        }
    }

    /// Insert a new item directly after the item the valid token `after`
    /// identifies.  Returns a token which corresponds to the new item.
    pub fn insert_after(&mut self, after: ItemToken, data: T) -> (t: ItemToken)
        requires
            old(self).well_formed(),
            old(self).valid(after),
        ensures
            final(self).well_formed(),
            !old(self).issued().contains(t),
            final(self).issued() == old(self).issued().insert(t),
            final(self).tokens() == old(self).tokens().insert(old(self).position(after) + 1, t),
            final(self)@ == old(self)@.insert(old(self).position(after) + 1, data),
    {
        let create = |token: ItemToken| -> (v: T)
            ensures
                v == data,
            {
                data
            };
        let r = self.insert_after_with(after, create);
        proof {
            assert(self@ =~= old(self)@.insert(old(self).position(after) + 1, data));
        }
        r
    }

    /// Insert the item returned by `create` directly before the item the
    /// valid token `before` identifies; `create` receives the new item's
    /// own token.  When `before` is the head this degenerates to
    /// `push_front_with`; otherwise it is an insertion after `before`'s
    /// predecessor.
    pub fn insert_before_with<F: FnOnce(ItemToken) -> T>(
        &mut self,
        before: ItemToken,
        create: F,
    ) -> (t: ItemToken)
        requires
            old(self).well_formed(),
            old(self).valid(before),
            forall|tok: ItemToken| call_requires(create, (tok,)),
        ensures
            final(self).well_formed(),
            !old(self).issued().contains(t),
            final(self).issued() == old(self).issued().insert(t),
            final(self).tokens() == old(self).tokens().insert(old(self).position(before), t),
            final(self)@.len() == old(self)@.len() + 1,
            final(self)@ == old(self)@.insert(
                old(self).position(before),
                final(self)@[old(self).position(before)],
            ),
            call_ensures(create, (t,), final(self)@[old(self).position(before)]),
    {
        let ghost orig = *self;
        let ghost pos = orig.position(before);
        proof {
            orig.lemma_token_index(before);
        }
        let predecessor = self.prev_token(before);
        match predecessor {
            None => {
                // `before` is the head: this is a plain push at the front
                let t = self.push_front_with(create);
                proof {
                    assert(pos == 0);
                    assert(self@.first() == self@[pos]);
                }
                t
            },
            Some(pt) => {
                proof {
                    assert(pt == orig.order@[pos - 1]);
                    assert(self.tokens()[pos - 1] == pt);
                    assert(self.valid(pt));
                    orig.lemma_token_index(pt);
                    assert(orig.position(pt) == pos - 1);
                }
                self.insert_after_with(pt, create)
            },
        }
    }

    /// Insert a new item directly before the item the valid token `before`
    /// identifies.  Returns a token which corresponds to the new item.
    pub fn insert_before(&mut self, before: ItemToken, data: T) -> (t: ItemToken)
        requires
            old(self).well_formed(),
            old(self).valid(before),
        ensures
            final(self).well_formed(),
            !old(self).issued().contains(t),
            final(self).issued() == old(self).issued().insert(t),
            final(self).tokens() == old(self).tokens().insert(old(self).position(before), t),
            final(self)@ == old(self)@.insert(old(self).position(before), data),
    {
        let create = |token: ItemToken| -> (v: T)
            ensures
                v == data,
            {
                data
            };
        let r = self.insert_before_with(before, create);
        proof {
            assert(self@ =~= old(self)@.insert(old(self).position(before), data));
        }
        r
    }

    /// Remove the first item from the list and return it, or `None` if the
    /// list is empty.  Tokens pointing at the removed head are invalidated.
    pub fn pop_front(&mut self) -> (r: Option<T>)
        requires
            old(self).well_formed(),
        ensures
            final(self).well_formed(),
            old(self)@.len() == 0 ==> r is None && *final(self) == *old(self),
            old(self)@.len() > 0 ==> {
                &&& r == Some(old(self)@.first())
                &&& final(self)@ == old(self)@.drop_first()
                &&& final(self).tokens() == old(self).tokens().drop_first()
                &&& final(self).issued() == old(self).issued()
            },
    {
        match self.head {
            None => None,
            Some(t) => {
                proof {
                    assert(self.tokens()[0] == t);
                    assert(self.valid(t));
                    self.lemma_token_index(t);
                    assert(self.position(t) == 0);
                }
                let r = self.remove(t);
                proof {
                    assert(old(self)@.remove(0) =~= old(self)@.drop_first());
                    assert(old(self).tokens().remove(0) =~= old(self).tokens().drop_first());
                }
                r
            },
        }
    }

    /// Remove the last item from the list and return it, or `None` if the
    /// list is empty.  Tokens pointing at the removed tail are invalidated.
    pub fn pop_back(&mut self) -> (r: Option<T>)
        requires
            old(self).well_formed(),
        ensures
            final(self).well_formed(),
            old(self)@.len() == 0 ==> r is None && *final(self) == *old(self),
            old(self)@.len() > 0 ==> {
                &&& r == Some(old(self)@.last())
                &&& final(self)@ == old(self)@.drop_last()
                &&& final(self).tokens() == old(self).tokens().drop_last()
                &&& final(self).issued() == old(self).issued()
            },
    {
        match self.tail {
            None => None,
            Some(t) => {
                proof {
                    let n = self.tokens().len() as int;
                    assert(self.tokens()[n - 1] == t);
                    assert(self.valid(t));
                    self.lemma_token_index(t);
                    assert(self.position(t) == n - 1);
                }
                let r = self.remove(t);
                proof {
                    let n = old(self).tokens().len() as int;
                    assert(old(self)@.remove(n - 1) =~= old(self)@.drop_last());
                    assert(old(self).tokens().remove(n - 1) =~= old(self).tokens().drop_last());
                }
                r
            },
        }
    }

    /// Remove all items from the list in one step, keeping the storage.
    /// Every token ever issued becomes (or stays) invalid.
    pub fn clear(&mut self)
        requires
            old(self).well_formed(),
        ensures
            final(self).well_formed(),
            final(self)@ == Seq::<T>::empty(),
            final(self).tokens() == Seq::<ItemToken>::empty(),
            final(self).issued() == old(self).issued(),
            final(self).spec_capacity() == old(self).spec_capacity(),
    {
        let ghost orig = *self;
        let n = self.slots.len();
        self.free.clear();
        self.head = None;
        self.tail = None;
        self.count = 0;
        proof {
            self.order@ = Seq::empty();
        }
        let mut i: usize = 0;
        while i < n
            invariant
                0 <= i <= n,
                n == self.slots@.len(),
                self.count == 0,
                self.head is None,
                self.tail is None,
                self.order@ == Seq::<ItemToken>::empty(),
                self.minted@ == orig.minted@,
                self.slots@.len() == orig.slots@.len(),
                forall|j: int|
                    0 <= j < i ==> #[trigger] self.slots@[j].generation == orig.slots@[j].generation
                        && self.slots@[j].item is None,
                forall|j: int| i <= j < n ==> #[trigger] self.slots@[j] == orig.slots@[j],
                forall|a: int|
                    0 <= a < self.free@.len() ==> (#[trigger] self.free@[a] as int) < i as int,
                forall|a: int|
                    0 <= a < self.free@.len() ==> self.slots@[#[trigger] self.free@[a] as int].item
                        is None && self.slots@[self.free@[a] as int].generation < u64::MAX,
                forall|a1: int, a2: int|
                    0 <= a1 < a2 < self.free@.len() ==> self.free@[a1] != self.free@[a2],
            decreases n - i,
        {
            let g = self.slots[i].generation;
            proof {
                assert(self.slots@[i as int] == orig.slots@[i as int]);
            }
            self.slots[i] = Slot { generation: g, item: None };
            if g < u64::MAX {
                self.free.push(i);
            }
            proof {
                assert(self.slots@[i as int].generation == orig.slots@[i as int].generation);
                assert(self.slots@[i as int].item is None);
            }
            i = i + 1;
        }
        proof {
            assert forall|j: int| 0 <= j < self.free@.len() implies #[trigger] self.free_ok(
                j,
            ) by {}
            assert forall|t2: ItemToken| #[trigger] self.minted@.contains(t2)
                implies self.minted_ok(t2) by {
                assert(orig.minted_ok(t2));
            }
            assert(self@ =~= Seq::<T>::empty());
        }
    }

    /// After the neighbour links of the element at position `k` have been
    /// patched and the ghost order shrunk, the whole invariant holds again.
    proof fn lemma_remove_restores(self, orig: Self, token: ItemToken, k: int)
        requires
            orig.well_formed(),
            0 <= k < orig.order@.len(),
            orig.order@[k] == token,
            self.order@ == orig.order@.remove(k),
            self.count == orig.order@.len() - 1,
            self.minted@ == orig.minted@,
            // storage frame: same length, the token's slot freed at the same
            // generation, the neighbours' links patched, all else unchanged
            self.slots@.len() == orig.slots@.len(),
            self.slots@[token.slot as int].generation == token.generation,
            self.slots@[token.slot as int].item is None,
            forall|i: int|
                0 <= i < orig.slots@.len() && i != token.slot as int ==> #[trigger] self.slots@[i].generation
                    == orig.slots@[i].generation && self.slots@[i].item is Some == orig.slots@[i].item
                    is Some,
            forall|i: int|
                0 <= i < orig.slots@.len() && i != token.slot as int && (k == 0 || i != orig.order@[
                    k - 1].slot as int) && (k == orig.order@.len() - 1 || i != orig.order@[k
                    + 1].slot as int) ==> #[trigger] self.slots@[i] == orig.slots@[i],
            k > 0 ==> ({
                let p = orig.order@[k - 1];
                &&& self.slots@[p.slot as int].item->0.data == orig.slots@[p.slot as int].item->0.data
                &&& self.slots@[p.slot as int].item->0.previous == orig.slots@[p.slot
                    as int].item->0.previous
                &&& self.slots@[p.slot as int].item->0.next == (if k < orig.order@.len() - 1 {
                    Some(orig.order@[k + 1])
                } else {
                    None::<ItemToken>
                })
            }),
            k < orig.order@.len() - 1 ==> ({
                let s = orig.order@[k + 1];
                &&& self.slots@[s.slot as int].item->0.data == orig.slots@[s.slot as int].item->0.data
                &&& self.slots@[s.slot as int].item->0.next == orig.slots@[s.slot as int].item->0.next
                &&& self.slots@[s.slot as int].item->0.previous == (if k > 0 {
                    Some(orig.order@[k - 1])
                } else {
                    None::<ItemToken>
                })
            }),
            // free list: unchanged, or the freed slot appended while its
            // generation can still be bumped
            self.free@ == orig.free@ || (self.free@ == orig.free@.push(token.slot)
                && self.slots@[token.slot as int].generation < u64::MAX),
            self.head == (if self.order@.len() == 0 {
                None::<ItemToken>
            } else {
                Some(self.order@[0])
            }),
            self.tail == (if self.order@.len() == 0 {
                None::<ItemToken>
            } else {
                Some(self.order@[self.order@.len() - 1])
            }),
        ensures
            self.well_formed(),
            self@ == orig@.remove(k),
    {
        let n = orig.order@.len() as int;
        vstd::std_specs::vec::axiom_spec_len(&self.slots);
        vstd::std_specs::vec::axiom_spec_len(&orig.slots);
        orig.order@.remove_ensures(k);
        orig.lemma_token_index(token);
        if k > 0 {
            assert(orig.link_ok(k - 1));
        }
        if k < n - 1 {
            assert(orig.link_ok(k + 1));
        }
        assert forall|k2: int| 0 <= k2 < self.order@.len() implies #[trigger] self.link_ok(
            k2,
        ) by {
            let j = if k2 < k {
                k2
            } else {
                k2 + 1
            };
            let t2 = orig.order@[j];
            assert(orig.link_ok(j));
            assert(self.order@[k2] == t2);
            if j < k {
                assert(orig.order@[j].slot != orig.order@[k].slot);
            } else {
                assert(orig.order@[k].slot != orig.order@[j].slot);
            }
            if j == k - 1 || j == k + 1 {
                // a patched neighbour: its links are given by the frame
                assert(self.slots@[t2.slot as int].generation == orig.slots@[t2.slot
                    as int].generation);
                assert(self.slots@[t2.slot as int].item is Some);
            } else {
                if k > 0 {
                    if j < k - 1 {
                        assert(orig.order@[j].slot != orig.order@[k - 1].slot);
                    } else {
                        assert(orig.order@[k - 1].slot != orig.order@[j].slot);
                    }
                }
                if k < n - 1 {
                    if j < k + 1 {
                        assert(orig.order@[j].slot != orig.order@[k + 1].slot);
                    } else {
                        assert(orig.order@[k + 1].slot != orig.order@[j].slot);
                    }
                }
                assert(self.slots@[t2.slot as int] == orig.slots@[t2.slot as int]);
            }
            if k2 > 0 {
                let jp = if k2 - 1 < k {
                    k2 - 1
                } else {
                    k2
                };
                assert(self.order@[k2 - 1] == orig.order@[jp]);
            }
            if k2 < self.order@.len() - 1 {
                let js = if k2 + 1 < k {
                    k2 + 1
                } else {
                    k2 + 2
                };
                assert(self.order@[k2 + 1] == orig.order@[js]);
            }
            assert(self.item_at(t2).previous == (if k2 == 0 {
                None::<ItemToken>
            } else {
                Some(self.order@[k2 - 1])
            }));
            assert(self.item_at(t2).next == (if k2 == self.order@.len() - 1 {
                None::<ItemToken>
            } else {
                Some(self.order@[k2 + 1])
            }));
        }
        assert forall|k1: int, k2: int|
            0 <= k1 < k2 < self.order@.len() implies self.order@[k1].slot != self
            .order@[k2].slot by {
            let j1 = if k1 < k {
                k1
            } else {
                k1 + 1
            };
            let j2 = if k2 < k {
                k2
            } else {
                k2 + 1
            };
            assert(orig.order@[j1].slot != orig.order@[j2].slot);
        }
        assert forall|i: int| 0 <= i < self.slots@.len() implies #[trigger] self.covered(i) by {
            if i != token.slot as int && self.slots@[i].item is Some {
                assert(orig.covered(i));
                let ti = ItemToken { slot: i as usize, generation: orig.slots@[i].generation };
                assert(orig.order@.contains(ti));
                let j = orig.order@.index_of(ti);
                assert(0 <= j < n && orig.order@[j] == ti);
                assert(j != k);
                if j < k {
                    assert(self.order@[j] == ti);
                } else {
                    assert(self.order@[j - 1] == ti);
                }
                assert(self.slots@[i].generation == orig.slots@[i].generation);
                assert(self.order@.contains(
                    ItemToken { slot: i as usize, generation: self.slots@[i].generation },
                ));
            }
        }
        assert forall|k2: int| 0 <= k2 < self.order@.len() implies self.minted@.contains(
            #[trigger] self.order@[k2],
        ) by {
            let j = if k2 < k {
                k2
            } else {
                k2 + 1
            };
            assert(orig.minted@.contains(orig.order@[j]));
        }
        assert forall|j: int| 0 <= j < self.free@.len() implies #[trigger] self.free_ok(j) by {
            if j < orig.free@.len() {
                assert(orig.free_ok(j));
                assert(orig.slots@[orig.free@[j] as int].item is None);
                assert(orig.free@[j] as int != token.slot as int);
                if k > 0 {
                    assert(orig.free@[j] as int != orig.order@[k - 1].slot as int);
                }
                if k < n - 1 {
                    assert(orig.free@[j] as int != orig.order@[k + 1].slot as int);
                }
            } else {
                assert(self.free@[j] == token.slot);
            }
        }
        assert forall|j1: int, j2: int|
            0 <= j1 < j2 < self.free@.len() implies self.free@[j1] != self.free@[j2] by {
            if j2 < orig.free@.len() {
                assert(orig.free@[j1] != orig.free@[j2]);
            } else {
                assert(orig.free_ok(j1));
                assert(orig.slots@[orig.free@[j1] as int].item is None);
            }
        }
        assert forall|t2: ItemToken| #[trigger] self.minted@.contains(t2)
            implies self.minted_ok(t2) by {
            assert(orig.minted_ok(t2));
        }
        assert forall|k2: int| 0 <= k2 < self.order@.len() implies self@[k2] == orig@.remove(
            k,
        )[k2] by {
            let j = if k2 < k {
                k2
            } else {
                k2 + 1
            };
            assert(orig.link_ok(j));
            assert(self.order@[k2] == orig.order@[j]);
        }
        assert(self@ =~= orig@.remove(k));
    }

    /// Insert the item returned by `create` at the beginning of the list.
    /// `create` receives the token of the element it is creating, so a
    /// value can embed its own handle.  Returns that fresh token.
    pub fn push_front_with<F: FnOnce(ItemToken) -> T>(&mut self, create: F) -> (t: ItemToken)
        requires
            old(self).well_formed(),
            forall|tok: ItemToken| call_requires(create, (tok,)),
        ensures
            final(self).well_formed(),
            !old(self).issued().contains(t),
            final(self).issued() == old(self).issued().insert(t),
            final(self).tokens() == old(self).tokens().insert(0, t),
            final(self)@.len() == old(self)@.len() + 1,
            final(self)@ == old(self)@.insert(0, final(self)@.first()),
            call_ensures(create, (t,), final(self)@.first()),
    {
        let ghost orig = *self;
        let tok = self.peek_token();
        let data = create(tok);
        match self.head {
            None => {
                proof {
                    if orig.order@.len() > 0 {
                        assert(orig.head == Some(orig.order@[0]));
                    }
                }
                let t = self.push_only(data);
                proof {
                    assert(self@ =~= orig@.insert(0, self@.first()));
                    assert(self.order@ =~= orig.order@.insert(0, t));
                }
                t
            },
            Some(old_head) => {
                proof {
                    assert(orig.link_ok(0));
                    if orig.free@.len() > 0 {
                        assert(orig.free_ok(orig.free@.len() - 1));
                    }
                }
                let t = self.allocate(data, None, Some(old_head));
                let ghost mid = *self;
                proof {
                    assert(t.slot != old_head.slot);
                }
                self.set_prev(old_head.slot, Some(t));
                proof {
                    vstd::std_specs::vec::axiom_spec_len(&self.slots);
                    if orig.free@.len() > 0 {
                        orig.lemma_count_strict(orig.free@[orig.free@.len() - 1] as int);
                    } else {
                        orig.lemma_count_bound();
                    }
                }
                self.head = Some(t);
                self.count = self.count + 1;
                proof {
                    let n = orig.order@.len() as int;
                    self.order@ = orig.order@.insert(0, t);
                    orig.order@.insert_ensures(0, t);
                    assert forall|k: int| 0 <= k < self.order@.len() implies #[trigger] self
                        .link_ok(k) by {
                        if k == 0 {
                            assert(self.order@[k] == t);
                        } else {
                            assert(orig.link_ok(k - 1));
                            assert(self.order@[k] == orig.order@[k - 1]);
                            if k > 1 {
                                assert(orig.order@[k - 1].slot != orig.order@[0].slot);
                                assert(self.order@[k - 1] == orig.order@[k - 2]);
                            } else {
                                assert(self.order@[k] == old_head);
                            }
                            if k < n {
                                assert(self.order@[k + 1] == orig.order@[k]);
                            }
                        }
                    }
                    assert forall|k1: int, k2: int|
                        0 <= k1 < k2 < self.order@.len() implies self.order@[k1].slot != self
                        .order@[k2].slot by {
                        if k1 == 0 {
                            assert(k2 - 1 < n ==> orig.link_ok(k2 - 1));
                        } else {
                            assert(orig.order@[k1 - 1].slot != orig.order@[k2 - 1].slot);
                        }
                    }
                    assert forall|i: int| 0 <= i < self.slots@.len() implies #[trigger] self
                        .covered(i) by {
                        if i == t.slot as int {
                            assert(self.order@[0] == ItemToken {
                                slot: i as usize,
                                generation: self.slots@[i].generation,
                            });
                        } else if i < orig.slots@.len() {
                            assert(orig.covered(i));
                            if orig.slots@[i].item is Some {
                                let ti = ItemToken {
                                    slot: i as usize,
                                    generation: orig.slots@[i].generation,
                                };
                                let k = orig.order@.index_of(ti);
                                assert(self.order@[k + 1] == ti);
                                assert(self.slots@[i].generation == orig.slots@[i].generation);
                                assert(self.order@.contains(
                                    ItemToken {
                                        slot: i as usize,
                                        generation: self.slots@[i].generation,
                                    },
                                ));
                            }
                        }
                    }
                    assert forall|k: int| 0 <= k < self.order@.len() implies self.minted@.contains(
                        #[trigger] self.order@[k],
                    ) by {
                        if k > 0 {
                            assert(orig.minted@.contains(orig.order@[k - 1]));
                        }
                    }
                    assert forall|j: int| 0 <= j < self.free@.len() implies #[trigger] self.free_ok(
                        j,
                    ) by {
                        assert(mid.free_ok(j));
                        assert(mid.free@[j] as int != old_head.slot as int);
                    }
                    assert forall|j1: int, j2: int|
                        0 <= j1 < j2 < self.free@.len() implies self.free@[j1] != self
                        .free@[j2] by {
                        assert(mid.free@[j1] != mid.free@[j2]);
                    }
                    assert forall|t2: ItemToken| #[trigger] self.minted@.contains(t2)
                        implies self.minted_ok(t2) by {
                        assert(mid.minted_ok(t2));
                    }
                    assert forall|k: int| 0 <= k < self.order@.len() implies self@[k] == orig@
                        .insert(0, data)[k] by {
                        orig@.insert_ensures(0, data);
                        if k > 0 {
                            assert(orig.link_ok(k - 1));
                        }
                    }
                    assert(self@ =~= orig@.insert(0, data));
                    assert(self@.first() == data);
                }
                t
            },
        }
    }

    /// Insert a new item at the beginning of the list.  Returns a fresh
    /// token which corresponds to the new item.
    pub fn push_front(&mut self, data: T) -> (t: ItemToken)
        requires
            old(self).well_formed(),
        ensures
            final(self).well_formed(),
            !old(self).issued().contains(t),
            final(self).issued() == old(self).issued().insert(t),
            final(self).tokens() == old(self).tokens().insert(0, t),
            final(self)@ == old(self)@.insert(0, data),
    {
        let create = |token: ItemToken| -> (v: T)
            ensures
                v == data,
            {
                data
            };
        let r = self.push_front_with(create);
        proof {
            assert(self@ =~= old(self)@.insert(0, data));
        }
        r
    }

    /// Insert a new item at the end of the list.  Returns a fresh token
    /// which corresponds to the new item.
    pub fn push_back(&mut self, data: T) -> (t: ItemToken)
        requires
            old(self).well_formed(),
        ensures
            final(self).well_formed(),
            !old(self).issued().contains(t),
            final(self).issued() == old(self).issued().insert(t),
            final(self).tokens() == old(self).tokens().push(t),
            final(self)@ == old(self)@.push(data),
    {
        let create = |token: ItemToken| -> (v: T)
            ensures
                v == data,
            {
                data
            };
        let r = self.push_back_with(create);
        proof {
            assert(self@ =~= old(self)@.push(data));
        }
        r
    }
}

} // verus!
