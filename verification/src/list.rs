use vstd::prelude::*;

verus! {

use crate::token::ItemToken;

/// One element of the list: the stored value and two navigation links.
/// The links are pure references by token; an item does not own its
/// neighbours, it only knows how to find them in the slot storage.
pub(crate) struct Item<T> {
    pub(crate) data: T,
    pub(crate) previous: Option<ItemToken>,
    pub(crate) next: Option<ItemToken>,
}

/// One storage slot: a generation counter and, when the slot is occupied,
/// an item.  The counter never decreases over the lifetime of a slot; it is
/// bumped each time a freed slot is reused, so stale tokens can never match.
pub(crate) struct Slot<T> {
    pub(crate) generation: u64,
    pub(crate) item: Option<Item<T>>,
}

/// A doubly linked list whose elements live in stable, reusable,
/// generation-checked storage slots and are addressed by copyable
/// [`ItemToken`] handles instead of references.
///
/// The list owns the slot storage and two anchor tokens, `head` and `tail`.
/// Ordering is encoded purely by the `previous`/`next` links of the items
/// plus the anchors; the storage itself has no notion of order.
///
/// The mathematical view of a list is the sequence of its values in
/// head-to-tail order (`self@`), together with the matching sequence of
/// live tokens (`self.tokens()`).
pub struct GenerationalTokenList<T> {
    /// Backing storage; a token's `slot` field indexes into this vector.
    pub(crate) slots: Vec<Slot<T>>,
    /// Indices of slots that are currently free and may be reused.
    pub(crate) free: Vec<usize>,
    /// Token of the first element, or `None` when the list is empty.
    pub(crate) head: Option<ItemToken>,
    /// Token of the last element, or `None` when the list is empty.
    pub(crate) tail: Option<ItemToken>,
    /// Number of elements currently in the list.
    pub(crate) count: usize,
    /// Ghost: the live tokens in head-to-tail order.
    pub(crate) order: Ghost<Seq<ItemToken>>,
    /// Ghost: every token any operation on this list has ever returned.
    pub(crate) minted: Ghost<Set<ItemToken>>,
}

impl<T> View for GenerationalTokenList<T> {
    type V = Seq<T>;

    /// The values of the list in head-to-tail order.
    open(crate) spec fn view(&self) -> Seq<T> {
        Seq::new(self.order@.len(), |k: int| self.slots@[self.order@[k].slot as int].item->0.data)
    }
}

impl<T> Default for GenerationalTokenList<T> {
    /// The default list is the empty list.
    fn default() -> (list: Self)
        ensures
            list.well_formed(),
            list@ == Seq::<T>::empty(),
            list.tokens() == Seq::<ItemToken>::empty(),
            list.issued() == Set::<ItemToken>::empty(),
    {
        Self::new()
    }
}

impl<T> GenerationalTokenList<T> {
    /// The tokens of the current elements, in head-to-tail order.
    /// `self.tokens()[k]` is the token of the value `self@[k]`.
    pub open(crate) spec fn tokens(&self) -> Seq<ItemToken> {
        self.order@
    }

    /// Every token this list has ever handed out, including tokens whose
    /// element has since been removed.  A freshly inserted element always
    /// gets a token outside this set, which is what makes stale tokens
    /// permanently unresolvable.
    pub open(crate) spec fn issued(&self) -> Set<ItemToken> {
        self.minted@
    }

    /// A token is valid iff it currently names an element of the list.
    pub open spec fn valid(&self, token: ItemToken) -> bool {
        self.tokens().contains(token)
    }

    /// The position of a valid token in head-to-tail order.
    pub open spec fn position(&self, token: ItemToken) -> int
        recommends
            self.valid(token),
    {
        self.tokens().index_of(token)
    }

    /// The head anchor as stored; `None` iff the list is empty.
    pub open(crate) spec fn spec_head(&self) -> Option<ItemToken> {
        self.head
    }

    /// The tail anchor as stored; `None` iff the list is empty.
    pub open(crate) spec fn spec_tail(&self) -> Option<ItemToken> {
        self.tail
    }

    /// Number of slots the backing storage currently holds.
    pub open(crate) spec fn spec_capacity(&self) -> nat {
        self.slots@.len()
    }

    /// The forward link stored in the slot a valid token names.
    pub open(crate) spec fn link_next(&self, token: ItemToken) -> Option<ItemToken>
        recommends
            self.valid(token),
    {
        self.item_at(token).next
    }

    /// The backward link stored in the slot a valid token names.
    pub open(crate) spec fn link_prev(&self, token: ItemToken) -> Option<ItemToken>
        recommends
            self.valid(token),
    {
        self.item_at(token).previous
    }

    /// The token's slot exists, is occupied, and carries the token's
    /// generation.  Under `well_formed` this is equivalent to `valid`.
    pub(crate) open spec fn slot_live(&self, t: ItemToken) -> bool {
        &&& (t.slot as int) < self.slots@.len()
        &&& self.slots@[t.slot as int].generation == t.generation
        &&& self.slots@[t.slot as int].item is Some
    }

    /// The item stored in the slot a token names.
    pub(crate) open spec fn item_at(&self, t: ItemToken) -> Item<T>
        recommends
            self.slot_live(t),
    {
        self.slots@[t.slot as int].item->0
    }

    /// The `k`-th token of the order names a live slot whose links point at
    /// the `k-1`-th and `k+1`-th tokens (or nowhere, at the ends).
    pub(crate) open spec fn link_ok(&self, k: int) -> bool {
        let t = self.order@[k];
        &&& self.slot_live(t)
        &&& self.item_at(t).previous == (if k == 0 {
            None::<ItemToken>
        } else {
            Some(self.order@[k - 1])
        })
        &&& self.item_at(t).next == (if k == self.order@.len() - 1 {
            None::<ItemToken>
        } else {
            Some(self.order@[k + 1])
        })
    }

    /// Every occupied slot is named by some token of the order.
    pub(crate) open spec fn covered(&self, i: int) -> bool {
        self.slots@[i].item is Some ==> self.order@.contains(
            ItemToken { slot: i as usize, generation: self.slots@[i].generation },
        )
    }

    /// The `j`-th entry of the free list is an unoccupied slot whose
    /// generation can still be bumped at least once.
    pub(crate) open spec fn free_ok(&self, j: int) -> bool {
        let i = self.free@[j] as int;
        &&& i < self.slots@.len()
        &&& self.slots@[i].item is None
        &&& self.slots@[i].generation < u64::MAX
    }

    /// An issued token never runs ahead of its slot's generation counter.
    /// Reuse bumps the counter, so the next token of a slot is always new.
    pub(crate) open spec fn minted_ok(&self, t: ItemToken) -> bool {
        &&& (t.slot as int) < self.slots@.len()
        &&& t.generation <= self.slots@[t.slot as int].generation
    }

    /// Invariant of the slot storage alone: the free list names distinct,
    /// reusable free slots, and every issued token satisfies `minted_ok`.
    pub(crate) open spec fn storage_ok(&self) -> bool {
        &&& forall|j: int| 0 <= j < self.free@.len() ==> #[trigger] self.free_ok(j)
        &&& forall|j1: int, j2: int|
            0 <= j1 < j2 < self.free@.len() ==> self.free@[j1] != self.free@[j2]
        &&& forall|t: ItemToken| #[trigger] self.minted@.contains(t) ==> self.minted_ok(t)
    }

    /// Invariant of the linked overlay: the ghost order matches the links
    /// and anchors exactly and names every occupied slot exactly once.
    pub(crate) open spec fn links_ok(&self) -> bool {
        &&& self.count == self.order@.len()
        &&& forall|k: int| 0 <= k < self.order@.len() ==> #[trigger] self.link_ok(k)
        &&& forall|k1: int, k2: int|
            0 <= k1 < k2 < self.order@.len() ==> self.order@[k1].slot != self.order@[k2].slot
        &&& forall|i: int| 0 <= i < self.slots@.len() ==> #[trigger] self.covered(i)
        &&& forall|k: int|
            0 <= k < self.order@.len() ==> self.minted@.contains(#[trigger] self.order@[k])
        &&& self.head == (if self.order@.len() == 0 {
            None::<ItemToken>
        } else {
            Some(self.order@[0])
        })
        &&& self.tail == (if self.order@.len() == 0 {
            None::<ItemToken>
        } else {
            Some(self.order@[self.order@.len() - 1])
        })
    }

    /// Well-formedness of the whole structure.  Established by the
    /// constructors and preserved by every operation.
    pub open(crate) spec fn well_formed(&self) -> bool {
        self.storage_ok() && self.links_ok()
    }

    /// A valid token occurs at exactly one position, and the value and
    /// links of its slot are the ones the order prescribes.
    pub(crate) proof fn lemma_token_index(&self, t: ItemToken)
        requires
            self.well_formed(),
            self.valid(t),
        ensures
            0 <= self.position(t) < self.tokens().len(),
            self.tokens()[self.position(t)] == t,
            forall|k: int|
                0 <= k < self.tokens().len() && self.tokens()[k] == t ==> k == self.position(t),
            self.slot_live(t),
            self.item_at(t).data == self@[self.position(t)],
            self.item_at(t).previous == (if self.position(t) == 0 {
                None::<ItemToken>
            } else {
                Some(self.tokens()[self.position(t) - 1])
            }),
            self.item_at(t).next == (if self.position(t) == self.tokens().len() - 1 {
                None::<ItemToken>
            } else {
                Some(self.tokens()[self.position(t) + 1])
            }),
    {
        let k = self.tokens().index_of(t);
        assert(exists|i: int| 0 <= i < self.tokens().len() && self.tokens()[i] == t);
        assert(0 <= k < self.tokens().len() && self.tokens()[k] == t);
        assert(self.link_ok(k));
        assert forall|k2: int|
            0 <= k2 < self.tokens().len() && self.tokens()[k2] == t implies k2 == k by {
            if k2 != k {
                if k2 < k {
                    assert(self.order@[k2].slot != self.order@[k].slot);
                } else {
                    assert(self.order@[k].slot != self.order@[k2].slot);
                }
            }
        }
    }

    /// Under well-formedness, a token resolves against the storage iff it
    /// occurs in the order.
    pub(crate) proof fn lemma_live_is_valid(&self, t: ItemToken)
        requires
            self.well_formed(),
        ensures
            self.slot_live(t) <==> self.valid(t),
    {
        if self.slot_live(t) {
            let i = t.slot as int;
            assert(self.covered(i));
            assert(self.order@.contains(
                ItemToken { slot: t.slot, generation: self.slots@[i].generation },
            ));
            assert(ItemToken { slot: t.slot, generation: self.slots@[i].generation } == t);
        }
        if self.valid(t) {
            self.lemma_token_index(t);
        }
    }

    /// There cannot be more elements than slots.  Used together with
    /// `lemma_count_strict` to show `count` cannot overflow.
    pub(crate) proof fn lemma_count_bound(&self)
        requires
            self.well_formed(),
        ensures
            self.order@.len() <= self.slots@.len(),
            forall|i: int|
                0 <= i < self.slots@.len() && self.slots@[i].item is None
                    ==> self.order@.len() < self.slots@.len(),
    {
        let idxs = self.order@.map_values(|t: ItemToken| t.slot as int);
        assert(idxs.no_duplicates()) by {
            assert forall|k1: int, k2: int|
                0 <= k1 < idxs.len() && 0 <= k2 < idxs.len() && k1 != k2 implies idxs[k1]
                != idxs[k2] by {
                if k1 < k2 {
                    assert(self.order@[k1].slot != self.order@[k2].slot);
                } else {
                    assert(self.order@[k2].slot != self.order@[k1].slot);
                }
            }
        }
        idxs.unique_seq_to_set();
        let range = Set::<int>::new(|i: int| 0 <= i < self.slots@.len());
        vstd::set_lib::lemma_int_range(0, self.slots@.len() as int);
        assert(range =~= vstd::set_lib::set_int_range(0, self.slots@.len() as int));
        assert forall|x: int| idxs.to_set().contains(x) implies range.contains(x) by {
            let k = choose|k: int| 0 <= k < idxs.len() && idxs[k] == x;
            assert(self.link_ok(k));
        }
        assert(idxs.to_set().subset_of(range));
        vstd::set_lib::lemma_len_subset(idxs.to_set(), range);
        assert(self.order@.len() == idxs.to_set().len());
        assert forall|i: int|
            0 <= i < self.slots@.len() && self.slots@[i].item is None implies self.order@.len()
            < self.slots@.len() by {
            let smaller = range.remove(i);
            assert forall|x: int| idxs.to_set().contains(x) implies smaller.contains(x) by {
                let k = choose|k: int| 0 <= k < idxs.len() && idxs[k] == x;
                assert(self.link_ok(k));
                assert(self.slots@[x].item is Some);
            }
            assert(idxs.to_set().subset_of(smaller));
            vstd::set_lib::lemma_len_subset(idxs.to_set(), smaller);
            assert(smaller.len() == range.len() - 1);
        }
    }

    /// With a free slot at hand there is strictly room to spare.
    pub(crate) proof fn lemma_count_strict(&self, i: int)
        requires
            self.well_formed(),
            0 <= i < self.slots@.len(),
            self.slots@[i].item is None,
        ensures
            self.order@.len() < self.slots@.len(),
    {
        self.lemma_count_bound();
        assert(0 <= i < self.slots@.len() && self.slots@[i].item is None);
    }

    /// Creates a new, empty list.
    pub fn new() -> (list: Self)
        ensures
            list.well_formed(),
            list@ == Seq::<T>::empty(),
            list.tokens() == Seq::<ItemToken>::empty(),
            list.issued() == Set::<ItemToken>::empty(),
            list.spec_capacity() == 0,
    {
        let list = GenerationalTokenList {
            slots: Vec::new(),
            free: Vec::new(),
            head: None,
            tail: None,
            count: 0,
            order: Ghost(Seq::empty()),
            minted: Ghost(Set::empty()),
        };
        proof {
            assert(list@ =~= Seq::<T>::empty());
        }
        list
    }

    /// Creates a new, empty list whose storage already holds `n` free
    /// slots, so the first `n` insertions reuse them instead of growing.
    pub fn with_capacity(n: usize) -> (list: Self)
        ensures
            list.well_formed(),
            list@ == Seq::<T>::empty(),
            list.tokens() == Seq::<ItemToken>::empty(),
            list.issued() == Set::<ItemToken>::empty(),
            list.spec_capacity() == n,
    {
        let mut list = Self::new();
        proof {
            if list.free@.len() > 0 {
                assert(list.free_ok(0));
                assert(false);
            }
        }
        let mut i: usize = 0;
        while i < n
            invariant
                0 <= i <= n,
                list.slots@.len() == i,
                list.free@.len() == i,
                forall|j: int|
                    0 <= j < i ==> #[trigger] list.slots@[j] == (Slot {
                        generation: 0u64,
                        item: None::<Item<T>>,
                    }),
                forall|a: int| 0 <= a < i ==> #[trigger] list.free@[a] == a as usize,
                list.head is None,
                list.tail is None,
                list.count == 0,
                list.order@ == Seq::<ItemToken>::empty(),
                list.minted@ == Set::<ItemToken>::empty(),
            decreases n - i,
        {
            list.slots.push(Slot { generation: 0, item: None });
            list.free.push(i);
            i = i + 1;
        }
        proof {
            assert forall|j: int| 0 <= j < list.free@.len() implies #[trigger] list.free_ok(
                j,
            ) by {
                assert(list.free@[j] == j as usize);
                assert(list.slots@[j] == (Slot { generation: 0u64, item: None::<Item<T>> }));
            }
            assert(list@ =~= Seq::<T>::empty());
        }
        list
    }

    /// Returns a reference to the first value, or `None` if the list is
    /// empty.
    pub fn head(&self) -> (r: Option<&T>)
        requires
            self.well_formed(),
        ensures
            r is Some <==> self@.len() > 0,
            self@.len() > 0 ==> r == Some(&self@.first()),
    {
        match self.head {
            None => None,
            Some(t) => {
                proof {
                    assert(self.tokens()[0] == t);
                    assert(self.valid(t));
                    self.lemma_token_index(t);
                }
                self.get(t)
            },
        }
    }

    /// Returns a reference to the last value, or `None` if the list is
    /// empty.
    pub fn tail(&self) -> (r: Option<&T>)
        requires
            self.well_formed(),
        ensures
            r is Some <==> self@.len() > 0,
            self@.len() > 0 ==> r == Some(&self@.last()),
    {
        match self.tail {
            None => None,
            Some(t) => {
                proof {
                    assert(self.tokens()[self.tokens().len() - 1] == t);
                    assert(self.valid(t));
                    self.lemma_token_index(t);
                }
                self.get(t)
            },
        }
    }

    /// Returns the token of the first item, or `None` if the list is empty.
    pub fn head_token(&self) -> (r: Option<ItemToken>)
        requires
            self.well_formed(),
        ensures
            r == self.spec_head(),
            r == (if self.tokens().len() == 0 {
                None::<ItemToken>
            } else {
                Some(self.tokens()[0])
            }),
            r matches Some(t) ==> self.valid(t) && self.position(t) == 0,
    {
        proof {
            if self.tokens().len() > 0 {
                let t = self.tokens()[0];
                assert(self.valid(t));
                self.lemma_token_index(t);
            }
        }
        self.head
    }

    /// Returns the token of the last item, or `None` if the list is empty.
    pub fn tail_token(&self) -> (r: Option<ItemToken>)
        requires
            self.well_formed(),
        ensures
            r == self.spec_tail(),
            r == (if self.tokens().len() == 0 {
                None::<ItemToken>
            } else {
                Some(self.tokens()[self.tokens().len() - 1])
            }),
            r matches Some(t) ==> self.valid(t) && self.position(t) == self.tokens().len() - 1,
    {
        proof {
            if self.tokens().len() > 0 {
                let t = self.tokens()[self.tokens().len() - 1];
                assert(self.valid(t));
                self.lemma_token_index(t);
            }
        }
        self.tail
    }

    /// Returns the number of elements in the list.
    pub fn len(&self) -> (n: usize)
        requires
            self.well_formed(),
        ensures
            n == self@.len(),
    {
        self.count
    }

    /// Returns whether the list is empty.
    pub fn is_empty(&self) -> (r: bool)
        requires
            self.well_formed(),
        ensures
            r <==> self@.len() == 0,
    {
        self.count == 0
    }

    /// Returns the number of slots of the backing storage.
    pub fn capacity(&self) -> (n: usize)
        requires
            self.well_formed(),
        ensures
            n == self.spec_capacity(),
    {
        self.slots.len()
    }

    /// Returns the token of the item that follows the one identified by
    /// `token`, or `None` if that item is the tail.  The token must be
    /// valid: there is no meaningful successor of nothing.
    pub fn next_token(&self, token: ItemToken) -> (r: Option<ItemToken>)
        requires
            self.well_formed(),
            self.valid(token),
        ensures
            r == self.link_next(token),
            r == (if self.position(token) == self.tokens().len() - 1 {
                None::<ItemToken>
            } else {
                Some(self.tokens()[self.position(token) + 1])
            }),
    {
        proof {
            self.lemma_token_index(token);
        }
        match &self.slots[token.slot].item {
            Some(item) => item.next,
            None => {
                proof {
                    assert(false);
                }
                None
            },
        }
    }

    /// Returns the token of the item that precedes the one identified by
    /// `token`, or `None` if that item is the head.  The token must be
    /// valid: there is no meaningful predecessor of nothing.
    pub fn prev_token(&self, token: ItemToken) -> (r: Option<ItemToken>)
        requires
            self.well_formed(),
            self.valid(token),
        ensures
            r == self.link_prev(token),
            r == (if self.position(token) == 0 {
                None::<ItemToken>
            } else {
                Some(self.tokens()[self.position(token) - 1])
            }),
    {
        proof {
            self.lemma_token_index(token);
        }
        match &self.slots[token.slot].item {
            Some(item) => item.previous,
            None => {
                proof {
                    assert(false);
                }
                None
            },
        }
    }

    /// Get a reference to the value the token names, or `None` if the token
    /// is no longer (or never was) valid.
    pub fn get(&self, token: ItemToken) -> (r: Option<&T>)
        requires
            self.well_formed(),
        ensures
            r is Some <==> self.valid(token),
            self.valid(token) ==> r == Some(&self@[self.position(token)]),
    {
        proof {
            self.lemma_live_is_valid(token);
        }
        if token.slot < self.slots.len() {
            let slot = &self.slots[token.slot];
            if slot.generation == token.generation {
                match &slot.item {
                    Some(item) => {
                        proof {
                            self.lemma_token_index(token);
                        }
                        Some(&item.data)
                    },
                    None => None,
                }
            } else {
                None
            }
        } else {
            None
        }
    }
}

} // verus!
