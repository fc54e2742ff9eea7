use vstd::prelude::*;

verus! {

use crate::list::GenerationalTokenList;
use crate::token::ItemToken;

/// Law: every token that currently names an element was issued by this
/// list at some earlier insertion.  Since every insertion returns a token
/// outside `issued()` and only ever adds it, a removed token can never
/// resolve again: any later insertion hands out a token different from
/// every token issued before, even when it reuses the same storage slot.
pub proof fn lemma_valid_tokens_were_issued<T>(list: &GenerationalTokenList<T>, token: ItemToken)
    requires
        list.well_formed(),
        list.valid(token),
    ensures
        list.issued().contains(token),
{
    list.lemma_token_index(token);
}

/// Law: the forward and backward walks are exact mirrors.  Following
/// `next` from position `k` reaches position `k + 1`, following
/// `previous` reaches position `k - 1`, and the walks end exactly at the
/// tail and the head.
pub proof fn lemma_links_mirror<T>(list: &GenerationalTokenList<T>)
    requires
        list.well_formed(),
    ensures
        forall|k: int|
            0 <= k < list.tokens().len() ==> #[trigger] list.link_next(list.tokens()[k]) == (if k
                + 1 == list.tokens().len() {
                None::<ItemToken>
            } else {
                Some(list.tokens()[k + 1])
            }),
        forall|k: int|
            0 <= k < list.tokens().len() ==> #[trigger] list.link_prev(list.tokens()[k]) == (if k
                == 0 {
                None::<ItemToken>
            } else {
                Some(list.tokens()[k - 1])
            }),
{
    assert forall|k: int| 0 <= k < list.tokens().len() implies #[trigger] list.link_next(
        list.tokens()[k],
    ) == (if k + 1 == list.tokens().len() {
        None::<ItemToken>
    } else {
        Some(list.tokens()[k + 1])
    }) by {
        assert(list.link_ok(k));
    }
    assert forall|k: int| 0 <= k < list.tokens().len() implies #[trigger] list.link_prev(
        list.tokens()[k],
    ) == (if k == 0 {
        None::<ItemToken>
    } else {
        Some(list.tokens()[k - 1])
    }) by {
        assert(list.link_ok(k));
    }
}

/// Law: the anchors and the contents agree after every operation: the
/// head anchor is absent exactly when the list is empty, likewise the
/// tail anchor, and otherwise they name the first and last tokens.
pub proof fn lemma_anchor_consistency<T>(list: &GenerationalTokenList<T>)
    requires
        list.well_formed(),
    ensures
        list.spec_head() is None <==> list@.len() == 0,
        list.spec_tail() is None <==> list@.len() == 0,
        list@.len() == list.tokens().len(),
        list@.len() > 0 ==> list.spec_head() == Some(list.tokens()[0]),
        list@.len() > 0 ==> list.spec_tail() == Some(list.tokens()[list.tokens().len() - 1]),
{
}

/// Law: every token of the order is valid and sits at exactly the
/// position the order gives it, so `tokens()` and `position` are inverse
/// to one another.
pub proof fn lemma_token_positions<T>(list: &GenerationalTokenList<T>)
    requires
        list.well_formed(),
    ensures
        forall|k: int|
            0 <= k < list.tokens().len() ==> list.valid(#[trigger] list.tokens()[k])
                && list.position(list.tokens()[k]) == k,
{
    assert forall|k: int| 0 <= k < list.tokens().len() implies list.valid(
        #[trigger] list.tokens()[k],
    ) && list.position(list.tokens()[k]) == k by {
        assert(list.valid(list.tokens()[k]));
        list.lemma_token_index(list.tokens()[k]);
    }
}

/// Law: two different valid tokens always name two different positions,
/// so exclusive access to the values of two distinct tokens can never
/// alias.  (Requesting the same token twice is rejected by `get2_mut`.)
pub proof fn lemma_distinct_tokens_distinct_positions<T>(
    list: &GenerationalTokenList<T>,
    token1: ItemToken,
    token2: ItemToken,
)
    requires
        list.well_formed(),
        list.valid(token1),
        list.valid(token2),
        token1 != token2,
    ensures
        list.position(token1) != list.position(token2),
        list.tokens()[list.position(token1)] == token1,
        list.tokens()[list.position(token2)] == token2,
{
    list.lemma_token_index(token1);
    list.lemma_token_index(token2);
}

} // verus!
