//! A doubly linked list addressed by stable, generation-checked tokens.
//!
//! Elements live in a slot store that reuses freed slots; every reuse bumps
//! the slot's generation counter, so a token handed out for a removed
//! element can never resolve again, even when its slot holds new data.
//! All list operations are specified against a sequence view of the values
//! in head-to-tail order and are verified to maintain the link invariants.

mod access;
mod edit;
mod iter;
mod laws;
mod list;
mod search;
mod token;

pub use iter::{IntoIter, Iter, IterMut, IterWithTokens, IterWithTokensMut};
pub use laws::{
    lemma_anchor_consistency, lemma_distinct_tokens_distinct_positions, lemma_links_mirror,
    lemma_token_positions, lemma_valid_tokens_were_issued,
};
pub use list::GenerationalTokenList;
pub use token::ItemToken;
