use vstd::prelude::*;

verus! {

/// An opaque handle to one element of a [`crate::GenerationalTokenList`].
///
/// A token names a storage slot together with the generation that occupied the
/// slot when the element was inserted.  It stays usable for exactly as long as
/// that element is in the list: once the element is removed, the token can
/// never again resolve to any element, even if the slot is later reused.
/// Tokens are freely copyable and can key external maps.
#[derive(Clone, Copy, Debug, PartialEq, Eq, Structural, PartialOrd, Ord, Hash)]
pub struct ItemToken {
    pub(crate) slot: usize,
    pub(crate) generation: u64,
}

} // verus!
