//! Iterators over entries in key order.

use vstd::prelude::*;
use crate::error::LsmError;
use crate::key::KeySlice;
use crate::stream::{advance, Entry};

pub(crate) mod heap;
pub mod merge_iterator;
pub mod two_merge_iterator;

verus! {

/// What every iterator of the storage engine can do: tell whether it
/// stands on an entry, show that entry, and move on.
///
/// The model of an iterator is the stream of entries that it has yet to
/// yield, the current entry first.
pub trait StorageIterator {
    /// The iterator is in good order. An implementation says what that
    /// means for it; one that does not is taken to be in order always.
    open spec fn inv(&self) -> bool {
        true
    }

    /// The entries still to come, the current one first. An implementation
    /// says what they are; of one that does not nothing is known.
    open spec fn remaining(&self) -> Seq<Entry> {
        arbitrary()
    }

    /// Get the current value.
    fn value(&self) -> (value: &[u8])
        requires
            self.inv(),
            self.remaining().len() > 0,
        ensures
            value@ == self.remaining()[0].1,
    ;

    /// Get the current key.
    fn key(&self) -> (key: KeySlice<'_>)
        requires
            self.inv(),
            self.remaining().len() > 0,
        ensures
            key@ == self.remaining()[0].0,
    ;

    /// Check if the current iterator is valid.
    fn is_valid(&self) -> (valid: bool)
        requires
            self.inv(),
        ensures
            valid == (self.remaining().len() > 0),
    ;

    /// Move to the next position. After an error the iterator is not to be
    /// used again.
    fn next(&mut self) -> (result: Result<(), LsmError>)
        requires
            old(self).inv(),
        ensures
            result is Ok ==> final(self).inv() && final(self).remaining() == advance(
                old(self).remaining(),
            ),
    ;
}

} // verus!
