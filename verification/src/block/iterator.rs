//! Walking over the entries of a block.

use std::sync::Arc;
use vstd::prelude::*;
use vstd::slice::{slice_subrange, slice_to_vec};
use crate::block::{entry_end, value_start_at, Block, SIZE_OF_U16};
use crate::codec::load_u16;
use crate::key::{compare_keys, key_lt, KeyOrder, KeySlice, KeyVec};
use crate::stream::{
    advance, advance_by, lemma_lower_bound_unique, lemma_scan, seek, strictly_ascending, Entry,
};

verus! {

/// Iterates on a block.
pub struct BlockIterator {
    /// The internal `Block`, wrapped by an `Arc`
    block: Arc<Block>,
    /// The current key, empty represents the iterator is invalid
    key: KeyVec,
    /// the current value range in the block.data, corresponds to the current key
    value_range: (usize, usize),
    /// Current index of the key-value pair, should be in range of [0, num_of_elements)
    idx: usize,
    /// The first key in the block
    first_key: KeyVec,
}

impl BlockIterator {
    /// The block that is walked over.
    pub closed spec fn block(&self) -> Block {
        *self.block
    }

    /// The iterator is in good order: its block is, and where it stands on
    /// an entry, the key and the value range it holds are that entry's.
    pub closed spec fn inv(&self) -> bool {
        &&& self.block.wf()
        &&& self.key@.len() > 0 ==> self.at_entry(self.idx as int)
        &&& self.first_key@.len() > 0 ==> self.first_key@ == self.block.entries()[0].0
    }

    /// The iterator stands on entry `i` of its block.
    spec fn at_entry(&self, i: int) -> bool {
        let v = self.block@;
        &&& 0 <= i < v.offsets.len()
        &&& self.idx == i
        &&& self.key@ == v.entries()[i].0
        &&& self.value_range.0 == value_start_at(v.data, v.offsets[i] as int)
        &&& self.value_range.1 == entry_end(v.data, v.offsets[i] as int)
    }

    /// The entries still to come, the current one first. Empty when the
    /// iterator stands on no entry.
    pub closed spec fn remaining(&self) -> Seq<Entry> {
        if self.key@.len() > 0 {
            self.block.entries().skip(self.idx as int)
        } else {
            Seq::empty()
        }
    }

    /// What is still to come is what is left of the entries of the block
    /// from some position on.
    pub proof fn lemma_remaining_is_suffix(&self) -> (p: int)
        requires
            self.inv(),
        ensures
            0 <= p <= self.block().entries().len(),
            self.remaining() == self.block().entries().skip(p),
    {
        if self.key@.len() > 0 {
            self.idx as int
        } else {
            let n = self.block.entries().len() as int;
            assert(self.block.entries().skip(n) =~= Seq::<Entry>::empty());
            n
        }
    }

    /// A scan from the first entry of a block visits as many entries as the
    /// block has offsets, each once and in the order of the block: after
    /// `n` steps the iterator stands on entry `n`, and after as many steps
    /// as there are offsets it stands on none. In a block of ascending keys
    /// each key it visits is after all that it visited before.
    pub proof fn lemma_full_scan(&self, n: nat)
        requires
            self.inv(),
            self.remaining() == self.block().entries(),
        ensures
            self.block().entries().len() == self.block()@.offsets.len(),
            n < self.block()@.offsets.len() ==> advance_by(self.remaining(), n).len() > 0
                && advance_by(self.remaining(), n)[0] == self.block().entries()[n as int],
            n >= self.block()@.offsets.len() ==> advance_by(self.remaining(), n).len() == 0,
            strictly_ascending(self.block().entries()) ==> forall|i: nat, j: nat|
                i < j < self.block()@.offsets.len() ==> key_lt(
                    (#[trigger] advance_by(self.remaining(), i))[0].0,
                    (#[trigger] advance_by(self.remaining(), j))[0].0,
                ),
    {
        let entries = self.block().entries();
        lemma_scan(entries, n);
        if strictly_ascending(entries) {
            assert forall|i: nat, j: nat| i < j < entries.len() implies key_lt(
                (#[trigger] advance_by(entries, i))[0].0,
                (#[trigger] advance_by(entries, j))[0].0,
            ) by {
                lemma_scan(entries, i);
                lemma_scan(entries, j);
            }
        }
    }

    /// An iterator over `block` that stands on no entry.
    fn new(block: Arc<Block>) -> (iter: Self)
        requires
            block.wf(),
        ensures
            iter.inv(),
            iter.block() == *block,
            iter.remaining() == Seq::<Entry>::empty(),
    {
        Self {
            block,
            key: KeyVec::new(),
            value_range: (0, 0),
            idx: 0,
            first_key: KeyVec::new(),
        }
    }

    /// Creates a block iterator and seek to the first entry.
    pub fn create_and_seek_to_first(block: Arc<Block>) -> (iter: Self)
        requires
            block.wf(),
        ensures
            iter.inv(),
            iter.block() == *block,
            iter.remaining() == block.entries(),
    {
        let mut iter = Self::new(block);
        iter.seek_to_first();
        iter
    }

    /// Creates a block iterator and seek to the first key that >= `key`.
    pub fn create_and_seek_to_key(block: Arc<Block>, key: KeySlice) -> (iter: Self)
        requires
            block.wf(),
        ensures
            iter.inv(),
            iter.block() == *block,
            iter.remaining() == seek(block.entries(), key@),
    {
        let mut iter = Self::new(block);
        iter.seek_to_key(key);
        iter
    }

    /// Returns the key of the current entry.
    pub fn key(&self) -> (key: KeySlice<'_>)
        requires
            self.inv(),
            self.remaining().len() > 0,
        ensures
            key@ == self.remaining()[0].0,
    {
        self.key.as_key_slice()
    }

    /// Returns the value of the current entry.
    pub fn value(&self) -> (value: &[u8])
        requires
            self.inv(),
            self.remaining().len() > 0,
        ensures
            value@ == self.remaining()[0].1,
    {
        proof {
            assert(self.block@.slot_ok(self.idx as int));
        }
        slice_subrange(self.block.data(), self.value_range.0, self.value_range.1)
    }

    /// Returns true if the iterator is valid.
    pub fn is_valid(&self) -> (valid: bool)
        requires
            self.inv(),
        ensures
            valid == (self.remaining().len() > 0),
    {
        !self.key.is_empty()
    }

    /// Seeks to the first key in the block.
    pub fn seek_to_first(&mut self)
        requires
            old(self).inv(),
        ensures
            final(self).inv(),
            final(self).block() == old(self).block(),
            final(self).remaining() == final(self).block().entries(),
    {
        self.seek_to_offset(0, 0);
        if self.first_key.is_empty() {
            self.first_key = self.key.as_key_slice().to_key_vec();
        }
        assert(self.block.entries().skip(0) =~= self.block.entries());
    }

    /// Move to the next key in the block.
    pub fn next(&mut self)
        requires
            old(self).inv(),
        ensures
            final(self).inv(),
            final(self).block() == old(self).block(),
            final(self).remaining() == advance(old(self).remaining()),
    {
        if !self.is_valid() {
            return ;
        }
        let ghost entries = self.block.entries();
        let ghost at = self.idx as int;
        if self.at_last_key() {
            self.key = KeyVec::new();
            assert(entries.skip(at).skip(1) =~= Seq::<Entry>::empty());
            return ;
        }
        proof {
            assert(self.block@.slot_ok(at));
        }
        self.seek_to_offset(self.value_range.1, self.idx + 1);
        assert(entries.skip(at).skip(1) =~= entries.skip(at + 1));
    }

    /// Seek to the first key that >= `key`.
    pub fn seek_to_key(&mut self, key: KeySlice)
        requires
            old(self).inv(),
        ensures
            final(self).inv(),
            final(self).block() == old(self).block(),
            final(self).remaining() == seek(final(self).block().entries(), key@),
    {
        self.seek_to_first();
        let ghost entries = self.block.entries();
        while self.is_valid() && compare_keys(self.key.raw_ref(), key.raw_ref()) == KeyOrder::Less
            invariant
                self.inv(),
                self.block() == old(self).block(),
                entries == self.block.entries(),
                self.key@.len() > 0 ==> forall|j: int|
                    0 <= j < self.idx ==> key_lt(#[trigger] entries[j].0, key@),
                self.key@.len() == 0 ==> forall|j: int|
                    0 <= j < entries.len() ==> key_lt(#[trigger] entries[j].0, key@),
            decreases
                    (if self.key@.len() > 0 {
                        entries.len() - self.idx
                    } else {
                        0
                    }),
        {
            let ghost before = self.idx as int;
            let ghost rest = self.remaining();
            self.next();
            proof {
                assert(rest.len() == entries.len() - before);
                assert(self.remaining().len() == rest.len() - 1);
                assert(key_lt(entries[before].0, key@));
            }
        }
        proof {
            if self.key@.len() > 0 {
                lemma_lower_bound_unique(entries, key@, self.idx as int);
            } else {
                lemma_lower_bound_unique(entries, key@, entries.len() as int);
                assert(entries.skip(entries.len() as int) =~= Seq::<Entry>::empty());
            }
        }
    }

    /// Whether the iterator stands on the last entry of its block.
    fn at_last_key(&self) -> (last: bool)
        requires
            self.inv(),
        ensures
            last == (self.idx == self.block@.offsets.len() - 1),
    {
        self.idx == self.block.offsets().len() - 1
    }

    /// Stands the iterator on entry `idx`, which starts at `at`.
    fn seek_to_offset(&mut self, at: usize, idx: usize)
        requires
            old(self).block.wf(),
            idx < old(self).block@.offsets.len(),
            at == old(self).block@.offsets[idx as int],
            old(self).first_key@.len() > 0 ==> old(self).first_key@
                == old(self).block.entries()[0].0,
        ensures
            final(self).inv(),
            final(self).block == old(self).block,
            final(self).first_key == old(self).first_key,
            final(self).at_entry(idx as int),
            final(self).key@.len() > 0,
    {
        proof {
            assert(self.block@.slot_ok(idx as int));
        }
        let data = self.block.data();
        let key_length = load_u16(data, at) as usize;
        let key_start = at + SIZE_OF_U16;
        let key = slice_to_vec(slice_subrange(data, key_start, key_start + key_length));
        let value_length = load_u16(data, key_start + key_length) as usize;
        let value_start = key_start + key_length + SIZE_OF_U16;
        self.key = KeyVec::from_vec(key);
        self.value_range = (value_start, value_start + value_length);
        self.idx = idx;
    }
}

} // verus!
