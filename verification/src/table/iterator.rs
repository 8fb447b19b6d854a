//! Walking over the entries of a table.

use std::sync::Arc;
use vstd::prelude::*;
use crate::block::BlockIterator;
use crate::error::LsmError;
use crate::iterators::StorageIterator;
use crate::key::{compare_keys, key_lt, lemma_key_lt_transitive, KeyOrder, KeySlice};
use crate::stream::{
    advance, advance_by, lemma_lower_bound, lemma_lower_bound_unique, lemma_scan,
    lemma_skip_ascending, lower_bound, seek, strictly_ascending, Entry,
};
use crate::table::{lemma_entries_from_is_suffix, SsTable, TableView};

verus! {

/// Where block `i` starts among the entries of the table.
pub open spec fn entries_before(t: TableView, i: int) -> int {
    t.entries().len() - t.entries_from(i).len()
}

/// The entries of block `i` stand in a row among the entries of the table,
/// from where the block starts.
pub proof fn lemma_block_entries(t: TableView, i: int)
    requires
        0 <= i < t.metas.len(),
    ensures
        0 <= entries_before(t, i),
        entries_before(t, i + 1) == entries_before(t, i) + t.block(i).entries().len(),
        entries_before(t, i + 1) <= t.entries().len(),
        forall|q: int|
            0 <= q < t.block(i).entries().len() ==> t.entries()[entries_before(t, i) + q]
                == #[trigger] t.block(i).entries()[q],
        t.entries().skip(entries_before(t, i)) == t.block(i).entries() + t.entries_from(i + 1),
{
    lemma_entries_from_is_suffix(t, i);
    let here = t.entries_from(i);
    let block = t.block(i).entries();
    assert(here == block + t.entries_from(i + 1));
    assert forall|q: int| 0 <= q < block.len() implies t.entries()[entries_before(t, i) + q]
        == #[trigger] block[q] by {
        assert(here[q] == block[q]);
    }
}

/// The block in which a seek to `key` looks, from block `i` on: the first
/// one whose last key, as the directory names it, is not before `key`; the
/// last block where there is none.
pub open spec fn seek_block(t: TableView, key: Seq<u8>, i: int) -> int
    decreases t.metas.len() - i,
{
    if i + 1 < t.metas.len() && key_lt(t.metas[i].last_key, key) {
        seek_block(t, key, i + 1)
    } else {
        i
    }
}

/// What is left of a table after a seek to `key`: what is left of the block
/// in which the seek looks, and all blocks after it.
pub open spec fn table_seek(t: TableView, key: Seq<u8>) -> Seq<Entry> {
    let i = seek_block(t, key, 0);
    seek(t.block(i).entries(), key) + t.entries_from(i + 1)
}

/// The block in which a seek looks is a block of the table; the last keys
/// of all blocks before it are before `key`, and its own is not, unless it
/// is the last block.
pub proof fn lemma_seek_block(t: TableView, key: Seq<u8>, i: int)
    requires
        0 <= i < t.metas.len(),
    ensures
        i <= seek_block(t, key, i) < t.metas.len(),
        forall|j: int|
            i <= j < seek_block(t, key, i) ==> key_lt((#[trigger] t.metas[j]).last_key, key),
        seek_block(t, key, i) + 1 < t.metas.len() ==> !key_lt(
            t.metas[seek_block(t, key, i)].last_key,
            key,
        ),
    decreases t.metas.len() - i,
{
    if i + 1 < t.metas.len() && key_lt(t.metas[i].last_key, key) {
        lemma_seek_block(t, key, i + 1);
    }
}

/// In an ascending table a seek to `key` leaves the entries from the first
/// one on whose key is not before `key`.
pub proof fn lemma_table_seek_ascending(t: TableView, key: Seq<u8>)
    requires
        t.wf(),
        t.metas.len() > 0,
        strictly_ascending(t.entries()),
    ensures
        table_seek(t, key) == seek(t.entries(), key),
{
    lemma_seek_block(t, key, 0);
    lemma_table_seek(t, seek_block(t, key, 0), key);
}

/// In an ascending table, seeking to `key` comes down to seeking in one
/// block: the first one whose last key is not before `key`, or the last
/// block where there is none. All blocks after it follow whole.
pub proof fn lemma_table_seek(t: TableView, i: int, key: Seq<u8>)
    requires
        t.wf(),
        0 <= i < t.metas.len(),
        strictly_ascending(t.entries()),
        forall|j: int| 0 <= j < i ==> key_lt((#[trigger] t.metas[j]).last_key, key),
        i + 1 < t.metas.len() ==> !key_lt(t.metas[i].last_key, key),
    ensures
        seek(t.entries(), key) == seek(t.block(i).entries(), key) + t.entries_from(i + 1),
        i + 1 < t.metas.len() ==> seek(t.block(i).entries(), key).len() > 0,
{
    let entries = t.entries();
    let block = t.block(i).entries();
    let start = entries_before(t, i);
    let at = lower_bound(block, key) as int;
    lemma_block_entries(t, i);
    lemma_lower_bound(block, key);
    assert(t.block_ok(i));
    if i > 0 {
        lemma_block_entries(t, i - 1);
        assert(t.block_ok(i - 1));
        let prev = t.block(i - 1).entries();
        assert(entries[entries_before(t, i - 1) + (prev.len() - 1)] == prev[prev.len() - 1]);
        assert(key_lt(t.metas[i - 1].last_key, key));
        assert(key_lt(entries[start - 1].0, key));
    }
    assert forall|p: int| 0 <= p < start + at implies key_lt(#[trigger] entries[p].0, key) by {
        if p < start - 1 {
            assert(key_lt(entries[p].0, entries[start - 1].0));
            lemma_key_lt_transitive(entries[p].0, entries[start - 1].0, key);
        } else if p >= start {
            assert(entries[start + (p - start)] == block[p - start]);
        }
    }
    if at < block.len() {
        assert(entries[start + at] == block[at]);
    } else if i + 1 < t.metas.len() {
        assert(block[block.len() - 1].0 == t.metas[i].last_key);
        if block.len() - 1 < at {
            assert(key_lt(block[block.len() - 1].0, key));
        }
        assert(false);
    } else {
        assert(t.entries_from(i + 1) =~= Seq::<Entry>::empty());
    }
    lemma_lower_bound_unique(entries, key, start + at);
    assert(entries.skip(start) == block + t.entries_from(i + 1));
    assert(entries.skip(start + at) =~= entries.skip(start).skip(at));
    assert((block + t.entries_from(i + 1)).skip(at) =~= block.skip(at) + t.entries_from(i + 1));
}

/// An iterator over the contents of an SSTable.
pub struct SsTableIterator {
    table: Arc<SsTable>,
    blk_iter: BlockIterator,
    blk_idx: usize,
}

impl SsTableIterator {
    /// The table that is walked over.
    pub closed spec fn table(&self) -> SsTable {
        *self.table
    }

    /// Create a new iterator and seek to the first key-value pair in the first data block.
    pub fn create_and_seek_to_first(table: Arc<SsTable>) -> (result: Result<Self, LsmError>)
        requires
            table.wf(),
        ensures
            result matches Ok(iter) && iter.inv() && iter.table() == *table && iter.remaining()
                == table.entries(),
    {
        let block = table.read_block(0)?;
        let block_iterator = BlockIterator::create_and_seek_to_first(block);
        Ok(SsTableIterator { table, blk_iter: block_iterator, blk_idx: 0 })
    }

    /// Seek to the first key-value pair in the first data block.
    pub fn seek_to_first(&mut self) -> (result: Result<(), LsmError>)
        requires
            old(self).inv(),
        ensures
            result is Ok,
            final(self).inv(),
            final(self).table() == old(self).table(),
            final(self).remaining() == final(self).table().entries(),
    {
        let block = self.table.read_block(0)?;
        self.blk_iter = BlockIterator::create_and_seek_to_first(block);
        self.blk_idx = 0;
        Ok(())
    }

    /// Create a new iterator and seek to the first key-value pair which >= `key`.
    pub fn create_and_seek_to_key(table: Arc<SsTable>, key: KeySlice) -> (result: Result<
        Self,
        LsmError,
    >)
        requires
            table.wf(),
        ensures
            result matches Ok(iter) && iter.inv() && iter.table() == *table && iter.remaining()
                == table_seek(table@, key@) && (table.sorted() ==> iter.remaining() == seek(
                table.entries(),
                key@,
            )),
    {
        let mut table_iterator = SsTableIterator::create_and_seek_to_first(table)?;
        table_iterator.seek_to_key(key)?;
        Ok(table_iterator)
    }

    /// Seek to the first key-value pair which >= `key`.
    ///
    /// The directory finds the block: the first one whose last key is not
    /// before `key`, or the last block where there is none.
    pub fn seek_to_key(&mut self, key: KeySlice) -> (result: Result<(), LsmError>)
        requires
            old(self).inv(),
        ensures
            result is Ok,
            final(self).inv(),
            final(self).table() == old(self).table(),
            final(self).remaining() == table_seek(final(self).table()@, key@),
            final(self).table().sorted() ==> final(self).remaining() == seek(
                final(self).table().entries(),
                key@,
            ),
    {
        let ghost view = self.table@;
        let ghost entries = view.entries();
        let count = self.table.num_of_blocks();
        let mut idx: usize = 0;
        while idx + 1 < count && compare_keys(
            self.table.block_meta(idx).last_key.raw_ref(),
            key.raw_ref(),
        ) == KeyOrder::Less
            invariant
                self.table.wf(),
                view == self.table@,
                count == view.metas.len(),
                idx < count,
                seek_block(view, key@, 0) == seek_block(view, key@, idx as int),
            decreases count - idx,
        {
            idx += 1;
        }
        let block = self.table.read_block(idx)?;
        self.blk_iter = BlockIterator::create_and_seek_to_key(block, key);
        self.blk_idx = idx;
        let ghost found = self.blk_iter.remaining();
        if !self.blk_iter.is_valid() && idx + 1 < count {
            self.blk_idx = idx + 1;
            let block = self.table.read_block(idx + 1)?;
            self.blk_iter = BlockIterator::create_and_seek_to_first(block);
            assert(found + view.entries_from(idx + 1) =~= self.remaining());
        }
        proof {
            if strictly_ascending(entries) {
                lemma_table_seek_ascending(view, key@);
            }
        }
        Ok(())
    }

    /// A scan from the first entry of a table yields the entries of the
    /// table, each once and in order: after `n` steps the iterator stands
    /// on entry `n`, and after as many steps as there are entries it stands
    /// on none.
    pub proof fn lemma_full_scan(&self, n: nat)
        requires
            self.inv(),
            self.remaining() == self.table().entries(),
        ensures
            n < self.table().entries().len() ==> advance_by(self.remaining(), n).len() > 0
                && advance_by(self.remaining(), n)[0] == self.table().entries()[n as int],
            n >= self.table().entries().len() ==> advance_by(self.remaining(), n).len() == 0,
    {
        lemma_scan(self.table().entries(), n);
    }

    /// What is still to come of an ascending table is ascending.
    pub proof fn lemma_remaining_ascending(&self)
        requires
            self.inv(),
            self.table().sorted(),
        ensures
            strictly_ascending(self.remaining()),
    {
        let view = self.table@;
        let i = self.blk_idx as int;
        let p = self.blk_iter.lemma_remaining_is_suffix();
        lemma_block_entries(view, i);
        let start = entries_before(view, i);
        let block = view.block(i).entries();
        assert(self.blk_iter.block().entries() == block);
        assert(view.entries().skip(start) == block + view.entries_from(i + 1));
        assert(view.entries().skip(start + p) =~= view.entries().skip(start).skip(p));
        assert((block + view.entries_from(i + 1)).skip(p) =~= block.skip(p) + view.entries_from(
            i + 1,
        ));
        lemma_skip_ascending(view.entries(), start + p);
    }
}

impl StorageIterator for SsTableIterator {
    /// The iterator is in good order: its table is, it holds one of the
    /// blocks of the table, and it has come to the end of a block only if
    /// that block is the last.
    closed spec fn inv(&self) -> bool {
        &&& self.table.wf()
        &&& self.blk_idx < self.table@.metas.len()
        &&& self.blk_iter.inv()
        &&& self.blk_iter.block()@ == self.table@.block(self.blk_idx as int)
        &&& self.blk_iter.remaining().len() == 0 ==> self.blk_idx == self.table@.metas.len() - 1
    }

    closed spec fn remaining(&self) -> Seq<Entry> {
        self.blk_iter.remaining() + self.table@.entries_from(self.blk_idx + 1)
    }

    /// Return the `key` that's held by the underlying block iterator.
    fn key(&self) -> (key: KeySlice<'_>) {
        self.blk_iter.key()
    }

    /// Return the `value` that's held by the underlying block iterator.
    fn value(&self) -> (value: &[u8]) {
        self.blk_iter.value()
    }

    /// Return whether the current block iterator is valid or not.
    fn is_valid(&self) -> (valid: bool) {
        self.blk_iter.is_valid()
    }

    /// Move to the next `key` in the block.
    fn next(&mut self) -> (result: Result<(), LsmError>)
        ensures
            result is Ok,
    {
        let ghost view = self.table@;
        let ghost before = self.blk_iter.remaining();
        let ghost rest = view.entries_from(self.blk_idx + 1);
        let count = self.table.num_of_blocks();
        self.blk_iter.next();
        if !self.blk_iter.is_valid() && self.blk_idx + 1 < count {
            self.blk_idx += 1;
            let block = self.table.read_block(self.blk_idx)?;
            self.blk_iter = BlockIterator::create_and_seek_to_first(block);
            proof {
                assert(self.remaining() =~= rest);
                assert(advance(before + rest) =~= rest);
            }
        } else {
            proof {
                assert(self.remaining() =~= advance(before + rest));
            }
        }
        Ok(())
    }
}

} // verus!
