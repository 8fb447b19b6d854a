//! Building a table entry by entry.

use vstd::prelude::*;
use crate::block::builder::{admits_entry, empty_block, lemma_layout_bounds};
use crate::block::{lemma_encode_offsets, BlockBuilder, BlockView};
use crate::codec::{bytes_as_slice, bytes_from_vec, put_u32};
use crate::key::{KeyBytes, KeySlice};
use crate::stream::Entry;
use crate::table::meta::{metas_view, BlockMeta};
use crate::table::{lemma_push_block, FileObject, SsTable, TableView};

verus! {

/// Builds an SSTable from key-value pairs.
pub struct SsTableBuilder {
    builder: BlockBuilder,
    first_key: Vec<u8>,
    last_key: Vec<u8>,
    data: Vec<u8>,
    pub(crate) meta: Vec<BlockMeta>,
    block_size: usize,
}

impl SsTableBuilder {
    /// The blocks that are complete.
    pub closed spec fn flushed(&self) -> TableView {
        TableView { data: self.data@, metas: metas_view(self.meta@) }
    }

    /// The block in the making.
    pub closed spec fn pending(&self) -> BlockView {
        self.builder@
    }

    /// The size in bytes that a block is meant not to exceed.
    pub closed spec fn block_size(&self) -> usize {
        self.block_size
    }

    /// The entries added so far, in order.
    pub open spec fn entries(&self) -> Seq<Entry> {
        self.flushed().entries() + self.pending().entries()
    }

    /// The size in bytes of the blocks of the table, were it built now.
    pub open spec fn encoded_len(&self) -> nat {
        self.flushed().data.len() + self.pending().data.len() + 2 * self.pending().offsets.len() + 2
    }

    /// The builder is in good order: the complete blocks are, the block in
    /// the making is, and the builder remembers the first and the last key
    /// of the block in the making.
    pub closed spec fn wf(&self) -> bool {
        &&& self.flushed().wf()
        &&& self.builder.wf()
        &&& self.builder.block_size() == self.block_size
        &&& self.first_key@ == self.builder.first_key()
        &&& self.last_key@ == if self.builder.entries().len() > 0 {
            self.builder.entries().last().0
        } else {
            Seq::<u8>::empty()
        }
        &&& self.builder.entries().len() == 0 ==> self.meta@.len() == 0
    }

    /// Create a builder based on target block size.
    pub fn new(block_size: usize) -> (builder: Self)
        ensures
            builder.wf(),
            builder.block_size() == block_size,
            builder.entries() == Seq::<Entry>::empty(),
            builder.flushed().metas.len() == 0,
            builder.flushed().data.len() == 0,
            builder.pending() == empty_block(),
    {
        let builder = SsTableBuilder {
            builder: BlockBuilder::new(block_size),
            first_key: Vec::new(),
            last_key: Vec::new(),
            data: Vec::new(),
            meta: Vec::new(),
            block_size,
        };
        assert(builder.entries() =~= Seq::<Entry>::empty());
        builder
    }

    /// Adds a key-value pair to SSTable.
    pub fn add(&mut self, key: KeySlice, value: &[u8])
        requires
            old(self).wf(),
            0 < key@.len() <= u16::MAX,
            value@.len() <= u16::MAX,
        ensures
            final(self).wf(),
            final(self).block_size() == old(self).block_size(),
            final(self).entries() == old(self).entries().push((key@, value@)),
            admits_entry(old(self).pending(), old(self).block_size(), key@, value@) ==> {
                &&& final(self).flushed() == old(self).flushed()
                &&& final(self).pending() == old(self).pending().push(key@, value@)
            },
            !admits_entry(old(self).pending(), old(self).block_size(), key@, value@) ==> {
                &&& final(self).flushed() == old(self).flushed().push_block(old(self).pending())
                &&& final(self).pending() == empty_block().push(key@, value@)
            },
    {
        let ghost flushed = self.flushed();
        let ghost pending = self.pending();
        proof {
            if pending.offsets.len() > 0 {
                assert(pending.slot_ok(0));
            }
        }
        if self.first_key.is_empty() {
            self.first_key = key.to_key_vec().into_inner();
        }
        if self.builder.add(key, value) {
            self.last_key = key.to_key_vec().into_inner();
            assert(self.entries() =~= old(self).entries().push((key@, value@)));
            return ;
        }
        self.build_block();

        let added = self.builder.add(key, value);
        assert(added);
        self.first_key = key.to_key_vec().into_inner();
        self.last_key = key.to_key_vec().into_inner();
        assert(self.entries() =~= old(self).entries().push((key@, value@)));
    }

    /// Get the estimated size of the SSTable.
    pub fn estimated_size(&self) -> (size: usize)
        ensures
            size == self.flushed().data.len(),
    {
        self.data.len()
    }

    /// Whether no entry was added yet.
    pub fn is_empty(&self) -> (empty: bool)
        requires
            self.wf(),
        ensures
            empty == (self.entries().len() == 0),
    {
        proof {
            if self.pending().entries().len() == 0 {
                assert(self.flushed().entries() =~= Seq::<Entry>::empty());
            }
        }
        self.builder.is_empty()
    }

    /// Whether the table can be built: it has an entry, and its blocks take
    /// no more bytes than a 32-bit offset can count.
    pub fn can_build(&self) -> (ok: bool)
        requires
            self.wf(),
        ensures
            ok == (self.entries().len() > 0 && self.encoded_len() <= u32::MAX),
    {
        proof {
            if self.pending().entries().len() == 0 {
                assert(self.flushed().entries() =~= Seq::<Entry>::empty());
            }
            lemma_layout_bounds(self.pending());
        }
        let pending = self.builder.estimated_len();
        !self.builder.is_empty() && self.data.len() <= 0xFFFF_FFFF - pending
    }

    /// Builds the SSTable. Writing it out is left to the caller, who finds
    /// the bytes to write in the table.
    pub fn build(self, id: usize) -> (table: SsTable)
        requires
            self.wf(),
            self.entries().len() > 0,
            self.encoded_len() <= u32::MAX,
        ensures
            table.wf(),
            table@ == self.flushed().push_block(self.pending()),
            table.entries() == self.entries(),
            table.spec_id() == id,
    {
        let mut this = self;
        proof {
            lemma_encode_offsets(this.pending().offsets);
            if this.pending().entries().len() == 0 {
                assert(this.flushed().entries() =~= Seq::<Entry>::empty());
            }
        }
        this.build_block();
        let ghost view = this.flushed();
        proof {
            assert forall|i: int| 0 <= i < view.metas.len() implies (#[trigger] view.metas[i]).offset
                <= u32::MAX && view.metas[i].first_key.len() <= u16::MAX
                && view.metas[i].last_key.len() <= u16::MAX by {
                assert(view.block_ok(i));
                let b = view.block(i);
                assert(b.slot_ok(0));
                assert(b.slot_ok(b.offsets.len() - 1));
            }
        }
        let first_key = this.meta[0].first_key.clone();
        let last_key = this.meta[this.meta.len() - 1].last_key.clone();
        let mut table = this.data;
        let block_meta_offset = table.len();
        BlockMeta::encode_block_meta(this.meta.as_slice(), &mut table);
        put_u32(&mut table, block_meta_offset as u32);
        assert(table@.take(block_meta_offset as int) =~= view.data);
        let file = FileObject::from_bytes(table);
        SsTable::from_parts(id, file, this.meta, block_meta_offset, first_key, last_key)
    }

    /// Builds the table under the number 0.
    pub fn build_for_test(self) -> (table: SsTable)
        requires
            self.wf(),
            self.entries().len() > 0,
            self.encoded_len() <= u32::MAX,
        ensures
            table.wf(),
            table.entries() == self.entries(),
            table.spec_id() == 0,
    {
        self.build(0)
    }

    /// Completes the block in the making and starts a new one.
    fn build_block(&mut self)
        requires
            old(self).wf(),
            old(self).pending().offsets.len() > 0,
        ensures
            final(self).flushed() == old(self).flushed().push_block(old(self).pending()),
            final(self).flushed().wf(),
            final(self).flushed().entries() == old(self).entries(),
            final(self).builder.wf(),
            final(self).builder@ == empty_block(),
            final(self).builder.entries().len() == 0,
            final(self).builder.block_size() == old(self).block_size,
            final(self).block_size == old(self).block_size,
    {
        let ghost flushed = self.flushed();
        let ghost pending = self.pending();
        let mut old_block_builder = BlockBuilder::new(self.block_size);
        std::mem::swap(&mut self.builder, &mut old_block_builder);
        proof {
            lemma_layout_bounds(pending);
        }
        let encoded_block = old_block_builder.build().encode();

        let mut first_key: Vec<u8> = Vec::new();
        let mut last_key: Vec<u8> = Vec::new();
        std::mem::swap(&mut self.first_key, &mut first_key);
        std::mem::swap(&mut self.last_key, &mut last_key);
        self.meta.push(
            BlockMeta {
                offset: self.data.len(),
                first_key: KeyBytes::from_bytes(bytes_from_vec(first_key)),
                last_key: KeyBytes::from_bytes(bytes_from_vec(last_key)),
            },
        );
        self.data.extend_from_slice(bytes_as_slice(&encoded_block));
        proof {
            assert(self.data@ =~= flushed.data + pending.encoding());
            assert(metas_view(self.meta@) =~= flushed.push_block(pending).metas);
            lemma_push_block(flushed, pending);
        }
    }
}

} // verus!
