//! Building a block entry by entry.

use vstd::prelude::*;
use crate::block::{lemma_push_layout, Block, BlockView, SIZE_OF_U16};
use crate::codec::{put_slice, put_u16};
use crate::key::{KeySlice, KeyVec};
use crate::stream::Entry;

verus! {

/// Every entry takes at least five bytes, so entry `i` starts at byte `5 i`
/// or later.
pub proof fn lemma_offsets_spread(v: BlockView, i: int)
    requires
        v.layout_ok(),
        0 <= i < v.offsets.len(),
    ensures
        v.offsets[i] >= 5 * i,
    decreases i,
{
    if i > 0 {
        lemma_offsets_spread(v, i - 1);
        assert(v.slot_ok(i - 1));
    }
}

/// A laid-out directory is far shorter than the 16-bit count allows, and
/// its entry region ends less than 2^18 bytes in.
pub proof fn lemma_layout_bounds(v: BlockView)
    requires
        v.layout_ok(),
    ensures
        v.offsets.len() <= 13108,
        v.data.len() <= 196609,
{
    if v.offsets.len() > 0 {
        let last = v.offsets.len() - 1;
        assert(v.slot_ok(last));
        lemma_offsets_spread(v, last);
    }
}

/// Whether a block in the making takes one more entry. The first entry is
/// always taken. A later one is taken if the block on the wire, with the
/// entry and its offset, stays within `block_size`, and if the entry starts
/// where a 16-bit offset can point.
pub open spec fn admits_entry(
    block: BlockView,
    block_size: usize,
    key: Seq<u8>,
    value: Seq<u8>,
) -> bool {
    ||| block.offsets.len() == 0
    ||| {
        &&& block.data.len() + 2 * block.offsets.len() + 2 + key.len() + value.len() + 6
            <= block_size
        &&& block.data.len() <= u16::MAX
    }
}

/// The block that holds nothing.
pub open spec fn empty_block() -> BlockView {
    BlockView { data: Seq::empty(), offsets: Seq::empty() }
}

/// Builds a block.
pub struct BlockBuilder {
    /// Offsets of each key-value entries.
    offsets: Vec<u16>,
    /// All serialized key-value pairs in the block.
    data: Vec<u8>,
    /// The expected block size.
    block_size: usize,
    /// The first key in the block
    first_key: KeyVec,
}

impl View for BlockBuilder {
    type V = BlockView;

    closed spec fn view(&self) -> BlockView {
        BlockView { data: self.data@, offsets: self.offsets@ }
    }
}

impl BlockBuilder {
    /// The size in bytes that the block is meant not to exceed.
    pub closed spec fn block_size(&self) -> usize {
        self.block_size
    }

    /// The key of the first entry; empty while there is none.
    pub closed spec fn first_key(&self) -> Seq<u8> {
        self.first_key@
    }

    /// The entries added so far, in order.
    pub open spec fn entries(&self) -> Seq<Entry> {
        self@.entries()
    }

    /// The builder is in good order: what it holds is laid out as a block,
    /// and it remembers the key of its first entry.
    pub open spec fn wf(&self) -> bool {
        &&& self@.layout_ok()
        &&& self.first_key() == if self.entries().len() > 0 {
            self.entries()[0].0
        } else {
            Seq::<u8>::empty()
        }
    }

    /// The size in bytes of the block on the wire, were it built now.
    pub open spec fn estimated_size(&self) -> nat {
        self@.data.len() + 2 * self@.offsets.len() + 2
    }

    /// Whether the entry is taken: see [`admits_entry`].
    pub open spec fn admits(&self, key: Seq<u8>, value: Seq<u8>) -> bool {
        admits_entry(self@, self.block_size(), key, value)
    }

    /// Creates a new block builder.
    pub fn new(block_size: usize) -> (builder: Self)
        ensures
            builder.wf(),
            builder.block_size() == block_size,
            builder.entries() == Seq::<Entry>::empty(),
            builder@ == empty_block(),
    {
        let builder = BlockBuilder {
            offsets: Vec::new(),
            data: Vec::new(),
            block_size,
            first_key: KeyVec::new(),
        };
        assert(builder.entries() =~= Seq::<Entry>::empty());
        builder
    }

    /// Adds a key-value pair to the block. Returns false when the block is full.
    #[must_use]
    pub fn add(&mut self, key: KeySlice, value: &[u8]) -> (ok: bool)
        requires
            old(self).wf(),
            0 < key@.len() <= u16::MAX,
            value@.len() <= u16::MAX,
        ensures
            final(self).wf(),
            final(self).block_size() == old(self).block_size(),
            ok == old(self).admits(key@, value@),
            ok ==> final(self)@ == old(self)@.push(key@, value@),
            ok ==> final(self).entries() == old(self).entries().push((key@, value@)),
            !ok ==> final(self)@ == old(self)@ && final(self).first_key() == old(self).first_key(),
    {
        proof {
            lemma_layout_bounds(self@);
        }
        let data_size = self.data.len();
        let offsets_size = SIZE_OF_U16 * self.offsets.len() + SIZE_OF_U16;
        let current_block_size = data_size + offsets_size;
        let entry_size = key.len() + value.len() + SIZE_OF_U16 * 3;
        if !self.is_empty() && (current_block_size + entry_size > self.block_size || data_size
            > 0xFFFF) {
            return false;
        }
        proof {
            lemma_push_layout(self@, key@, value@);
            if self@.offsets.len() > 0 {
                assert(self@.slot_ok(0));
            }
        }
        if self.first_key.is_empty() {
            self.first_key = key.to_key_vec();
        }
        self.offsets.push(data_size as u16);

        let key_length = key.len() as u16;
        let value_length = value.len() as u16;

        put_u16(&mut self.data, key_length);
        put_slice(&mut self.data, key.raw_ref());
        put_u16(&mut self.data, value_length);
        put_slice(&mut self.data, value);
        assert(self@.data =~= old(self)@.push(key@, value@).data);
        assert(self@ == old(self)@.push(key@, value@));
        true
    }

    /// The size in bytes of the block on the wire, were it built now.
    pub fn estimated_len(&self) -> (size: usize)
        requires
            self.wf(),
        ensures
            size == self.estimated_size(),
    {
        proof {
            lemma_layout_bounds(self@);
        }
        self.data.len() + SIZE_OF_U16 * self.offsets.len() + SIZE_OF_U16
    }

    /// Check if there is no key-value pair in the block.
    pub fn is_empty(&self) -> (empty: bool)
        requires
            self.wf(),
        ensures
            empty == (self.entries().len() == 0),
    {
        proof {
            if self@.offsets.len() > 0 {
                assert(self@.slot_ok(self@.offsets.len() - 1));
            }
        }
        self.data.is_empty()
    }

    /// Finalize the block.
    pub fn build(self) -> (block: Block)
        requires
            self.wf(),
        ensures
            block@ == self@,
            block.entries() == self.entries(),
            self.entries().len() > 0 ==> block.wf(),
    {
        proof {
            lemma_layout_bounds(self@);
        }
        Block::from_parts(self.data, self.offsets)
    }
}

} // verus!
