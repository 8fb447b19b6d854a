//! Blocks: sorted batches of entries with an offset directory.
//!
//! A block is the smallest unit that is read and cached. Its entry region
//! holds the entries back to back, each as
//! `key_len:u16 | key | value_len:u16 | value`; its directory holds the
//! position at which each entry starts. On the wire the entry region comes
//! first, then the directory, then the number of entries; all integers are
//! big-endian.

use vstd::prelude::*;
use vstd::slice::{slice_subrange, slice_to_vec};
use crate::codec::{
    be_u16, bytes_mut_copy_to_bytes, bytes_mut_len, bytes_mut_new, bytes_mut_put_slice,
    bytes_mut_put_u16, bytes_mut_view, bytes_view, get_u16, load_u16, read_u16,
};
use crate::key::{compare_keys, key_lt, KeyOrder};
use crate::stream::{lemma_neighbours_ascending, strictly_ascending, Entry};

pub mod builder;
pub mod iterator;

pub use builder::BlockBuilder;
pub use iterator::BlockIterator;

verus! {

/// The number of bytes that a 16-bit length or offset takes.
pub const SIZE_OF_U16: usize = 2;

/// The length of the key of the entry that starts at `at`.
pub open spec fn key_len_at(data: Seq<u8>, at: int) -> int {
    read_u16(data, at) as int
}

/// Where the value of the entry that starts at `at` begins.
pub open spec fn value_start_at(data: Seq<u8>, at: int) -> int {
    at + 2 + key_len_at(data, at) + 2
}

/// The length of the value of the entry that starts at `at`.
pub open spec fn value_len_at(data: Seq<u8>, at: int) -> int {
    read_u16(data, at + 2 + key_len_at(data, at)) as int
}

/// Where the entry that starts at `at` ends.
pub open spec fn entry_end(data: Seq<u8>, at: int) -> int {
    value_start_at(data, at) + value_len_at(data, at)
}

/// The entry that starts at `at` lies within `data`: neither of its two
/// lengths nor its key or value is cut short.
pub open spec fn entry_fits(data: Seq<u8>, at: int) -> bool {
    &&& 0 <= at
    &&& value_start_at(data, at) <= data.len()
    &&& entry_end(data, at) <= data.len()
}

/// The entry that starts at `at`.
pub open spec fn entry_at(data: Seq<u8>, at: int) -> Entry {
    (
        data.subrange(at + 2, at + 2 + key_len_at(data, at)),
        data.subrange(value_start_at(data, at), entry_end(data, at)),
    )
}

/// The bytes of one entry.
pub open spec fn encode_entry(key: Seq<u8>, value: Seq<u8>) -> Seq<u8> {
    be_u16(key.len() as u16) + key + be_u16(value.len() as u16) + value
}

/// The bytes of an offset directory.
pub open spec fn encode_offsets(offsets: Seq<u16>) -> Seq<u8>
    decreases offsets.len(),
{
    if offsets.len() == 0 {
        Seq::empty()
    } else {
        encode_offsets(offsets.drop_last()) + be_u16(offsets.last())
    }
}

/// What a block holds: its entry region and its offset directory.
pub struct BlockView {
    pub data: Seq<u8>,
    pub offsets: Seq<u16>,
}

impl BlockView {
    /// Entry `i` lies within the entry region, has a key, and ends where
    /// the next entry starts, or where the region ends if it is the last.
    pub open spec fn slot_ok(self, i: int) -> bool {
        &&& entry_fits(self.data, self.offsets[i] as int)
        &&& key_len_at(self.data, self.offsets[i] as int) > 0
        &&& entry_end(self.data, self.offsets[i] as int) == if i + 1 < self.offsets.len() {
            self.offsets[i + 1] as int
        } else {
            self.data.len() as int
        }
    }

    /// The directory describes the entry region: the entries lie back to
    /// back from the start of the region to its end, one per offset.
    pub open spec fn layout_ok(self) -> bool {
        &&& self.offsets.len() == 0 ==> self.data.len() == 0
        &&& self.offsets.len() > 0 ==> self.offsets[0] == 0
        &&& forall|i: int| 0 <= i < self.offsets.len() ==> #[trigger] self.slot_ok(i)
    }

    /// A block in good order: the layout holds, there is at least one
    /// entry, and the number of entries fits the 16-bit count.
    pub open spec fn wf(self) -> bool {
        &&& self.layout_ok()
        &&& 1 <= self.offsets.len() <= u16::MAX
    }

    /// The entries, in the order of the directory.
    pub open spec fn entries(self) -> Seq<Entry> {
        Seq::new(self.offsets.len(), |i: int| entry_at(self.data, self.offsets[i] as int))
    }

    /// The bytes of the block on the wire.
    pub open spec fn encoding(self) -> Seq<u8> {
        self.data + encode_offsets(self.offsets) + be_u16(self.offsets.len() as u16)
    }

    /// The block with one more entry at its end.
    pub open spec fn push(self, key: Seq<u8>, value: Seq<u8>) -> BlockView {
        BlockView {
            data: self.data + encode_entry(key, value),
            offsets: self.offsets.push(self.data.len() as u16),
        }
    }
}

/// The number of entries that the last two bytes of `bytes` announce.
pub open spec fn offset_count(bytes: Seq<u8>) -> int {
    read_u16(bytes, bytes.len() - 2) as int
}

/// `bytes` is long enough to hold the count and the directory that the
/// count announces.
pub open spec fn decodable(bytes: Seq<u8>) -> bool {
    &&& bytes.len() >= 2
    &&& 2 * offset_count(bytes) + 2 <= bytes.len()
}

/// The block that `bytes` holds: the count is read from the end, the
/// directory stands before it, and the entry region is the rest.
pub open spec fn decode_block(bytes: Seq<u8>) -> BlockView {
    let n = offset_count(bytes);
    let end = bytes.len() - 2 - 2 * n;
    BlockView {
        data: bytes.take(end),
        offsets: Seq::new(n as nat, |i: int| read_u16(bytes, end + 2 * i)),
    }
}

/// A directory of `n` offsets takes `2 n` bytes, two for each offset in
/// order.
pub proof fn lemma_encode_offsets(offsets: Seq<u16>)
    ensures
        encode_offsets(offsets).len() == 2 * offsets.len(),
        forall|i: int|
            0 <= i < offsets.len() ==> read_u16(encode_offsets(offsets), 2 * i)
                == #[trigger] offsets[i],
    decreases offsets.len(),
{
    if offsets.len() > 0 {
        let head = offsets.drop_last();
        lemma_encode_offsets(head);
        let enc = encode_offsets(offsets);
        assert forall|i: int| 0 <= i < offsets.len() implies read_u16(enc, 2 * i)
            == #[trigger] offsets[i] by {
            if i < head.len() {
                assert(head[i] == offsets[i]);
                assert(enc[2 * i] == encode_offsets(head)[2 * i]);
                assert(enc[2 * i + 1] == encode_offsets(head)[2 * i + 1]);
            } else {
                assert(enc[2 * i] == be_u16(offsets.last())[0]);
                assert(enc[2 * i + 1] == be_u16(offsets.last())[1]);
            }
        }
    }
}

/// Decoding the bytes of a block gives the block back, entry region and
/// directory alike.
pub proof fn lemma_decode_encode(v: BlockView)
    requires
        v.offsets.len() <= u16::MAX,
    ensures
        decodable(v.encoding()),
        decode_block(v.encoding()) == v,
{
    let bytes = v.encoding();
    let dir = encode_offsets(v.offsets);
    let n = v.offsets.len() as int;
    lemma_encode_offsets(v.offsets);
    assert(bytes.len() == v.data.len() + 2 * n + 2);
    let tail = be_u16(n as u16);
    assert(bytes[bytes.len() - 2] == tail[0]);
    assert(bytes[bytes.len() - 1] == tail[1]);
    assert(offset_count(bytes) == n);
    let d = decode_block(bytes);
    assert(d.data =~= v.data);
    assert forall|i: int| 0 <= i < n implies d.offsets[i] == v.offsets[i] by {
        assert(bytes[v.data.len() + 2 * i] == dir[2 * i]);
        assert(bytes[v.data.len() + 2 * i + 1] == dir[2 * i + 1]);
        assert(read_u16(dir, 2 * i) == v.offsets[i]);
    }
    assert(d.offsets =~= v.offsets);
}

/// Appending an entry to a laid-out block gives a laid-out block that holds
/// the old entries and then the new one.
pub proof fn lemma_push_layout(v: BlockView, key: Seq<u8>, value: Seq<u8>)
    requires
        v.layout_ok(),
        0 < key.len() <= u16::MAX,
        value.len() <= u16::MAX,
        v.data.len() <= u16::MAX,
    ensures
        v.push(key, value).layout_ok(),
        v.push(key, value).entries() == v.entries().push((key, value)),
        entry_end(v.push(key, value).data, v.data.len() as int) == v.push(key, value).data.len(),
{
    let w = v.push(key, value);
    let at = v.data.len() as int;
    let enc = encode_entry(key, value);
    let n = v.offsets.len() as int;
    assert(enc.len() == 4 + key.len() + value.len());
    assert(w.data[at] == be_u16(key.len() as u16)[0]);
    assert(w.data[at + 1] == be_u16(key.len() as u16)[1]);
    assert(key_len_at(w.data, at) == key.len());
    assert(w.data[at + 2 + key.len()] == be_u16(value.len() as u16)[0]);
    assert(w.data[at + 2 + key.len() + 1] == be_u16(value.len() as u16)[1]);
    assert(value_len_at(w.data, at) == value.len());
    assert(entry_at(w.data, at).0 =~= key);
    assert(entry_at(w.data, at).1 =~= value);
    assert forall|i: int| 0 <= i < n implies entry_at(w.data, w.offsets[i] as int) == entry_at(
        v.data,
        v.offsets[i] as int,
    ) && #[trigger] w.slot_ok(i) by {
        assert(v.slot_ok(i));
        let o = v.offsets[i] as int;
        assert(w.offsets[i] == v.offsets[i]);
        assert(w.data[o] == v.data[o]);
        assert(w.data[o + 1] == v.data[o + 1]);
        let kl = key_len_at(v.data, o);
        assert(w.data[o + 2 + kl] == v.data[o + 2 + kl]);
        assert(w.data[o + 2 + kl + 1] == v.data[o + 2 + kl + 1]);
        assert(entry_at(w.data, o).0 =~= entry_at(v.data, o).0);
        assert(entry_at(w.data, o).1 =~= entry_at(v.data, o).1);
    }
    assert(w.slot_ok(n));
    assert forall|i: int| 0 <= i < w.offsets.len() implies #[trigger] w.slot_ok(i) by {
        if i < n {
            assert(w.slot_ok(i));
        }
    }
    if n > 0 {
        assert(v.slot_ok(0));
    }
    let expected = v.entries().push((key, value));
    assert forall|i: int| 0 <= i < w.entries().len() implies w.entries()[i] == expected[i] by {
        if i < n {
            assert(w.slot_ok(i));
        } else {
            assert(w.offsets[i] as int == at);
        }
    }
    assert(w.entries() =~= expected);
}

/// A block: an entry region and the offsets at which its entries start.
pub struct Block {
    pub(crate) data: Vec<u8>,
    pub(crate) offsets: Vec<u16>,
}

impl View for Block {
    type V = BlockView;

    closed spec fn view(&self) -> BlockView {
        BlockView { data: self.data@, offsets: self.offsets@ }
    }
}

impl Block {
    /// The block is in good order: see [`BlockView::wf`].
    pub open spec fn wf(&self) -> bool {
        self@.wf()
    }

    /// The entries of the block, in order.
    pub open spec fn entries(&self) -> Seq<Entry> {
        self@.entries()
    }

    /// The keys of the block are strictly ascending.
    pub open spec fn sorted(&self) -> bool {
        strictly_ascending(self.entries())
    }

    /// The block with the given entry region and directory.
    pub fn from_parts(data: Vec<u8>, offsets: Vec<u16>) -> (block: Block)
        ensures
            block@ == (BlockView { data: data@, offsets: offsets@ }),
    {
        Block { data, offsets }
    }

    /// The entry region.
    pub fn data(&self) -> (data: &[u8])
        ensures
            data@ == self@.data,
    {
        self.data.as_slice()
    }

    /// The offset directory.
    pub fn offsets(&self) -> (offsets: &[u16])
        ensures
            offsets@ == self@.offsets,
    {
        self.offsets.as_slice()
    }

    /// Whether the block is in good order.
    pub fn is_well_formed(&self) -> (ok: bool)
        ensures
            ok == self.wf(),
    {
        let count = self.offsets.len();
        let len = self.data.len();
        if count == 0 || count > 0xFFFF || self.offsets[0] != 0 {
            return false;
        }
        let mut i: usize = 0;
        while i < count
            invariant
                i <= count,
                count == self@.offsets.len(),
                len == self@.data.len(),
                forall|j: int| 0 <= j < i ==> #[trigger] self@.slot_ok(j),
            decreases count - i,
        {
            let at = self.offsets[i] as usize;
            if at + 4 > len {
                assert(!self@.slot_ok(i as int));
                return false;
            }
            let key_length = load_u16(self.data.as_slice(), at) as usize;
            let value_start = at + 4 + key_length;
            if key_length == 0 || value_start > len {
                assert(!self@.slot_ok(i as int));
                return false;
            }
            let value_length = load_u16(self.data.as_slice(), value_start - 2) as usize;
            let end = value_start + value_length;
            let next = if i + 1 < count {
                self.offsets[i + 1] as usize
            } else {
                len
            };
            if end > len || end != next {
                assert(!self@.slot_ok(i as int));
                return false;
            }
            assert(self@.slot_ok(i as int));
            i += 1;
        }
        true
    }

    /// Whether the keys of the block are strictly ascending.
    pub fn is_sorted(&self) -> (ok: bool)
        requires
            self.wf(),
        ensures
            ok == self.sorted(),
    {
        let count = self.offsets.len();
        let ghost entries = self.entries();
        let mut i: usize = 1;
        while i < count
            invariant
                1 <= i <= count,
                self.wf(),
                count == self@.offsets.len(),
                entries == self.entries(),
                forall|j: int| 0 <= j < i - 1 ==> key_lt(#[trigger] entries[j].0, entries[j + 1].0),
            decreases count - i,
        {
            if compare_keys(self.key_at(i - 1), self.key_at(i)) != KeyOrder::Less {
                return false;
            }
            i += 1;
        }
        proof {
            lemma_neighbours_ascending(entries);
        }
        true
    }

    /// The key of entry `idx`.
    pub fn key_at(&self, idx: usize) -> (key: &[u8])
        requires
            self.wf(),
            idx < self@.offsets.len(),
        ensures
            key@ == self.entries()[idx as int].0,
    {
        proof {
            assert(self@.slot_ok(idx as int));
        }
        let at = self.offsets[idx] as usize;
        let key_length = load_u16(self.data.as_slice(), at) as usize;
        slice_subrange(self.data.as_slice(), at + SIZE_OF_U16, at + SIZE_OF_U16 + key_length)
    }

    /// The number of entries.
    pub fn num_of_entries(&self) -> (n: usize)
        ensures
            n == self.entries().len(),
    {
        self.offsets.len()
    }

    /// The bytes of the block on the wire: the entry region, then each
    /// offset, then the number of entries.
    pub fn encode(&self) -> (bytes: bytes::Bytes)
        requires
            self@.offsets.len() <= u16::MAX,
        ensures
            bytes_view(bytes) == self@.encoding(),
    {
        let mut buf = bytes_mut_new();
        bytes_mut_put_slice(&mut buf, self.data.as_slice());
        assert(bytes_mut_view(buf) =~= self.data@ + encode_offsets(self.offsets@.take(0)));
        let mut i: usize = 0;
        while i < self.offsets.len()
            invariant
                i <= self.offsets@.len(),
                bytes_mut_view(buf) == self.data@ + encode_offsets(self.offsets@.take(i as int)),
            decreases self.offsets@.len() - i,
        {
            bytes_mut_put_u16(&mut buf, self.offsets[i]);
            proof {
                let next = self.offsets@.take(i + 1);
                assert(next.drop_last() =~= self.offsets@.take(i as int));
                assert(next.last() == self.offsets@[i as int]);
                assert(bytes_mut_view(buf) =~= self.data@ + encode_offsets(next));
            }
            i += 1;
        }
        assert(self.offsets@.take(i as int) =~= self.offsets@);
        bytes_mut_put_u16(&mut buf, self.offsets.len() as u16);
        let len = bytes_mut_len(&buf);
        let bytes = bytes_mut_copy_to_bytes(&mut buf, len);
        assert(bytes_view(bytes) =~= self@.encoding());
        bytes
    }

    /// The block that `data` holds on the wire, if `data` holds a block in
    /// good order with ascending keys.
    pub fn decode_checked(data: &[u8]) -> (result: Option<Block>)
        ensures
            match result {
                Some(block) => decodable(data@) && block@ == decode_block(data@) && block.wf()
                    && block.sorted(),
                None => !(decodable(data@) && decode_block(data@).wf() && strictly_ascending(
                    decode_block(data@).entries(),
                )),
            },
    {
        let len = data.len();
        if len < SIZE_OF_U16 {
            return None;
        }
        let count = get_u16(slice_subrange(data, len - SIZE_OF_U16, len)) as usize;
        if count * SIZE_OF_U16 + SIZE_OF_U16 > len {
            return None;
        }
        let block = Self::decode(data);
        if block.is_well_formed() && block.is_sorted() {
            Some(block)
        } else {
            None
        }
    }

    /// The block that `data` holds on the wire.
    pub fn decode(data: &[u8]) -> (block: Block)
        requires
            decodable(data@),
        ensures
            block@ == decode_block(data@),
    {
        let len = data.len();
        let count = get_u16(slice_subrange(data, len - SIZE_OF_U16, len)) as usize;
        let end = len - SIZE_OF_U16 - count * SIZE_OF_U16;
        let mut offsets: Vec<u16> = Vec::new();
        let mut i: usize = 0;
        while i < count
            invariant
                i <= count,
                count == offset_count(data@),
                end == data@.len() - 2 - 2 * count,
                len == data@.len(),
                decodable(data@),
                offsets@.len() == i,
                forall|j: int| 0 <= j < i ==> offsets@[j] == read_u16(data@, end + 2 * j),
            decreases count - i,
        {
            let at = end + i * SIZE_OF_U16;
            let offset = get_u16(slice_subrange(data, at, at + SIZE_OF_U16));
            offsets.push(offset);
            i += 1;
        }
        let region = slice_to_vec(slice_subrange(data, 0, end));
        let block = Block { data: region, offsets };
        assert(block@.data =~= decode_block(data@).data);
        assert(block@.offsets =~= decode_block(data@).offsets);
        block
    }
}

} // verus!
