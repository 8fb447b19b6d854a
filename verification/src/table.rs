//! Sorted-string tables: blocks in a row, with a directory.
//!
//! On the wire a table is its blocks back to back, then its directory,
//! then the position at which the directory starts, as a big-endian `u32`.

use std::sync::Arc;
use vstd::prelude::*;
use vstd::slice::{slice_subrange, slice_to_vec};
use crate::block::{decodable, decode_block, lemma_decode_encode, Block, BlockView};
use crate::codec::{be_u32, get_u32, lemma_u32_bytes_round_trip, lemma_u32_round_trip, read_u32};
use crate::error::LsmError;
use crate::key::{compare_keys, key_lt, lemma_key_lt_irreflexive, KeyBytes, KeyOrder};
use crate::stream::{lemma_concat_ascending, strictly_ascending, Entry};
use crate::table::meta::{
    decode_metas, encode_metas, lemma_decode_encode_metas, lemma_decode_metas_sound, metas_fit,
    metas_view, BlockMetaView,
};

pub mod builder;
pub mod iterator;
pub mod meta;

pub use builder::SsTableBuilder;
pub use iterator::SsTableIterator;
pub use meta::BlockMeta;

verus! {

/// What a table holds: the region of its blocks and its directory.
pub struct TableView {
    pub data: Seq<u8>,
    pub metas: Seq<BlockMetaView>,
}

impl TableView {
    /// Where block `i` ends: where the next one starts, or where the
    /// region ends.
    pub open spec fn block_end(self, i: int) -> int {
        if i + 1 < self.metas.len() {
            self.metas[i + 1].offset as int
        } else {
            self.data.len() as int
        }
    }

    /// The bytes of block `i`.
    pub open spec fn block_bytes(self, i: int) -> Seq<u8> {
        self.data.subrange(self.metas[i].offset as int, self.block_end(i))
    }

    /// Block `i`.
    pub open spec fn block(self, i: int) -> BlockView {
        decode_block(self.block_bytes(i))
    }

    /// Block `i` lies within the region, its bytes hold a block in good
    /// order, and the directory names its first and its last key.
    pub open spec fn block_ok(self, i: int) -> bool {
        &&& self.metas[i].offset <= self.block_end(i) <= self.data.len()
        &&& decodable(self.block_bytes(i))
        &&& self.block(i).wf()
        &&& self.metas[i].first_key == self.block(i).entries().first().0
        &&& self.metas[i].last_key == self.block(i).entries().last().0
    }

    /// Every block is in good order.
    pub open spec fn wf(self) -> bool {
        forall|i: int| 0 <= i < self.metas.len() ==> #[trigger] self.block_ok(i)
    }

    /// The keys of block `i` are ascending, and its first key is after the
    /// last key of the block before it.
    pub open spec fn block_in_order(self, i: int) -> bool {
        &&& strictly_ascending(self.block(i).entries())
        &&& i > 0 ==> key_lt(self.metas[i - 1].last_key, self.metas[i].first_key)
    }

    /// The keys ascend within every block and from each block to the next.
    pub open spec fn in_order(self) -> bool {
        forall|i: int| 0 <= i < self.metas.len() ==> #[trigger] self.block_in_order(i)
    }

    /// The entries of the blocks from block `i` on, in order.
    pub open spec fn entries_from(self, i: int) -> Seq<Entry>
        decreases self.metas.len() - i,
    {
        if 0 <= i < self.metas.len() {
            self.block(i).entries() + self.entries_from(i + 1)
        } else {
            Seq::empty()
        }
    }

    /// The entries of the table, in order.
    pub open spec fn entries(self) -> Seq<Entry> {
        self.entries_from(0)
    }

    /// The table with one more block at its end.
    pub open spec fn push_block(self, b: BlockView) -> TableView {
        TableView {
            data: self.data + b.encoding(),
            metas: self.metas.push(
                BlockMetaView {
                    offset: self.data.len(),
                    first_key: b.entries().first().0,
                    last_key: b.entries().last().0,
                },
            ),
        }
    }

    /// The bytes of the table on the wire.
    pub open spec fn encoding(self) -> Seq<u8> {
        self.data + encode_metas(self.metas) + be_u32(self.data.len() as u32)
    }
}

/// Appending a block in good order to a table in good order gives a table
/// in good order that holds the old entries and then those of the block.
pub proof fn lemma_push_block(t: TableView, b: BlockView)
    requires
        t.wf(),
        b.wf(),
    ensures
        t.push_block(b).wf(),
        t.push_block(b).block(t.metas.len() as int) == b,
        forall|i: int| 0 <= i < t.metas.len() ==> t.push_block(b).block(i) == t.block(i),
        t.push_block(b).entries() == t.entries() + b.entries(),
{
    let u = t.push_block(b);
    let n = t.metas.len() as int;
    lemma_decode_encode(b);
    if n > 0 {
        assert(t.block_ok(n - 1));
    }
    assert forall|i: int| 0 <= i < n implies u.block_bytes(i) == t.block_bytes(i) by {
        assert(t.block_ok(i));
        if i + 1 < n {
            assert(t.block_ok(i + 1));
        }
        assert(u.metas[i] == t.metas[i]);
        assert(u.block_end(i) == t.block_end(i));
        assert(u.block_bytes(i) =~= t.block_bytes(i));
    }
    assert(u.block_bytes(n) =~= b.encoding());
    assert forall|i: int| 0 <= i < u.metas.len() implies #[trigger] u.block_ok(i) by {
        if i < n {
            assert(t.block_ok(i));
            assert(u.block_bytes(i) == t.block_bytes(i));
        }
    }
    lemma_push_block_entries(t, b, 0);
}

/// The entries from block `i` on, after a block was appended.
proof fn lemma_push_block_entries(t: TableView, b: BlockView, i: int)
    requires
        0 <= i <= t.metas.len(),
        t.push_block(b).block(t.metas.len() as int) == b,
        forall|j: int| 0 <= j < t.metas.len() ==> t.push_block(b).block(j) == t.block(j),
    ensures
        t.push_block(b).entries_from(i) == t.entries_from(i) + b.entries(),
    decreases t.metas.len() - i,
{
    let u = t.push_block(b);
    let n = t.metas.len() as int;
    if i < n {
        lemma_push_block_entries(t, b, i + 1);
        assert(u.entries_from(i) =~= t.entries_from(i) + b.entries());
    } else {
        assert(u.entries_from(n + 1) =~= Seq::<Entry>::empty());
        assert(u.entries_from(n) =~= t.entries_from(n) + b.entries());
    }
}

/// The entries from block `i` on are what is left of the entries of the
/// table after those of the blocks before `i`.
pub proof fn lemma_entries_from_is_suffix(t: TableView, i: int)
    requires
        0 <= i <= t.metas.len(),
    ensures
        t.entries_from(i).len() <= t.entries().len(),
        t.entries_from(i) == t.entries().skip(t.entries().len() - t.entries_from(i).len()),
    decreases i,
{
    if i == 0 {
        assert(t.entries().skip(0) =~= t.entries());
    } else {
        lemma_entries_from_is_suffix(t, i - 1);
        let prev = t.entries_from(i - 1);
        let here = t.entries_from(i);
        assert(prev == t.block(i - 1).entries() + here);
        assert(here =~= prev.skip(prev.len() - here.len()));
        assert(here =~= t.entries().skip(t.entries().len() - here.len()));
    }
}

/// In a table in good order whose keys ascend within every block and from
/// each block to the next, all keys ascend.
pub proof fn lemma_in_order_ascending(t: TableView)
    requires
        t.wf(),
        t.in_order(),
    ensures
        strictly_ascending(t.entries()),
{
    lemma_in_order_from(t, 0);
}

/// The entries from block `i` on ascend, and start with the first key that
/// the directory names for block `i`.
proof fn lemma_in_order_from(t: TableView, i: int)
    requires
        t.wf(),
        t.in_order(),
        0 <= i <= t.metas.len(),
    ensures
        strictly_ascending(t.entries_from(i)),
        i < t.metas.len() ==> t.entries_from(i).len() > 0 && t.entries_from(i).first().0
            == t.metas[i].first_key,
    decreases t.metas.len() - i,
{
    if i < t.metas.len() {
        lemma_in_order_from(t, i + 1);
        assert(t.block_ok(i));
        assert(t.block_in_order(i));
        let block = t.block(i).entries();
        let rest = t.entries_from(i + 1);
        if i + 1 < t.metas.len() {
            assert(t.block_in_order(i + 1));
        }
        lemma_concat_ascending(block, rest);
        assert((block + rest).first() == block.first());
    }
}

/// The whole contents of a stored file.
///
/// Reading from storage and writing to it is left to the caller: a file
/// object is made from the bytes that were read, and gives back the bytes
/// to write.
pub struct FileObject(Vec<u8>);

impl View for FileObject {
    type V = Seq<u8>;

    closed spec fn view(&self) -> Seq<u8> {
        self.0@
    }
}

impl FileObject {
    /// The file with the given contents.
    pub fn from_bytes(data: Vec<u8>) -> (file: Self)
        ensures
            file@ == data@,
    {
        FileObject(data)
    }

    /// The `len` bytes from `offset` on.
    pub fn read(&self, offset: u64, len: u64) -> (data: Vec<u8>)
        requires
            offset + len <= self@.len(),
        ensures
            data@ == self@.subrange(offset as int, offset + len),
    {
        let contents = self.0.as_slice();
        let size = contents.len();
        let start = offset as usize;
        let end = (offset + len) as usize;
        slice_to_vec(slice_subrange(contents, start, end))
    }

    /// The number of bytes in the file.
    pub fn size(&self) -> (size: u64)
        ensures
            size == self@.len(),
    {
        self.0.len() as u64
    }

    /// The contents of the file.
    pub fn as_bytes(&self) -> (data: &[u8])
        ensures
            data@ == self@,
    {
        self.0.as_slice()
    }
}

/// The region of blocks and the directory that `bytes` hold, if their last
/// four bytes point into them and what follows that point is made of whole
/// records.
pub open spec fn table_parts(bytes: Seq<u8>) -> Option<TableView> {
    if bytes.len() < 4 {
        None
    } else {
        let at = read_u32(bytes, bytes.len() - 4) as int;
        if at > bytes.len() - 4 {
            None
        } else {
            match decode_metas(bytes.subrange(at, bytes.len() - 4)) {
                Some(metas) => Some(TableView { data: bytes.take(at), metas }),
                None => None,
            }
        }
    }
}

/// The first block from `i` on that is not in good order or holds a key out
/// of order; the number of blocks if there is none.
pub open spec fn first_bad_block(t: TableView, i: int) -> int
    decreases t.metas.len() - i,
{
    if i < 0 || i >= t.metas.len() {
        t.metas.len() as int
    } else if !(t.block_ok(i) && t.block_in_order(i)) {
        i
    } else {
        first_bad_block(t, i + 1)
    }
}

/// `bytes` hold a table in good order whose keys ascend.
pub open spec fn openable(bytes: Seq<u8>) -> bool {
    &&& table_parts(bytes) matches Some(t)
    &&& t.metas.len() > 0
    &&& t.wf()
    &&& t.in_order()
}

/// What is wrong with bytes that hold no table in good order: the first
/// block that is damaged, or the directory.
pub open spec fn open_error(id: usize, bytes: Seq<u8>) -> LsmError {
    match table_parts(bytes) {
        Some(t) => if t.metas.len() > 0 {
            LsmError::Corruption { table_id: id, block_idx: Some(first_bad_block(t, 0) as usize) }
        } else {
            LsmError::Corruption { table_id: id, block_idx: None }
        },
        None => LsmError::Corruption { table_id: id, block_idx: None },
    }
}

/// The bytes of a table in good order hold that table; if its keys ascend
/// the bytes can be opened.
pub proof fn lemma_table_round_trip(t: TableView)
    requires
        t.wf(),
        t.metas.len() > 0,
        metas_fit(t.metas),
        t.data.len() <= u32::MAX,
    ensures
        table_parts(t.encoding()) == Some(t),
        t.in_order() ==> openable(t.encoding()),
{
    let bytes = t.encoding();
    let dir = encode_metas(t.metas);
    let n = bytes.len() as int;
    let at = t.data.len() as int;
    let tail = be_u32(at as u32);
    assert(n == at + dir.len() + 4);
    assert(bytes[n - 4] == tail[0] && bytes[n - 3] == tail[1] && bytes[n - 2] == tail[2] && bytes[n
        - 1] == tail[3]);
    lemma_u32_round_trip(at as u32);
    assert(read_u32(bytes, n - 4) == at);
    assert(bytes.subrange(at, n - 4) =~= dir);
    assert(bytes.take(at) =~= t.data);
    lemma_decode_encode_metas(t.metas);
}

/// Bytes that hold a region of blocks and a directory are the bytes of that
/// region and directory on the wire.
pub proof fn lemma_opened(bytes: Seq<u8>)
    requires
        table_parts(bytes) is Some,
    ensures
        bytes == table_parts(bytes)->0.encoding(),
        metas_fit(table_parts(bytes)->0.metas),
        table_parts(bytes)->0.data.len() <= u32::MAX,
{
    let view = table_parts(bytes)->0;
    let n = bytes.len() as int;
    let at = read_u32(bytes, n - 4) as int;
    lemma_decode_metas_sound(bytes.subrange(at, n - 4));
    lemma_u32_bytes_round_trip(bytes[n - 4], bytes[n - 3], bytes[n - 2], bytes[n - 1]);
    assert(bytes =~= view.encoding());
}

/// A table in which every block up to `i` is in good order and in key
/// order has its first bad block at `i` or later.
proof fn lemma_first_bad_block(t: TableView, from: int, i: int)
    requires
        0 <= from <= i <= t.metas.len(),
        forall|j: int| from <= j < i ==> #[trigger] t.block_ok(j),
        forall|j: int| from <= j < i ==> #[trigger] t.block_in_order(j),
    ensures
        first_bad_block(t, from) == first_bad_block(t, i),
    decreases i - from,
{
    if from < i {
        assert(t.block_ok(from));
        assert(t.block_in_order(from));
        lemma_first_bad_block(t, from + 1, i);
    }
}

/// A sorted-string table.
pub struct SsTable {
    /// The contents of the stored table.
    pub(crate) file: FileObject,
    /// The directory: one record per block.
    pub(crate) block_meta: Vec<BlockMeta>,
    /// Where the directory starts in the file.
    pub(crate) block_meta_offset: usize,
    id: usize,
    first_key: KeyBytes,
    last_key: KeyBytes,
}

impl View for SsTable {
    type V = TableView;

    closed spec fn view(&self) -> TableView {
        TableView {
            data: self.file@.take(self.block_meta_offset as int),
            metas: metas_view(self.block_meta@),
        }
    }
}

impl SsTable {
    /// The contents of the stored table.
    pub closed spec fn bytes(&self) -> Seq<u8> {
        self.file@
    }

    /// Where the directory starts in the stored table.
    pub closed spec fn spec_block_meta_offset(&self) -> usize {
        self.block_meta_offset
    }

    /// The number by which the table is known.
    pub closed spec fn spec_id(&self) -> usize {
        self.id
    }

    /// The key of the first entry.
    pub closed spec fn spec_first_key(&self) -> Seq<u8> {
        self.first_key@
    }

    /// The key of the last entry.
    pub closed spec fn spec_last_key(&self) -> Seq<u8> {
        self.last_key@
    }

    /// The table is in good order: it has a block, every block is in good
    /// order, the file holds the blocks, the directory and its position as
    /// the wire format asks, and the first and last key are those of the
    /// first and the last block.
    pub open spec fn wf(&self) -> bool {
        &&& self@.wf()
        &&& self@.metas.len() > 0
        &&& metas_fit(self@.metas)
        &&& self@.data.len() <= u32::MAX
        &&& self@.data.len() == self.spec_block_meta_offset()
        &&& self.bytes() == self@.encoding()
        &&& self.spec_first_key() == self@.metas.first().first_key
        &&& self.spec_last_key() == self@.metas.last().last_key
    }

    /// The entries of the table, in order.
    pub open spec fn entries(&self) -> Seq<Entry> {
        self@.entries()
    }

    /// The keys of the table are strictly ascending.
    pub open spec fn sorted(&self) -> bool {
        strictly_ascending(self.entries())
    }

    /// Puts a table together from its parts.
    pub(crate) fn from_parts(
        id: usize,
        file: FileObject,
        block_meta: Vec<BlockMeta>,
        block_meta_offset: usize,
        first_key: KeyBytes,
        last_key: KeyBytes,
    ) -> (table: Self)
        requires
            block_meta_offset <= file@.len(),
        ensures
            table@ == (TableView {
                data: file@.take(block_meta_offset as int),
                metas: metas_view(block_meta@),
            }),
            table.bytes() == file@,
            table.spec_block_meta_offset() == block_meta_offset,
            table.spec_id() == id,
            table.spec_first_key() == first_key@,
            table.spec_last_key() == last_key@,
    {
        SsTable { file, block_meta, block_meta_offset, id, first_key, last_key }
    }

    /// The table that the stored bytes of `file` hold. Every block is read
    /// and checked, so that what is opened is in good order; the error
    /// names the first block that is not.
    pub fn open(id: usize, file: FileObject) -> (result: Result<Self, LsmError>)
        ensures
            match result {
                Ok(table) => openable(file@) && table.wf() && table.sorted() && table.bytes()
                    == file@ && table.spec_id() == id && Some(table@) == table_parts(file@),
                Err(e) => !openable(file@) && e == open_error(id, file@),
            },
    {
        let (block_meta, block_meta_offset) = match Self::read_directory(file.as_bytes()) {
            Some(directory) => directory,
            None => {
                return Err(LsmError::Corruption { table_id: id, block_idx: None });
            },
        };
        let count = block_meta.len();
        let ghost view = table_parts(file@)->0;
        let mut idx: usize = 0;
        while idx < count
            invariant
                idx <= count,
                count == block_meta@.len(),
                count > 0,
                block_meta_offset <= file@.len() - 4,
                view == (TableView {
                    data: file@.take(block_meta_offset as int),
                    metas: metas_view(block_meta@),
                }),
                table_parts(file@) == Some(view),
                forall|j: int| 0 <= j < idx ==> #[trigger] view.block_ok(j),
                forall|j: int| 0 <= j < idx ==> #[trigger] view.block_in_order(j),
            decreases count - idx,
        {
            proof {
                lemma_first_bad_block(view, 0, idx as int);
            }
            if !Self::check_block(file.as_bytes(), &block_meta, block_meta_offset, idx) {
                return Err(LsmError::Corruption { table_id: id, block_idx: Some(idx) });
            }
            idx += 1;
        }
        proof {
            lemma_opened(file@);
            lemma_in_order_ascending(view);
        }
        let first_key = block_meta[0].first_key.clone();
        let last_key = block_meta[count - 1].last_key.clone();
        assert(view.metas[0] == block_meta@[0]@);
        assert(view.metas[count - 1] == block_meta@[count - 1]@);
        Ok(SsTable::from_parts(id, file, block_meta, block_meta_offset, first_key, last_key))
    }

    /// The directory that `bytes` hold and the position at which it starts,
    /// if there is a directory of at least one record.
    fn read_directory(bytes: &[u8]) -> (result: Option<(Vec<BlockMeta>, usize)>)
        ensures
            match result {
                Some((block_meta, block_meta_offset)) => {
                    &&& block_meta@.len() > 0
                    &&& block_meta_offset <= bytes@.len() - 4
                    &&& table_parts(bytes@) == Some(
                        TableView {
                            data: bytes@.take(block_meta_offset as int),
                            metas: metas_view(block_meta@),
                        },
                    )
                },
                None => table_parts(bytes@) matches Some(t) ==> t.metas.len() == 0,
            },
    {
        let len = bytes.len();
        if len < 4 {
            return None;
        }
        let block_meta_offset = get_u32(slice_subrange(bytes, len - 4, len)) as usize;
        if block_meta_offset > len - 4 {
            return None;
        }
        let directory = slice_subrange(bytes, block_meta_offset, len - 4);
        match BlockMeta::decode_block_meta(directory) {
            Some(block_meta) => {
                if block_meta.len() == 0 {
                    None
                } else {
                    Some((block_meta, block_meta_offset))
                }
            },
            None => None,
        }
    }

    /// Whether block `idx` of the table that `bytes` hold is in good order
    /// and in key order.
    fn check_block(
        bytes: &[u8],
        block_meta: &Vec<BlockMeta>,
        block_meta_offset: usize,
        idx: usize,
    ) -> (ok: bool)
        requires
            idx < block_meta@.len(),
            block_meta_offset <= bytes@.len(),
        ensures
            ok == {
                let view = TableView {
                    data: bytes@.take(block_meta_offset as int),
                    metas: metas_view(block_meta@),
                };
                view.block_ok(idx as int) && view.block_in_order(idx as int)
            },
    {
        let ghost view = TableView {
            data: bytes@.take(block_meta_offset as int),
            metas: metas_view(block_meta@),
        };
        let ghost i = idx as int;
        let count = block_meta.len();
        proof {
            assert(view.metas[i] == block_meta@[i]@);
            if i + 1 < count {
                assert(view.metas[i + 1] == block_meta@[i + 1]@);
            }
            if i > 0 {
                assert(view.metas[i - 1] == block_meta@[i - 1]@);
            }
        }
        if idx > 0 && compare_keys(
            block_meta[idx - 1].last_key.raw_ref(),
            block_meta[idx].first_key.raw_ref(),
        ) != KeyOrder::Less {
            return false;
        }
        let start = block_meta[idx].offset;
        let end = if idx + 1 < count {
            block_meta[idx + 1].offset
        } else {
            block_meta_offset
        };
        assert(end == view.block_end(i));
        if start > end || end > block_meta_offset {
            return false;
        }
        let block_bytes = slice_subrange(bytes, start, end);
        assert(block_bytes@ =~= view.block_bytes(i));
        let block = match Block::decode_checked(block_bytes) {
            Some(block) => block,
            None => {
                return false;
            },
        };
        let first = block.key_at(0);
        let last = block.key_at(block.num_of_entries() - 1);
        proof {
            lemma_key_lt_irreflexive(first@);
            lemma_key_lt_irreflexive(last@);
        }
        compare_keys(first, block_meta[idx].first_key.raw_ref()) == KeyOrder::Equal && compare_keys(
            last,
            block_meta[idx].last_key.raw_ref(),
        ) == KeyOrder::Equal
    }

    /// The number by which the table is known.
    pub fn sst_id(&self) -> (id: usize)
        ensures
            id == self.spec_id(),
    {
        self.id
    }

    /// The key of the first entry.
    pub fn first_key(&self) -> (key: &KeyBytes)
        ensures
            key@ == self.spec_first_key(),
    {
        &self.first_key
    }

    /// The key of the last entry.
    pub fn last_key(&self) -> (key: &KeyBytes)
        ensures
            key@ == self.spec_last_key(),
    {
        &self.last_key
    }

    /// The number of blocks.
    pub fn num_of_blocks(&self) -> (n: usize)
        ensures
            n == self@.metas.len(),
    {
        self.block_meta.len()
    }

    /// The size of the stored table in bytes.
    pub fn table_size(&self) -> (size: u64)
        ensures
            size == self.bytes().len(),
    {
        self.file.size()
    }

    /// The stored table, to be written out.
    pub fn file(&self) -> (file: &FileObject)
        ensures
            file@ == self.bytes(),
    {
        &self.file
    }

    /// The record of block `block_idx` in the directory.
    pub fn block_meta(&self, block_idx: usize) -> (meta: &BlockMeta)
        requires
            block_idx < self@.metas.len(),
        ensures
            meta@ == self@.metas[block_idx as int],
    {
        &self.block_meta[block_idx]
    }

    /// Reads block `block_idx`.
    pub fn read_block(&self, block_idx: usize) -> (result: Result<Arc<Block>, LsmError>)
        requires
            self.wf(),
            block_idx < self@.metas.len(),
        ensures
            result matches Ok(block) && block@ == self@.block(block_idx as int) && block.wf(),
    {
        let ghost view = self@;
        let ghost idx = block_idx as int;
        let count = self.block_meta.len();
        let size = self.file.size();
        proof {
            assert(view.block_ok(idx));
            assert(view.metas[idx] == self.block_meta@[idx]@);
            if idx + 1 < count {
                assert(view.metas[idx + 1] == self.block_meta@[idx + 1]@);
            }
        }
        let offset = self.block_meta[block_idx].offset;
        let end = if block_idx + 1 < count {
            self.block_meta[block_idx + 1].offset
        } else {
            self.block_meta_offset
        };
        assert(end == view.block_end(idx));
        let bytes = self.file.read(offset as u64, (end - offset) as u64);
        assert(bytes@ =~= view.block_bytes(idx));
        Ok(Arc::new(Block::decode(bytes.as_slice())))
    }
}

} // verus!
