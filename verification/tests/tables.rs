use std::sync::Arc;

use mini_lsm::block::BlockIterator;
use mini_lsm::iterators::merge_iterator::MergeIterator;
use mini_lsm::iterators::StorageIterator;
use mini_lsm::key::{KeySlice, KeyVec};
use mini_lsm::table::{BlockMeta, FileObject, SsTable, SsTableBuilder, SsTableIterator};

fn key_of(i: usize) -> Vec<u8> {
    format!("key_{:03}", i * 5).into_bytes()
}

fn value_of(i: usize) -> Vec<u8> {
    format!("value_{:010}", i).into_bytes()
}

fn numbered_table(count: usize, block_size: usize) -> SsTable {
    let mut builder = SsTableBuilder::new(block_size);
    for i in 0..count {
        builder.add(KeySlice::from_slice(&key_of(i)), &value_of(i));
    }
    builder.build(1)
}

fn scan(iter: &mut SsTableIterator) -> Vec<(Vec<u8>, Vec<u8>)> {
    let mut out = Vec::new();
    while iter.is_valid() {
        out.push((iter.key().raw_ref().to_vec(), iter.value().to_vec()));
        iter.next().unwrap();
    }
    out
}

#[test]
fn file_object_reads_ranges() {
    let file = FileObject::from_bytes(vec![10, 11, 12, 13, 14]);
    assert_eq!(file.size(), 5);
    assert_eq!(file.as_bytes(), &[10, 11, 12, 13, 14]);
    assert_eq!(file.read(0, 5), vec![10, 11, 12, 13, 14]);
    assert_eq!(file.read(1, 3), vec![11, 12, 13]);
    assert_eq!(file.read(5, 0), Vec::<u8>::new());
}

#[test]
fn block_meta_records_are_written_in_order() {
    let metas = vec![
        BlockMeta {
            offset: 0,
            first_key: KeyVec::from_vec(b"a".to_vec()).into_key_bytes(),
            last_key: KeyVec::from_vec(b"cc".to_vec()).into_key_bytes(),
        },
        BlockMeta {
            offset: 0x01020304,
            first_key: KeyVec::from_vec(b"d".to_vec()).into_key_bytes(),
            last_key: KeyVec::from_vec(b"d".to_vec()).into_key_bytes(),
        },
    ];
    let mut buf = vec![0xee];
    BlockMeta::encode_block_meta(&metas, &mut buf);
    let expected: Vec<u8> = vec![
        0xee, // what was there
        0, 0, 0, 0, 0, 1, b'a', 0, 2, b'c', b'c', // first record
        1, 2, 3, 4, 0, 1, b'd', 0, 1, b'd', // second record
    ];
    assert_eq!(buf, expected);
}

#[test]
fn single_entry_table_on_the_wire() {
    let mut builder = SsTableBuilder::new(4096);
    builder.add(KeySlice::from_slice(b"k"), b"v");
    let table = builder.build(3);
    let expected: Vec<u8> = vec![
        0, 1, b'k', 0, 1, b'v', 0, 0, 0, 1, // the block: entry, offset, count
        0, 0, 0, 0, 0, 1, b'k', 0, 1, b'k', // the directory
        0, 0, 0, 10, // where the directory starts
    ];
    assert_eq!(table.file().as_bytes(), &expected[..]);
    assert_eq!(table.table_size(), 24);
    assert_eq!(table.sst_id(), 3);
    assert_eq!(table.num_of_blocks(), 1);
    assert_eq!(table.first_key().raw_ref(), b"k");
    assert_eq!(table.last_key().raw_ref(), b"k");
}

#[test]
fn table_ends_with_the_position_of_its_directory() {
    let table = numbered_table(100, 128);
    let bytes = table.file().as_bytes();
    let n = bytes.len();
    let position = u32::from_be_bytes([bytes[n - 4], bytes[n - 3], bytes[n - 2], bytes[n - 1]]);
    let last = table.block_meta(table.num_of_blocks() - 1);
    assert!(position as usize > last.offset);
    // the first record of the directory is that of the block at 0
    let at = position as usize;
    assert_eq!(&bytes[at..at + 4], &[0, 0, 0, 0]);
    assert_eq!(&bytes[at + 4..at + 6], &[0, 7]);
    assert_eq!(&bytes[at + 6..at + 13], b"key_000");
}

#[test]
fn builder_starts_a_new_block_when_one_is_full() {
    let mut builder = SsTableBuilder::new(16);
    assert_eq!(builder.estimated_size(), 0);
    builder.add(KeySlice::from_slice(b"11"), b"11");
    assert_eq!(builder.estimated_size(), 0);
    builder.add(KeySlice::from_slice(b"22"), b"22");
    // the first block went out: 8 bytes of entry, one offset, the count
    assert_eq!(builder.estimated_size(), 12);
    builder.add(KeySlice::from_slice(b"33"), b"11");
    assert_eq!(builder.estimated_size(), 24);
    let table = builder.build_for_test();
    assert_eq!(table.sst_id(), 0);
    assert_eq!(table.num_of_blocks(), 3);
    assert_eq!(table.block_meta(0).offset, 0);
    assert_eq!(table.block_meta(1).offset, 12);
    assert_eq!(table.block_meta(2).offset, 24);
    assert_eq!(table.block_meta(1).first_key.raw_ref(), b"22");
    assert_eq!(table.block_meta(1).last_key.raw_ref(), b"22");
    assert_eq!(table.first_key().raw_ref(), b"11");
    assert_eq!(table.last_key().raw_ref(), b"33");
}

#[test]
fn directory_names_first_and_last_key_of_each_block() {
    let table = numbered_table(100, 128);
    assert!(table.num_of_blocks() > 1);
    let mut total = 0;
    for idx in 0..table.num_of_blocks() {
        let block = table.read_block(idx).unwrap();
        let meta = table.block_meta(idx);
        let mut iter = BlockIterator::create_and_seek_to_first(block);
        assert_eq!(iter.key().raw_ref(), meta.first_key.raw_ref());
        let mut last = Vec::new();
        while iter.is_valid() {
            last = iter.key().raw_ref().to_vec();
            total += 1;
            iter.next();
        }
        assert_eq!(&last[..], meta.last_key.raw_ref());
    }
    assert_eq!(total, 100);
    assert_eq!(table.first_key().raw_ref(), &key_of(0)[..]);
    assert_eq!(table.last_key().raw_ref(), &key_of(99)[..]);
}

#[test]
fn full_scan_yields_what_was_added() {
    let table = Arc::new(numbered_table(100, 128));
    let mut iter = SsTableIterator::create_and_seek_to_first(table).unwrap();
    let expected: Vec<(Vec<u8>, Vec<u8>)> = (0..100).map(|i| (key_of(i), value_of(i))).collect();
    for _ in 0..3 {
        assert_eq!(scan(&mut iter), expected);
        assert!(!iter.is_valid());
        iter.next().unwrap();
        assert!(!iter.is_valid());
        iter.seek_to_first().unwrap();
    }
}

#[test]
fn seek_to_key_finds_smallest_key_not_before_across_blocks() {
    let table = Arc::new(numbered_table(100, 128));
    let mut iter =
        SsTableIterator::create_and_seek_to_key(table, KeySlice::from_slice(&key_of(0))).unwrap();
    for offset in 1..=5usize {
        for i in 0..100usize {
            assert!(iter.is_valid());
            assert_eq!(iter.key().raw_ref(), &key_of(i)[..]);
            assert_eq!(iter.value(), &value_of(i)[..]);
            let probe = format!("key_{:03}", i * 5 + offset);
            iter.seek_to_key(KeySlice::from_slice(probe.as_bytes())).unwrap();
        }
        assert!(!iter.is_valid());
        iter.seek_to_key(KeySlice::from_slice(b"k")).unwrap();
    }
}

#[test]
fn seek_to_key_between_blocks_lands_on_the_next_block() {
    let table = Arc::new(numbered_table(100, 128));
    for idx in 0..table.num_of_blocks() - 1 {
        let mut after_last = table.block_meta(idx).last_key.raw_ref().to_vec();
        after_last.push(0);
        let iter = SsTableIterator::create_and_seek_to_key(
            table.clone(),
            KeySlice::from_slice(&after_last),
        )
        .unwrap();
        assert!(iter.is_valid());
        assert_eq!(
            iter.key().raw_ref(),
            table.block_meta(idx + 1).first_key.raw_ref()
        );
    }
}

#[test]
fn seek_to_key_edges_of_the_table() {
    let table = Arc::new(numbered_table(10, 64));
    let iter =
        SsTableIterator::create_and_seek_to_key(table.clone(), KeySlice::from_slice(b"a")).unwrap();
    assert!(iter.is_valid());
    assert_eq!(iter.key().raw_ref(), &key_of(0)[..]);
    let iter =
        SsTableIterator::create_and_seek_to_key(table.clone(), KeySlice::from_slice(&key_of(9)))
            .unwrap();
    assert!(iter.is_valid());
    assert_eq!(iter.key().raw_ref(), &key_of(9)[..]);
    assert_eq!(iter.value(), &value_of(9)[..]);
    let iter =
        SsTableIterator::create_and_seek_to_key(table, KeySlice::from_slice(b"key_046")).unwrap();
    assert!(!iter.is_valid());
}

#[test]
fn merge_over_tables_prefers_the_earlier_table() {
    let mut newer = SsTableBuilder::new(32);
    newer.add(KeySlice::from_slice(b"b"), b"new b");
    newer.add(KeySlice::from_slice(b"d"), b"new d");
    let mut older = SsTableBuilder::new(32);
    older.add(KeySlice::from_slice(b"a"), b"old a");
    older.add(KeySlice::from_slice(b"b"), b"old b");
    older.add(KeySlice::from_slice(b"c"), b"old c");
    older.add(KeySlice::from_slice(b"d"), b"old d");
    older.add(KeySlice::from_slice(b"e"), b"old e");
    let iters = vec![
        Box::new(SsTableIterator::create_and_seek_to_first(Arc::new(newer.build(2))).unwrap()),
        Box::new(SsTableIterator::create_and_seek_to_first(Arc::new(older.build(1))).unwrap()),
    ];
    let mut merged = MergeIterator::create(iters);
    let mut seen = Vec::new();
    while merged.is_valid() {
        seen.push((
            merged.key().raw_ref().to_vec(),
            merged.value().to_vec(),
        ));
        merged.next().unwrap();
    }
    let expected: Vec<(Vec<u8>, Vec<u8>)> = vec![
        (b"a".to_vec(), b"old a".to_vec()),
        (b"b".to_vec(), b"new b".to_vec()),
        (b"c".to_vec(), b"old c".to_vec()),
        (b"d".to_vec(), b"new d".to_vec()),
        (b"e".to_vec(), b"old e".to_vec()),
    ];
    assert_eq!(seen, expected);
}

#[test]
fn decode_block_meta_undoes_encode() {
    let table = numbered_table(100, 128);
    let count = table.num_of_blocks();
    let bytes = table.file().as_bytes();
    let n = bytes.len();
    let at = u32::from_be_bytes([bytes[n - 4], bytes[n - 3], bytes[n - 2], bytes[n - 1]]) as usize;
    let metas = BlockMeta::decode_block_meta(&bytes[at..n - 4]).unwrap();
    assert_eq!(metas.len(), count);
    for (idx, meta) in metas.iter().enumerate() {
        assert_eq!(meta.offset, table.block_meta(idx).offset);
        assert_eq!(meta.first_key.raw_ref(), table.block_meta(idx).first_key.raw_ref());
        assert_eq!(meta.last_key.raw_ref(), table.block_meta(idx).last_key.raw_ref());
    }
    let mut again = Vec::new();
    BlockMeta::encode_block_meta(&metas, &mut again);
    assert_eq!(&again[..], &bytes[at..n - 4]);
}

#[test]
fn decode_block_meta_reads_records() {
    let bytes: Vec<u8> = vec![
        0, 0, 0, 0, 0, 1, b'a', 0, 2, b'c', b'c', // first record
        1, 2, 3, 4, 0, 1, b'd', 0, 0, // second record, with an empty last key
    ];
    let metas = BlockMeta::decode_block_meta(&bytes).unwrap();
    assert_eq!(metas.len(), 2);
    assert_eq!(metas[0].offset, 0);
    assert_eq!(metas[0].first_key.raw_ref(), b"a");
    assert_eq!(metas[0].last_key.raw_ref(), b"cc");
    assert_eq!(metas[1].offset, 0x01020304);
    assert_eq!(metas[1].first_key.raw_ref(), b"d");
    assert_eq!(metas[1].last_key.raw_ref(), b"");
    assert_eq!(BlockMeta::decode_block_meta(&[]).unwrap().len(), 0);
}

#[test]
fn decode_block_meta_refuses_records_cut_short() {
    let bytes: Vec<u8> = vec![0, 0, 0, 0, 0, 1, b'a', 0, 2, b'c', b'c'];
    assert!(BlockMeta::decode_block_meta(&bytes).is_some());
    for cut in 1..bytes.len() {
        assert!(BlockMeta::decode_block_meta(&bytes[..cut]).is_none());
    }
    let mut longer = bytes.clone();
    longer.push(0);
    assert!(BlockMeta::decode_block_meta(&longer).is_none());
}

#[test]
fn open_reads_back_what_build_wrote() {
    let table = numbered_table(100, 128);
    let bytes = table.file().as_bytes().to_vec();
    let opened = SsTable::open(9, FileObject::from_bytes(bytes.clone())).unwrap();
    assert_eq!(opened.sst_id(), 9);
    assert_eq!(opened.num_of_blocks(), table.num_of_blocks());
    assert_eq!(opened.first_key().raw_ref(), table.first_key().raw_ref());
    assert_eq!(opened.last_key().raw_ref(), table.last_key().raw_ref());
    assert_eq!(opened.file().as_bytes(), &bytes[..]);
    let mut iter = SsTableIterator::create_and_seek_to_first(Arc::new(opened)).unwrap();
    let expected: Vec<(Vec<u8>, Vec<u8>)> = (0..100).map(|i| (key_of(i), value_of(i))).collect();
    assert_eq!(scan(&mut iter), expected);
}

fn corruption(block_idx: Option<usize>) -> mini_lsm::error::LsmError {
    mini_lsm::error::LsmError::Corruption {
        table_id: 4,
        block_idx,
    }
}

fn open_error(bytes: Vec<u8>) -> Option<mini_lsm::error::LsmError> {
    SsTable::open(4, FileObject::from_bytes(bytes)).err()
}

#[test]
fn open_names_a_damaged_directory() {
    let table = numbered_table(20, 64);
    let bytes = table.file().as_bytes().to_vec();
    let n = bytes.len();
    assert_eq!(open_error(Vec::new()), Some(corruption(None)));
    assert_eq!(open_error(vec![0, 0, 0]), Some(corruption(None)));
    // no block at all
    assert_eq!(open_error(vec![0, 0, 0, 0]), Some(corruption(None)));
    // the position of the directory points beyond the file
    let mut damaged = bytes.clone();
    damaged[n - 4] = 0xff;
    assert_eq!(open_error(damaged), Some(corruption(None)));
    // the directory is cut short
    let mut damaged = bytes.clone();
    damaged.remove(n - 5);
    assert_eq!(open_error(damaged), Some(corruption(None)));
}

#[test]
fn open_names_the_first_damaged_block() {
    let table = numbered_table(20, 64);
    assert!(table.num_of_blocks() >= 3);
    let bytes = table.file().as_bytes().to_vec();
    // an empty key in the first entry of block 1
    let at = table.block_meta(1).offset;
    let mut damaged = bytes.clone();
    damaged[at] = 0;
    damaged[at + 1] = 0;
    assert_eq!(open_error(damaged), Some(corruption(Some(1))));
    // a changed key in block 0: the directory no longer names its first key
    let mut damaged = bytes.clone();
    damaged[2] = b'j';
    assert_eq!(open_error(damaged), Some(corruption(Some(0))));
    // a wrong count of entries in the last block
    let last = table.num_of_blocks() - 1;
    let end = {
        let n = bytes.len();
        u32::from_be_bytes([bytes[n - 4], bytes[n - 3], bytes[n - 2], bytes[n - 1]]) as usize
    };
    let mut damaged = bytes.clone();
    damaged[end - 1] = damaged[end - 1].wrapping_add(1);
    assert_eq!(open_error(damaged), Some(corruption(Some(last))));
    // two blocks damaged: the first one is named
    let mut damaged = bytes.clone();
    damaged[table.block_meta(2).offset + 1] = 0;
    damaged[table.block_meta(1).offset + 1] = 0;
    assert_eq!(open_error(damaged), Some(corruption(Some(1))));
}

#[test]
fn builder_knows_when_it_can_build() {
    let mut builder = SsTableBuilder::new(64);
    assert!(builder.is_empty());
    assert!(!builder.can_build());
    builder.add(KeySlice::from_slice(b"a"), b"1");
    assert!(!builder.is_empty());
    assert!(builder.can_build());
}

#[test]
fn open_refuses_keys_out_of_order() {
    // out of order within the second block
    let mut builder = SsTableBuilder::new(20);
    builder.add(KeySlice::from_slice(b"a"), b"11");
    builder.add(KeySlice::from_slice(b"b"), b"22");
    builder.add(KeySlice::from_slice(b"d"), b"33");
    builder.add(KeySlice::from_slice(b"c"), b"44");
    let table = builder.build(4);
    assert_eq!(table.num_of_blocks(), 2);
    assert_eq!(
        open_error(table.file().as_bytes().to_vec()),
        Some(corruption(Some(1)))
    );

    // the third block starts before the second one ends
    let mut builder = SsTableBuilder::new(16);
    builder.add(KeySlice::from_slice(b"a"), b"11");
    builder.add(KeySlice::from_slice(b"c"), b"22");
    builder.add(KeySlice::from_slice(b"b"), b"33");
    let table = builder.build(4);
    assert_eq!(table.num_of_blocks(), 3);
    assert_eq!(
        open_error(table.file().as_bytes().to_vec()),
        Some(corruption(Some(2)))
    );

    // the same key at the end of one block and at the start of the next
    let mut builder = SsTableBuilder::new(16);
    builder.add(KeySlice::from_slice(b"a"), b"11");
    builder.add(KeySlice::from_slice(b"a"), b"22");
    let table = builder.build(4);
    assert_eq!(
        open_error(table.file().as_bytes().to_vec()),
        Some(corruption(Some(1)))
    );
}

#[test]
fn table_built_out_of_order_still_scans_as_added() {
    let mut builder = SsTableBuilder::new(20);
    let added: Vec<(&[u8], &[u8])> = vec![(b"d", b"1"), (b"a", b"2"), (b"c", b"3"), (b"b", b"4")];
    for (key, value) in &added {
        builder.add(KeySlice::from_slice(key), value);
    }
    let mut iter = SsTableIterator::create_and_seek_to_first(Arc::new(builder.build(1))).unwrap();
    let seen = scan(&mut iter);
    let expected: Vec<(Vec<u8>, Vec<u8>)> =
        added.iter().map(|(k, v)| (k.to_vec(), v.to_vec())).collect();
    assert_eq!(seen, expected);
}
