use std::sync::Arc;

use mini_lsm::block::{Block, BlockBuilder, BlockIterator, SIZE_OF_U16};
use mini_lsm::key::KeySlice;

fn build(entries: &[(&[u8], &[u8])], block_size: usize) -> Block {
    let mut builder = BlockBuilder::new(block_size);
    for (key, value) in entries {
        assert!(builder.add(KeySlice::from_slice(key), value));
    }
    builder.build()
}

fn numbered(count: usize) -> Vec<(Vec<u8>, Vec<u8>)> {
    (0..count)
        .map(|i| {
            (
                format!("key_{:03}", i * 5).into_bytes(),
                format!("value_{:010}", i).into_bytes(),
            )
        })
        .collect()
}

fn numbered_block(count: usize) -> Block {
    let mut builder = BlockBuilder::new(10000);
    for (key, value) in numbered(count) {
        assert!(builder.add(KeySlice::from_slice(&key), &value));
    }
    builder.build()
}

#[test]
fn size_of_u16_is_two() {
    assert_eq!(SIZE_OF_U16, 2);
}

#[test]
fn builder_lays_entries_out_back_to_back() {
    let block = build(&[(b"k", b"vv"), (b"kk", b""), (&[0x01, 0x02], &[0xff])], 4096);
    let expected: Vec<u8> = vec![
        0, 1, b'k', 0, 2, b'v', b'v', // first entry
        0, 2, b'k', b'k', 0, 0, // second entry, empty value
        0, 2, 1, 2, 0, 1, 0xff, // third entry
    ];
    assert_eq!(block.data(), &expected[..]);
    assert_eq!(block.offsets(), &[0u16, 7, 13][..]);
}

#[test]
fn builder_writes_lengths_big_endian() {
    let key = vec![b'k'; 300];
    let value = vec![b'v'; 513];
    let block = build(&[(&key, &value)], 4096);
    let data = block.data();
    assert_eq!(&data[0..2], &[0x01, 0x2c]);
    assert_eq!(&data[2..302], &key[..]);
    assert_eq!(&data[302..304], &[0x02, 0x01]);
    assert_eq!(&data[304..], &value[..]);
}

#[test]
fn builder_is_empty_until_first_entry() {
    let mut builder = BlockBuilder::new(100);
    assert!(builder.is_empty());
    assert!(builder.add(KeySlice::from_slice(b"a"), b"1"));
    assert!(!builder.is_empty());
}

#[test]
fn builder_takes_first_entry_whatever_its_size() {
    let mut builder = BlockBuilder::new(1);
    let value = vec![7u8; 5000];
    assert!(builder.add(KeySlice::from_slice(b"big"), &value));
    assert!(!builder.add(KeySlice::from_slice(b"c"), b""));
    let block = builder.build();
    assert_eq!(block.offsets(), &[0u16][..]);
    assert_eq!(block.data().len(), 2 + 3 + 2 + 5000);
}

#[test]
fn builder_counts_entry_offset_and_count() {
    // 7 bytes of entry, one offset and the count make 11; the next entry of
    // 7 bytes with its offset makes 20.
    let mut exact = BlockBuilder::new(20);
    assert!(exact.add(KeySlice::from_slice(b"a"), b"11"));
    assert!(exact.add(KeySlice::from_slice(b"b"), b"22"));
    let mut short = BlockBuilder::new(19);
    assert!(short.add(KeySlice::from_slice(b"a"), b"11"));
    assert!(!short.add(KeySlice::from_slice(b"b"), b"22"));
    assert!(short.add(KeySlice::from_slice(b"b"), b"2"));
}

#[test]
fn builder_refuses_entry_that_no_offset_can_reach() {
    let mut builder = BlockBuilder::new(1 << 20);
    let value = vec![1u8; 65535];
    let key = vec![2u8; 1000];
    assert!(builder.add(KeySlice::from_slice(&key), &value));
    assert!(!builder.add(KeySlice::from_slice(b"z"), b"z"));
    let block = builder.build();
    assert_eq!(block.offsets(), &[0u16][..]);
    assert_eq!(block.data().len(), 2 + 1000 + 2 + 65535);
}

#[test]
fn refused_entry_leaves_block_unchanged() {
    let mut builder = BlockBuilder::new(16);
    assert!(builder.add(KeySlice::from_slice(b"11"), b"11"));
    assert!(!builder.add(KeySlice::from_slice(b"22"), b"22"));
    let block = builder.build();
    assert_eq!(block.data(), &[0, 2, b'1', b'1', 0, 2, b'1', b'1'][..]);
    assert_eq!(block.offsets(), &[0u16][..]);
}

#[test]
fn encode_puts_data_then_offsets_then_count() {
    let block = build(&[(b"a", b"x"), (b"b", b"y")], 4096);
    let encoded = block.encode();
    let expected: Vec<u8> = vec![
        0, 1, b'a', 0, 1, b'x', 0, 1, b'b', 0, 1, b'y', // entries
        0, 0, 0, 6, // offsets
        0, 2, // count
    ];
    assert_eq!(&encoded[..], &expected[..]);
}

#[test]
fn encode_writes_offsets_big_endian() {
    let value = vec![0u8; 600];
    let block = build(&[(b"a", &value), (b"b", b"")], 4096);
    let encoded = block.encode();
    let len = encoded.len();
    // the second entry starts at 2 + 1 + 2 + 600 = 605 = 0x025d
    assert_eq!(&encoded[len - 6..], &[0, 0, 0x02, 0x5d, 0, 2]);
}

#[test]
fn decode_reads_offsets_and_count_from_the_end() {
    let bytes: Vec<u8> = vec![
        0, 1, b'a', 0, 1, b'x', 0, 1, b'b', 0, 1, b'y', // entries
        0, 0, 0, 6, // offsets
        0, 2, // count
    ];
    let block = Block::decode(&bytes);
    assert_eq!(block.data(), &bytes[..12]);
    assert_eq!(block.offsets(), &[0u16, 6][..]);
}

#[test]
fn decode_reads_big_endian() {
    let bytes: Vec<u8> = vec![9, 9, 9, 0x01, 0x02, 0xab, 0xcd, 0, 2];
    let block = Block::decode(&bytes);
    assert_eq!(block.data(), &[9, 9, 9][..]);
    assert_eq!(block.offsets(), &[0x0102u16, 0xabcd][..]);
}

#[test]
fn decode_of_count_alone_is_empty() {
    let block = Block::decode(&[0, 0]);
    assert!(block.data().is_empty());
    assert!(block.offsets().is_empty());
}

#[test]
fn decode_undoes_encode() {
    let block = numbered_block(100);
    let encoded = block.encode();
    let decoded = Block::decode(&encoded);
    assert_eq!(decoded.data(), block.data());
    assert_eq!(decoded.offsets(), block.offsets());
    assert_eq!(&decoded.encode()[..], &encoded[..]);
}

#[test]
fn from_parts_keeps_the_parts() {
    let block = Block::from_parts(vec![0, 1, b'a', 0, 0], vec![0]);
    assert_eq!(block.data(), &[0, 1, b'a', 0, 0][..]);
    assert_eq!(block.offsets(), &[0u16][..]);
    let mut iter = BlockIterator::create_and_seek_to_first(Arc::new(block));
    assert!(iter.is_valid());
    assert_eq!(iter.key().raw_ref(), b"a");
    assert_eq!(iter.value(), b"");
    iter.next();
    assert!(!iter.is_valid());
}

#[test]
fn full_scan_visits_every_entry_once_in_order() {
    let entries = numbered(100);
    let block = Arc::new(numbered_block(100));
    let mut iter = BlockIterator::create_and_seek_to_first(block.clone());
    let mut seen: Vec<(Vec<u8>, Vec<u8>)> = Vec::new();
    while iter.is_valid() {
        seen.push((iter.key().raw_ref().to_vec(), iter.value().to_vec()));
        iter.next();
    }
    assert_eq!(seen.len(), block.offsets().len());
    assert_eq!(seen, entries);
    for pair in seen.windows(2) {
        assert!(pair[0].0 < pair[1].0);
    }
}

#[test]
fn next_past_the_end_changes_nothing() {
    let block = Arc::new(build(&[(b"a", b"1")], 100));
    let mut iter = BlockIterator::create_and_seek_to_first(block);
    iter.next();
    assert!(!iter.is_valid());
    iter.next();
    assert!(!iter.is_valid());
    iter.seek_to_first();
    assert!(iter.is_valid());
    assert_eq!(iter.key().raw_ref(), b"a");
    assert_eq!(iter.value(), b"1");
}

#[test]
fn seek_to_key_finds_smallest_key_not_before() {
    let block = Arc::new(numbered_block(100));
    let mut iter = BlockIterator::create_and_seek_to_key(block, KeySlice::from_slice(b"key_000"));
    for offset in 1..=5usize {
        for i in 0..100usize {
            assert!(iter.is_valid());
            assert_eq!(iter.key().raw_ref(), format!("key_{:03}", i * 5).as_bytes());
            assert_eq!(iter.value(), format!("value_{:010}", i).as_bytes());
            let probe = format!("key_{:03}", i * 5 + offset);
            iter.seek_to_key(KeySlice::from_slice(probe.as_bytes()));
        }
        assert!(!iter.is_valid());
        iter.seek_to_key(KeySlice::from_slice(b"k"));
    }
}

#[test]
fn seek_to_key_edges() {
    let block = Arc::new(build(&[(b"b", b"1"), (b"d", b"2"), (b"f", b"3")], 4096));
    let probe = |key: &[u8]| -> Option<(Vec<u8>, Vec<u8>)> {
        let iter = BlockIterator::create_and_seek_to_key(block.clone(), KeySlice::from_slice(key));
        if iter.is_valid() {
            Some((iter.key().raw_ref().to_vec(), iter.value().to_vec()))
        } else {
            None
        }
    };
    assert_eq!(probe(b"a"), Some((b"b".to_vec(), b"1".to_vec())));
    assert_eq!(probe(b"b"), Some((b"b".to_vec(), b"1".to_vec())));
    assert_eq!(probe(b"ba"), Some((b"d".to_vec(), b"2".to_vec())));
    assert_eq!(probe(b"d"), Some((b"d".to_vec(), b"2".to_vec())));
    assert_eq!(probe(b"e"), Some((b"f".to_vec(), b"3".to_vec())));
    assert_eq!(probe(b"f"), Some((b"f".to_vec(), b"3".to_vec())));
    assert_eq!(probe(b"fa"), None);
    assert_eq!(probe(b"z"), None);
}

#[test]
fn seek_to_key_then_scan_to_the_end() {
    let block = Arc::new(numbered_block(20));
    let mut iter = BlockIterator::create_and_seek_to_key(block, KeySlice::from_slice(b"key_051"));
    let mut count = 0;
    let mut expected = 11;
    while iter.is_valid() {
        assert_eq!(
            iter.key().raw_ref(),
            format!("key_{:03}", expected * 5).as_bytes()
        );
        expected += 1;
        count += 1;
        iter.next();
    }
    assert_eq!(count, 9);
}

#[test]
fn built_blocks_are_well_formed() {
    assert!(numbered_block(50).is_well_formed());
    assert!(build(&[(b"a", b"")], 10).is_well_formed());
    assert!(!BlockBuilder::new(10).build().is_well_formed());
}

#[test]
fn damaged_blocks_are_not_well_formed() {
    let good_data: Vec<u8> = vec![0, 1, b'a', 0, 1, b'x', 0, 1, b'b', 0, 1, b'y'];
    assert!(Block::from_parts(good_data.clone(), vec![0, 6]).is_well_formed());
    // no entry
    assert!(!Block::from_parts(Vec::new(), Vec::new()).is_well_formed());
    // first entry not at the start
    assert!(!Block::from_parts(good_data.clone(), vec![6]).is_well_formed());
    // an offset that points into an entry
    assert!(!Block::from_parts(good_data.clone(), vec![0, 5]).is_well_formed());
    // an offset beyond the data
    assert!(!Block::from_parts(good_data.clone(), vec![0, 12]).is_well_formed());
    // bytes after the last entry
    let mut longer = good_data.clone();
    longer.push(0);
    assert!(!Block::from_parts(longer, vec![0, 6]).is_well_formed());
    // a value cut short
    assert!(!Block::from_parts(good_data[..11].to_vec(), vec![0, 6]).is_well_formed());
    // a key length cut short
    assert!(!Block::from_parts(vec![0], vec![0]).is_well_formed());
    // an empty key
    assert!(!Block::from_parts(vec![0, 0, 0, 1, b'x'], vec![0]).is_well_formed());
    // a key that runs over the end
    assert!(!Block::from_parts(vec![0, 9, b'a', 0, 0], vec![0]).is_well_formed());
    // an entry missing from the directory
    assert!(!Block::from_parts(good_data, vec![0]).is_well_formed());
}

#[test]
fn decode_checked_takes_blocks_in_good_order_only() {
    let block = numbered_block(30);
    let encoded = block.encode();
    let decoded = Block::decode_checked(&encoded).unwrap();
    assert_eq!(decoded.data(), block.data());
    assert_eq!(decoded.offsets(), block.offsets());

    assert!(Block::decode_checked(&[]).is_none());
    assert!(Block::decode_checked(&[0]).is_none());
    // a count of no entries
    assert!(Block::decode_checked(&[0, 0]).is_none());
    // a count that asks for more offsets than there are bytes
    assert!(Block::decode_checked(&[0, 0, 0, 2]).is_none());
    // cut short at the front
    assert!(Block::decode_checked(&encoded[1..]).is_none());
    // one byte of an entry changed to a wrong length
    let mut damaged = encoded.to_vec();
    damaged[1] = 200;
    assert!(Block::decode_checked(&damaged).is_none());
}

#[test]
fn key_at_gives_the_key_of_each_entry() {
    let block = numbered_block(10);
    assert_eq!(block.num_of_entries(), 10);
    for (i, (key, _)) in numbered(10).iter().enumerate() {
        assert_eq!(block.key_at(i), &key[..]);
    }
}

#[test]
fn estimated_len_counts_entries_offsets_and_count() {
    let mut builder = BlockBuilder::new(4096);
    assert_eq!(builder.estimated_len(), 2);
    assert!(builder.add(KeySlice::from_slice(b"aaaa"), b"bbbb"));
    assert_eq!(builder.estimated_len(), 16);
    assert!(builder.add(KeySlice::from_slice(b"c"), b""));
    assert_eq!(builder.estimated_len(), 23);
    assert_eq!(builder.build().encode().len(), 23);
}

#[test]
fn is_sorted_tells_ascending_keys() {
    assert!(numbered_block(40).is_sorted());
    assert!(build(&[(b"a", b"")], 100).is_sorted());
    assert!(build(&[(b"a", b""), (b"aa", b""), (b"b", b"")], 100).is_sorted());
    assert!(!build(&[(b"b", b""), (b"a", b"")], 100).is_sorted());
    assert!(!build(&[(b"a", b"1"), (b"a", b"2")], 100).is_sorted());
    assert!(!build(&[(b"a", b""), (b"c", b""), (b"b", b"")], 100).is_sorted());
}

#[test]
fn decode_checked_refuses_keys_out_of_order() {
    let unsorted = build(&[(b"b", b"1"), (b"a", b"2")], 100);
    assert!(unsorted.is_well_formed());
    assert!(Block::decode_checked(&unsorted.encode()).is_none());
    let twice = build(&[(b"a", b"1"), (b"a", b"2")], 100);
    assert!(Block::decode_checked(&twice.encode()).is_none());
}
