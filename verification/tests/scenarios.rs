use std::sync::Arc;

use mini_lsm::block::{Block, BlockBuilder, BlockIterator};
use mini_lsm::error::LsmError;
use mini_lsm::iterators::merge_iterator::MergeIterator;
use mini_lsm::iterators::two_merge_iterator::TwoMergeIterator;
use mini_lsm::iterators::StorageIterator;
use mini_lsm::key::KeySlice;
use mini_lsm::table::{SsTableBuilder, SsTableIterator};

struct MockIterator {
    data: Vec<(Vec<u8>, Vec<u8>)>,
    index: usize,
}

impl MockIterator {
    fn new(pairs: &[(&str, &str)]) -> Self {
        MockIterator {
            data: pairs
                .iter()
                .map(|(k, v)| (k.as_bytes().to_vec(), v.as_bytes().to_vec()))
                .collect(),
            index: 0,
        }
    }
}

impl StorageIterator for MockIterator {
    fn value(&self) -> &[u8] {
        &self.data[self.index].1
    }

    fn key(&self) -> KeySlice<'_> {
        KeySlice::from_slice(&self.data[self.index].0)
    }

    fn is_valid(&self) -> bool {
        self.index < self.data.len()
    }

    fn next(&mut self) -> Result<(), LsmError> {
        if self.index < self.data.len() {
            self.index += 1;
        }
        Ok(())
    }
}

fn drain<I: StorageIterator>(iter: &mut I) -> Vec<(Vec<u8>, Vec<u8>)> {
    let mut out = Vec::new();
    while iter.is_valid() {
        out.push((iter.key().raw_ref().to_vec(), iter.value().to_vec()));
        iter.next().unwrap();
    }
    out
}

fn pairs(list: &[(&str, &str)]) -> Vec<(Vec<u8>, Vec<u8>)> {
    list.iter()
        .map(|(k, v)| (k.as_bytes().to_vec(), v.as_bytes().to_vec()))
        .collect()
}

fn fruit_block() -> Block {
    let mut builder = BlockBuilder::new(4096);
    assert!(builder.add(KeySlice::from_slice(b"apple"), b"1"));
    assert!(builder.add(KeySlice::from_slice(b"banana"), b"2"));
    assert!(builder.add(KeySlice::from_slice(b"cherry"), b"3"));
    builder.build()
}

#[test]
fn block_round_trip() {
    let block = fruit_block();
    let encoded = block.encode();
    let mut expected: Vec<u8> = Vec::new();
    expected.extend_from_slice(&[0, 5]);
    expected.extend_from_slice(b"apple");
    expected.extend_from_slice(&[0, 1]);
    expected.extend_from_slice(b"1");
    expected.extend_from_slice(&[0, 6]);
    expected.extend_from_slice(b"banana");
    expected.extend_from_slice(&[0, 1]);
    expected.extend_from_slice(b"2");
    expected.extend_from_slice(&[0, 6]);
    expected.extend_from_slice(b"cherry");
    expected.extend_from_slice(&[0, 1]);
    expected.extend_from_slice(b"3");
    expected.extend_from_slice(&[0, 0, 0, 10, 0, 21]);
    expected.extend_from_slice(&[0, 3]);
    assert_eq!(&encoded[..], &expected[..]);

    let decoded = Block::decode(&encoded);
    assert_eq!(decoded.data(), block.data());
    assert_eq!(decoded.offsets(), block.offsets());
    assert_eq!(decoded.offsets(), &[0u16, 10, 21][..]);

    let mut iter = BlockIterator::create_and_seek_to_first(Arc::new(decoded));
    let mut seen = Vec::new();
    while iter.is_valid() {
        seen.push((iter.key().raw_ref().to_vec(), iter.value().to_vec()));
        iter.next();
    }
    assert_eq!(
        seen,
        pairs(&[("apple", "1"), ("banana", "2"), ("cherry", "3")])
    );
}

// The first entry is taken whatever the block size. The second entry of
// four and four bytes brings the block to 12 + 12 bytes of entries, two
// offsets and the count: 30 bytes, which a block size of 32 still holds and
// one of 29 does not.
#[test]
fn block_overflow_guard() {
    let mut builder = BlockBuilder::new(32);
    assert!(builder.add(KeySlice::from_slice(b"aaaa"), b"bbbb"));
    assert!(builder.add(KeySlice::from_slice(b"cccc"), b"dddd"));
    assert!(!builder.add(KeySlice::from_slice(b"e"), b""));

    let mut builder = BlockBuilder::new(29);
    assert!(builder.add(KeySlice::from_slice(b"aaaa"), b"bbbb"));
    assert!(!builder.add(KeySlice::from_slice(b"cccc"), b"dddd"));
    assert!(!builder.is_empty());
    let block = builder.build();
    assert_eq!(block.offsets(), &[0u16][..]);
    assert_eq!(block.data().len(), 12);

    let mut builder = BlockBuilder::new(16);
    assert!(builder.add(KeySlice::from_slice(b"11"), b"11"));
    assert!(!builder.add(KeySlice::from_slice(b"22"), b"22"));
}

#[test]
fn merge_iterator_shadowing() {
    let iter0 = MockIterator::new(&[("k1", "A"), ("k2", "A")]);
    let iter1 = MockIterator::new(&[("k1", "B"), ("k3", "B")]);
    let mut merged = MergeIterator::create(vec![Box::new(iter0), Box::new(iter1)]);
    assert_eq!(
        drain(&mut merged),
        pairs(&[("k1", "A"), ("k2", "A"), ("k3", "B")])
    );
}

#[test]
fn merge_iterator_tie_on_all_sources() {
    let iters = vec![
        Box::new(MockIterator::new(&[("k1", "V0")])),
        Box::new(MockIterator::new(&[("k1", "V1")])),
        Box::new(MockIterator::new(&[("k1", "V2")])),
        Box::new(MockIterator::new(&[("k1", "V3")])),
    ];
    let mut merged = MergeIterator::create(iters);
    assert!(merged.is_valid());
    assert_eq!(merged.key().raw_ref(), b"k1");
    assert_eq!(merged.value(), b"V0");
    merged.next().unwrap();
    assert!(!merged.is_valid());
}

#[test]
fn two_merge_iterator_prefers_a() {
    let a = MockIterator::new(&[("k1", "A1"), ("k3", "A3")]);
    let b = MockIterator::new(&[("k1", "B1"), ("k2", "B2"), ("k3", "B3")]);
    let mut merged = TwoMergeIterator::create(a, b).unwrap();
    assert_eq!(
        drain(&mut merged),
        pairs(&[("k1", "A1"), ("k2", "B2"), ("k3", "A3")])
    );
}

#[test]
fn sst_multi_block_seek() {
    let mut builder = SsTableBuilder::new(64);
    for i in 0..100 {
        let key = format!("key{:03}", i);
        let value = format!("val{:03}", i);
        builder.add(KeySlice::from_slice(key.as_bytes()), value.as_bytes());
    }
    let table = Arc::new(builder.build(7));
    assert!(table.num_of_blocks() > 1);
    let mut iter =
        SsTableIterator::create_and_seek_to_key(table, KeySlice::from_slice(b"key050")).unwrap();
    assert!(iter.is_valid());
    assert_eq!(iter.key().raw_ref(), b"key050");
    assert_eq!(iter.value(), b"val050");
    let rest = drain(&mut iter);
    assert_eq!(rest.len(), 50);
    for (n, (key, value)) in rest.iter().enumerate() {
        assert_eq!(key, format!("key{:03}", 50 + n).as_bytes());
        assert_eq!(value, format!("val{:03}", 50 + n).as_bytes());
    }
}
