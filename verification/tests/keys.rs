use mini_lsm::codec::load_u16;
use mini_lsm::key::{compare_keys, KeyBytes, KeyOrder, KeySlice, KeyVec};

#[test]
fn compare_keys_is_lexicographic() {
    assert_eq!(compare_keys(b"a", b"b"), KeyOrder::Less);
    assert_eq!(compare_keys(b"b", b"a"), KeyOrder::Greater);
    assert_eq!(compare_keys(b"a", b"a"), KeyOrder::Equal);
    assert_eq!(compare_keys(b"", b""), KeyOrder::Equal);
    assert_eq!(compare_keys(b"", b"a"), KeyOrder::Less);
    assert_eq!(compare_keys(b"a", b""), KeyOrder::Greater);
    assert_eq!(compare_keys(b"ab", b"a"), KeyOrder::Greater);
    assert_eq!(compare_keys(b"a", b"ab"), KeyOrder::Less);
    assert_eq!(compare_keys(b"ab", b"b"), KeyOrder::Less);
    assert_eq!(compare_keys(&[0xff], &[0x00, 0x00]), KeyOrder::Greater);
    assert_eq!(compare_keys(b"key099", b"key100"), KeyOrder::Less);
}

#[test]
fn compare_keys_agrees_with_slice_order() {
    let samples: Vec<&[u8]> = vec![b"", b"a", b"aa", b"ab", b"b", b"ba", &[0, 1], &[0xff]];
    for a in &samples {
        for b in &samples {
            let expected = match a.cmp(b) {
                std::cmp::Ordering::Less => KeyOrder::Less,
                std::cmp::Ordering::Equal => KeyOrder::Equal,
                std::cmp::Ordering::Greater => KeyOrder::Greater,
            };
            assert_eq!(compare_keys(a, b), expected);
            assert_eq!(
                KeySlice::from_slice(a).compare(KeySlice::from_slice(b)),
                expected
            );
        }
    }
}

#[test]
fn key_slice_shows_its_bytes() {
    let key = KeySlice::from_slice(b"hello");
    assert_eq!(key.raw_ref(), b"hello");
    assert_eq!(key.len(), 5);
    assert!(!key.is_empty());
    assert!(KeySlice::from_slice(b"").is_empty());
    let owned = key.to_key_vec();
    assert_eq!(owned.raw_ref(), b"hello");
    assert_eq!(owned.as_key_slice().raw_ref(), b"hello");
    assert_eq!(owned.len(), 5);
    assert_eq!(owned.into_inner(), b"hello".to_vec());
}

#[test]
fn key_vec_starts_empty() {
    let key = KeyVec::new();
    assert!(key.is_empty());
    assert_eq!(key.len(), 0);
    assert_eq!(key.raw_ref(), b"");
    let key = KeyVec::from_vec(vec![1, 2, 3]);
    assert!(!key.is_empty());
    assert_eq!(key.raw_ref(), &[1, 2, 3]);
}

#[test]
fn key_bytes_keeps_the_bytes_of_the_vector() {
    let key = KeyVec::from_vec(vec![9, 8, 7, 6]).into_key_bytes();
    assert_eq!(key.raw_ref(), &[9, 8, 7, 6]);
    assert_eq!(key.len(), 4);
    assert!(!key.is_empty());
    assert_eq!(key.as_key_slice().raw_ref(), &[9, 8, 7, 6]);
    let again = key.clone();
    assert_eq!(again.raw_ref(), &[9, 8, 7, 6]);
    let direct = KeyBytes::from_bytes(bytes::Bytes::from(vec![1u8, 2]));
    assert_eq!(direct.raw_ref(), &[1, 2]);
}

#[test]
fn load_reads_big_endian() {
    let data = [0x01u8, 0x02, 0x03, 0x04, 0x05];
    assert_eq!(load_u16(&data, 0), 0x0102);
    assert_eq!(load_u16(&data, 3), 0x0405);
    assert_eq!(load_u16(&[0xff, 0xff], 0), u16::MAX);
}
