use mini_lsm::error::LsmError;
use mini_lsm::iterators::merge_iterator::MergeIterator;
use mini_lsm::iterators::two_merge_iterator::TwoMergeIterator;
use mini_lsm::iterators::StorageIterator;
use mini_lsm::key::KeySlice;

struct ListIterator {
    data: Vec<(Vec<u8>, Vec<u8>)>,
    index: usize,
    fail_at: Option<usize>,
}

impl ListIterator {
    fn of(list: &[(&str, &str)]) -> Self {
        ListIterator {
            data: list
                .iter()
                .map(|(k, v)| (k.as_bytes().to_vec(), v.as_bytes().to_vec()))
                .collect(),
            index: 0,
            fail_at: None,
        }
    }

    fn failing(list: &[(&str, &str)], fail_at: usize) -> Self {
        let mut iter = Self::of(list);
        iter.fail_at = Some(fail_at);
        iter
    }
}

impl StorageIterator for ListIterator {
    fn value(&self) -> &[u8] {
        &self.data[self.index].1
    }

    fn key(&self) -> KeySlice<'_> {
        KeySlice::from_slice(&self.data[self.index].0)
    }

    fn is_valid(&self) -> bool {
        self.index < self.data.len()
    }

    fn next(&mut self) -> Result<(), LsmError> {
        if self.index < self.data.len() {
            self.index += 1;
        }
        match self.fail_at {
            Some(at) if at == self.index => Err(LsmError::Io { code: at as i32 }),
            _ => Ok(()),
        }
    }
}

fn collect<I: StorageIterator>(iter: &mut I) -> Vec<(String, String)> {
    let mut out = Vec::new();
    while iter.is_valid() {
        out.push((
            String::from_utf8(iter.key().raw_ref().to_vec()).unwrap(),
            String::from_utf8(iter.value().to_vec()).unwrap(),
        ));
        iter.next().unwrap();
    }
    out
}

fn owned(list: &[(&str, &str)]) -> Vec<(String, String)> {
    list.iter()
        .map(|(k, v)| (k.to_string(), v.to_string()))
        .collect()
}

fn boxed(lists: &[&[(&str, &str)]]) -> Vec<Box<ListIterator>> {
    lists.iter().map(|l| Box::new(ListIterator::of(l))).collect()
}

#[test]
fn merge_of_disjoint_sources_is_the_sorted_union() {
    let mut merged = MergeIterator::create(boxed(&[
        &[("b", "1"), ("e", "1"), ("h", "1")],
        &[("a", "2"), ("f", "2")],
        &[("c", "3"), ("d", "3"), ("g", "3"), ("i", "3")],
    ]));
    assert_eq!(
        collect(&mut merged),
        owned(&[
            ("a", "2"),
            ("b", "1"),
            ("c", "3"),
            ("d", "3"),
            ("e", "1"),
            ("f", "2"),
            ("g", "3"),
            ("h", "1"),
            ("i", "3"),
        ])
    );
}

#[test]
fn merge_yields_each_key_once_from_the_first_source_that_holds_it() {
    let lists: [&[(&str, &str)]; 3] = [
        &[("a", "1.1"), ("b", "2.1"), ("c", "3.1"), ("e", "")],
        &[("a", "1.2"), ("b", "2.2"), ("c", "3.2"), ("d", "4.2")],
        &[("b", "2.3"), ("c", "3.3"), ("d", "4.3")],
    ];
    let expected = owned(&[
        ("a", "1.1"),
        ("b", "2.1"),
        ("c", "3.1"),
        ("d", "4.2"),
        ("e", ""),
    ]);
    let mut merged = MergeIterator::create(boxed(&lists));
    assert_eq!(collect(&mut merged), expected);

    let mut merged = MergeIterator::create(boxed(&[lists[2], lists[1], lists[0]]));
    assert_eq!(
        collect(&mut merged),
        owned(&[
            ("a", "1.2"),
            ("b", "2.3"),
            ("c", "3.3"),
            ("d", "4.3"),
            ("e", ""),
        ])
    );
}

#[test]
fn merge_prefers_the_earlier_source_whatever_the_order_of_arrival() {
    let mut merged = MergeIterator::create(boxed(&[
        &[("k5", "late")],
        &[("k1", "x"), ("k5", "shadowed")],
        &[("k5", "also shadowed"), ("k6", "y")],
    ]));
    assert_eq!(
        collect(&mut merged),
        owned(&[("k1", "x"), ("k5", "late"), ("k6", "y")])
    );
}

#[test]
fn merge_of_nothing_is_invalid() {
    let mut merged = MergeIterator::<ListIterator>::create(Vec::new());
    assert!(!merged.is_valid());
    assert!(merged.next().is_ok());
    assert!(!merged.is_valid());
}

#[test]
fn merge_of_exhausted_sources_is_invalid() {
    let mut merged = MergeIterator::create(boxed(&[&[], &[], &[]]));
    assert!(!merged.is_valid());
    assert!(merged.next().is_ok());
    assert!(!merged.is_valid());
}

#[test]
fn merge_skips_sources_that_start_exhausted() {
    let mut merged = MergeIterator::create(boxed(&[&[], &[("a", "1")], &[], &[("a", "2"), ("b", "2")]]));
    assert_eq!(collect(&mut merged), owned(&[("a", "1"), ("b", "2")]));
}

#[test]
fn merge_of_one_source_is_that_source() {
    let mut merged = MergeIterator::create(boxed(&[&[("a", "1"), ("b", "2"), ("c", "3")]]));
    assert_eq!(
        collect(&mut merged),
        owned(&[("a", "1"), ("b", "2"), ("c", "3")])
    );
    assert!(merged.next().is_ok());
    assert!(!merged.is_valid());
}

#[test]
fn merge_hands_on_the_error_of_a_shadowed_source() {
    let iters = vec![
        Box::new(ListIterator::of(&[("a", "1"), ("b", "1")])),
        Box::new(ListIterator::failing(&[("a", "2"), ("c", "2")], 1)),
    ];
    let mut merged = MergeIterator::create(iters);
    assert!(merged.is_valid());
    assert_eq!(merged.key().raw_ref(), b"a");
    assert_eq!(merged.value(), b"1");
    assert_eq!(merged.next(), Err(LsmError::Io { code: 1 }));
}

#[test]
fn merge_hands_on_the_error_of_the_current_source() {
    let iters = vec![
        Box::new(ListIterator::failing(&[("a", "1"), ("b", "1"), ("d", "1")], 2)),
        Box::new(ListIterator::of(&[("c", "2")])),
    ];
    let mut merged = MergeIterator::create(iters);
    assert_eq!(merged.key().raw_ref(), b"a");
    assert!(merged.next().is_ok());
    assert_eq!(merged.key().raw_ref(), b"b");
    assert_eq!(merged.next(), Err(LsmError::Io { code: 2 }));
}

#[test]
fn merge_of_merges() {
    let inner0 = MergeIterator::create(boxed(&[&[("a", "00"), ("c", "00")], &[("a", "01"), ("b", "01")]]));
    let inner1 = MergeIterator::create(boxed(&[&[("b", "10"), ("d", "10")], &[("e", "11")]]));
    let mut merged = MergeIterator::create(vec![Box::new(inner0), Box::new(inner1)]);
    assert_eq!(
        collect(&mut merged),
        owned(&[
            ("a", "00"),
            ("b", "01"),
            ("c", "00"),
            ("d", "10"),
            ("e", "11"),
        ])
    );
}

#[test]
fn two_merge_is_the_sorted_union_with_a_on_collisions() {
    let a = ListIterator::of(&[("a", "1.1"), ("b", "2.1"), ("c", "3.1")]);
    let b = ListIterator::of(&[("a", "1.2"), ("b", "2.2"), ("c", "3.2"), ("d", "4.2")]);
    let mut merged = TwoMergeIterator::create(a, b).unwrap();
    assert_eq!(
        collect(&mut merged),
        owned(&[("a", "1.1"), ("b", "2.1"), ("c", "3.1"), ("d", "4.2")])
    );

    let a = ListIterator::of(&[("a", "1.2"), ("b", "2.2"), ("c", "3.2"), ("d", "4.2")]);
    let b = ListIterator::of(&[("a", "1.1"), ("b", "2.1"), ("c", "3.1")]);
    let mut merged = TwoMergeIterator::create(a, b).unwrap();
    assert_eq!(
        collect(&mut merged),
        owned(&[("a", "1.2"), ("b", "2.2"), ("c", "3.2"), ("d", "4.2")])
    );
}

#[test]
fn two_merge_interleaves_disjoint_sides() {
    let a = ListIterator::of(&[("b", "a"), ("d", "a"), ("e", "a")]);
    let b = ListIterator::of(&[("a", "b"), ("c", "b"), ("f", "b")]);
    let mut merged = TwoMergeIterator::create(a, b).unwrap();
    assert_eq!(
        collect(&mut merged),
        owned(&[
            ("a", "b"),
            ("b", "a"),
            ("c", "b"),
            ("d", "a"),
            ("e", "a"),
            ("f", "b"),
        ])
    );
}

#[test]
fn two_merge_with_an_empty_side() {
    let a = ListIterator::of(&[]);
    let b = ListIterator::of(&[("b", "2"), ("c", "3")]);
    let mut merged = TwoMergeIterator::create(a, b).unwrap();
    assert_eq!(collect(&mut merged), owned(&[("b", "2"), ("c", "3")]));

    let a = ListIterator::of(&[("b", "2"), ("c", "3")]);
    let b = ListIterator::of(&[]);
    let mut merged = TwoMergeIterator::create(a, b).unwrap();
    assert_eq!(collect(&mut merged), owned(&[("b", "2"), ("c", "3")]));

    let mut merged = TwoMergeIterator::create(ListIterator::of(&[]), ListIterator::of(&[])).unwrap();
    assert!(!merged.is_valid());
    assert!(merged.next().is_ok());
    assert!(!merged.is_valid());
}

#[test]
fn two_merge_fails_at_once_if_b_cannot_pass_a_collision() {
    let a = ListIterator::of(&[("a", "1")]);
    let b = ListIterator::failing(&[("a", "2"), ("b", "2")], 1);
    assert_eq!(
        TwoMergeIterator::create(a, b).err(),
        Some(LsmError::Io { code: 1 })
    );
}

#[test]
fn two_merge_hands_on_the_error_of_the_side_it_moves() {
    let a = ListIterator::failing(&[("a", "1"), ("c", "1")], 1);
    let b = ListIterator::of(&[("b", "2")]);
    let mut merged = TwoMergeIterator::create(a, b).unwrap();
    assert_eq!(merged.key().raw_ref(), b"a");
    assert_eq!(merged.next(), Err(LsmError::Io { code: 1 }));

    let a = ListIterator::of(&[("a", "1"), ("b", "1")]);
    let b = ListIterator::failing(&[("b", "2"), ("c", "2")], 1);
    let mut merged = TwoMergeIterator::create(a, b).unwrap();
    assert_eq!(merged.key().raw_ref(), b"a");
    assert_eq!(merged.next(), Err(LsmError::Io { code: 1 }));
}

#[test]
fn two_merge_over_a_merge() {
    let a = ListIterator::of(&[("b", "mem"), ("x", "mem")]);
    let b = MergeIterator::create(boxed(&[&[("a", "t0"), ("b", "t0")], &[("b", "t1"), ("c", "t1")]]));
    let mut merged = TwoMergeIterator::create(a, b).unwrap();
    assert_eq!(
        collect(&mut merged),
        owned(&[("a", "t0"), ("b", "mem"), ("c", "t1"), ("x", "mem")])
    );
}

struct Lcg(u64);

impl Lcg {
    fn next(&mut self) -> u64 {
        self.0 = self
            .0
            .wrapping_mul(6364136223846793005)
            .wrapping_add(1442695040888963407);
        self.0 >> 33
    }
}

#[test]
fn merge_of_many_sources_agrees_with_a_sorted_map() {
    let mut rng = Lcg(7);
    for round in 0..20 {
        let sources = 1 + (rng.next() % 40) as usize;
        let mut lists: Vec<Vec<(String, String)>> = Vec::new();
        let mut expected = std::collections::BTreeMap::new();
        for source in 0..sources {
            let mut keys = std::collections::BTreeSet::new();
            let count = (rng.next() % 30) as usize;
            for _ in 0..count {
                keys.insert(format!("key{:03}", rng.next() % 200));
            }
            let list: Vec<(String, String)> = keys
                .into_iter()
                .map(|k| (k, format!("r{}s{}", round, source)))
                .collect();
            for (k, v) in &list {
                expected.entry(k.clone()).or_insert(v.clone());
            }
            lists.push(list);
        }
        let iters: Vec<Box<ListIterator>> = lists
            .iter()
            .map(|list| {
                let borrowed: Vec<(&str, &str)> =
                    list.iter().map(|(k, v)| (k.as_str(), v.as_str())).collect();
                Box::new(ListIterator::of(&borrowed))
            })
            .collect();
        let mut merged = MergeIterator::create(iters);
        let seen = collect(&mut merged);
        let wanted: Vec<(String, String)> = expected.into_iter().collect();
        assert_eq!(seen, wanted);
    }
}

#[test]
fn merge_lets_go_of_a_failed_source_only() {
    // the source that fails is the third to hold "a"; the error comes with
    // the first step
    let iters = vec![
        Box::new(ListIterator::of(&[("a", "0"), ("b", "0")])),
        Box::new(ListIterator::of(&[("a", "1"), ("c", "1")])),
        Box::new(ListIterator::failing(&[("a", "2"), ("d", "2")], 1)),
        Box::new(ListIterator::of(&[("a", "3")])),
    ];
    let mut merged = MergeIterator::create(iters);
    assert_eq!(merged.key().raw_ref(), b"a");
    assert_eq!(merged.value(), b"0");
    assert_eq!(merged.next(), Err(LsmError::Io { code: 1 }));
}
