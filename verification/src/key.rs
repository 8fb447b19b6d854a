//! Keys: byte strings under the lexicographic order.
//!
//! A key is an opaque, non-empty byte sequence. The empty byte sequence is
//! reserved: iterators use it to mark a position that holds no entry.
//! Three flavours exist by ownership; all of them view as a `Seq<u8>`.

use vstd::prelude::*;
use vstd::slice::slice_to_vec;
use crate::codec::{bytes_as_slice, bytes_clone, bytes_from_vec, bytes_view};

verus! {

/// Strict lexicographic order on byte strings: the first differing byte
/// decides, and a proper prefix comes before its extensions.
pub open spec fn key_lt(a: Seq<u8>, b: Seq<u8>) -> bool
    decreases a.len(),
{
    if b.len() == 0 {
        false
    } else if a.len() == 0 {
        true
    } else if a[0] != b[0] {
        a[0] < b[0]
    } else {
        key_lt(a.skip(1), b.skip(1))
    }
}

/// How two keys stand to each other.
#[derive(Clone, Copy, Debug, PartialEq, Eq, Structural)]
pub enum KeyOrder {
    Less,
    Equal,
    Greater,
}

/// The relation of `a` to `b` under the lexicographic order.
pub open spec fn key_order(a: Seq<u8>, b: Seq<u8>) -> KeyOrder {
    if key_lt(a, b) {
        KeyOrder::Less
    } else if a == b {
        KeyOrder::Equal
    } else {
        KeyOrder::Greater
    }
}

/// No key is before itself.
pub proof fn lemma_key_lt_irreflexive(a: Seq<u8>)
    ensures
        !key_lt(a, a),
    decreases a.len(),
{
    if a.len() > 0 {
        lemma_key_lt_irreflexive(a.skip(1));
    }
}

/// Of two keys at most one is before the other.
pub proof fn lemma_key_lt_asymmetric(a: Seq<u8>, b: Seq<u8>)
    ensures
        !(key_lt(a, b) && key_lt(b, a)),
    decreases a.len(),
{
    if a.len() > 0 && b.len() > 0 && a[0] == b[0] {
        lemma_key_lt_asymmetric(a.skip(1), b.skip(1));
    }
}

/// The order is transitive.
pub proof fn lemma_key_lt_transitive(a: Seq<u8>, b: Seq<u8>, c: Seq<u8>)
    requires
        key_lt(a, b),
        key_lt(b, c),
    ensures
        key_lt(a, c),
    decreases a.len(),
{
    if a.len() > 0 && b.len() > 0 && c.len() > 0 && a[0] == b[0] && b[0] == c[0] {
        lemma_key_lt_transitive(a.skip(1), b.skip(1), c.skip(1));
    }
}

/// Two keys are equal, or one of them is before the other.
pub proof fn lemma_key_lt_total(a: Seq<u8>, b: Seq<u8>)
    ensures
        key_lt(a, b) || a == b || key_lt(b, a),
    decreases a.len(),
{
    if a.len() > 0 && b.len() > 0 && a[0] == b[0] {
        lemma_key_lt_total(a.skip(1), b.skip(1));
        if a.skip(1) == b.skip(1) {
            assert(a =~= seq![a[0]] + a.skip(1));
            assert(b =~= seq![b[0]] + b.skip(1));
        }
    } else if a.len() == 0 && b.len() == 0 {
        assert(a =~= b);
    }
}

/// The three relations are those of the order: `Less` where the first key
/// is before the second, `Greater` where the second is before the first,
/// `Equal` where the two are the same.
pub proof fn lemma_key_order(a: Seq<u8>, b: Seq<u8>)
    ensures
        key_order(a, b) == KeyOrder::Less <==> key_lt(a, b),
        key_order(a, b) == KeyOrder::Equal <==> a == b,
        key_order(a, b) == KeyOrder::Greater <==> key_lt(b, a),
{
    lemma_key_lt_total(a, b);
    lemma_key_lt_asymmetric(a, b);
    lemma_key_lt_irreflexive(a);
}

/// A common prefix does not change how two keys compare.
proof fn lemma_key_lt_skip_common(a: Seq<u8>, b: Seq<u8>, i: int)
    requires
        0 <= i <= a.len(),
        i <= b.len(),
        forall|j: int| 0 <= j < i ==> a[j] == b[j],
    ensures
        key_lt(a, b) == key_lt(a.skip(i), b.skip(i)),
        (a == b) == (a.skip(i) == b.skip(i)),
    decreases i,
{
    if i == 0 {
        assert(a.skip(0) =~= a);
        assert(b.skip(0) =~= b);
    } else {
        lemma_key_lt_skip_common(a, b, i - 1);
        let a1 = a.skip(i - 1);
        let b1 = b.skip(i - 1);
        assert(a1[0] == a[i - 1]);
        assert(b1[0] == b[i - 1]);
        assert(a1.skip(1) =~= a.skip(i));
        assert(b1.skip(1) =~= b.skip(i));
        if a.skip(i) == b.skip(i) {
            assert(a1 =~= seq![a1[0]] + a1.skip(1));
            assert(b1 =~= seq![b1[0]] + b1.skip(1));
        }
    }
}

/// Compares two byte strings lexicographically.
pub fn compare_keys(a: &[u8], b: &[u8]) -> (o: KeyOrder)
    ensures
        o == key_order(a@, b@),
{
    let mut i: usize = 0;
    while i < a.len() && i < b.len()
        invariant
            i <= a@.len(),
            i <= b@.len(),
            forall|j: int| 0 <= j < i ==> a@[j] == b@[j],
        decreases a@.len() - i,
    {
        if a[i] != b[i] {
            proof {
                lemma_key_lt_skip_common(a@, b@, i as int);
                assert(a@.skip(i as int)[0] == a@[i as int]);
                assert(b@.skip(i as int)[0] == b@[i as int]);
            }
            if a[i] < b[i] {
                return KeyOrder::Less;
            } else {
                return KeyOrder::Greater;
            }
        }
        i += 1;
    }
    proof {
        lemma_key_lt_skip_common(a@, b@, i as int);
        if a@.len() == b@.len() {
            assert(a@.skip(i as int) =~= b@.skip(i as int));
            lemma_key_lt_irreflexive(a@);
        }
    }
    if a.len() == b.len() {
        KeyOrder::Equal
    } else if a.len() < b.len() {
        KeyOrder::Less
    } else {
        KeyOrder::Greater
    }
}

/// A borrowed key.
#[derive(Clone, Copy, Debug)]
pub struct KeySlice<'a>(&'a [u8]);

/// An owned key.
#[derive(Debug)]
pub struct KeyVec(Vec<u8>);

/// A key in a shared, immutable buffer.
#[derive(Debug)]
pub struct KeyBytes(bytes::Bytes);

impl<'a> View for KeySlice<'a> {
    type V = Seq<u8>;

    closed spec fn view(&self) -> Seq<u8> {
        self.0@
    }
}

impl View for KeyVec {
    type V = Seq<u8>;

    closed spec fn view(&self) -> Seq<u8> {
        self.0@
    }
}

impl View for KeyBytes {
    type V = Seq<u8>;

    closed spec fn view(&self) -> Seq<u8> {
        bytes_view(self.0)
    }
}

impl<'a> KeySlice<'a> {
    /// The key made of the bytes of `slice`.
    pub fn from_slice(slice: &'a [u8]) -> (key: Self)
        ensures
            key@ == slice@,
    {
        KeySlice(slice)
    }

    /// The bytes of the key.
    pub fn raw_ref(self) -> (slice: &'a [u8])
        ensures
            slice@ == self@,
    {
        self.0
    }

    /// The number of bytes in the key.
    pub fn len(&self) -> (n: usize)
        ensures
            n == self@.len(),
    {
        self.0.len()
    }

    /// Whether the key has no bytes, which marks the absence of a key.
    pub fn is_empty(&self) -> (b: bool)
        ensures
            b == (self@.len() == 0),
    {
        self.0.len() == 0
    }

    /// An owned copy of the key.
    pub fn to_key_vec(self) -> (key: KeyVec)
        ensures
            key@ == self@,
    {
        KeyVec(slice_to_vec(self.0))
    }

    /// How this key stands to `other`.
    pub fn compare(self, other: KeySlice<'_>) -> (o: KeyOrder)
        ensures
            o == key_order(self@, other@),
    {
        compare_keys(self.0, other.0)
    }
}

impl KeyVec {
    /// The empty key, which marks the absence of a key.
    pub fn new() -> (key: Self)
        ensures
            key@ == Seq::<u8>::empty(),
    {
        KeyVec(Vec::new())
    }

    /// The key made of the bytes of `bytes`.
    pub fn from_vec(bytes: Vec<u8>) -> (key: Self)
        ensures
            key@ == bytes@,
    {
        KeyVec(bytes)
    }

    /// The key, borrowed.
    pub fn as_key_slice(&self) -> (key: KeySlice<'_>)
        ensures
            key@ == self@,
    {
        KeySlice(self.0.as_slice())
    }

    /// The bytes of the key.
    pub fn raw_ref(&self) -> (slice: &[u8])
        ensures
            slice@ == self@,
    {
        self.0.as_slice()
    }

    /// The bytes of the key, owned.
    pub fn into_inner(self) -> (bytes: Vec<u8>)
        ensures
            bytes@ == self@,
    {
        self.0
    }

    /// The same key in a shared buffer.
    pub fn into_key_bytes(self) -> (key: KeyBytes)
        ensures
            key@ == self@,
    {
        KeyBytes(bytes_from_vec(self.0))
    }

    /// The number of bytes in the key.
    pub fn len(&self) -> (n: usize)
        ensures
            n == self@.len(),
    {
        self.0.len()
    }

    /// Whether the key has no bytes, which marks the absence of a key.
    pub fn is_empty(&self) -> (b: bool)
        ensures
            b == (self@.len() == 0),
    {
        self.0.len() == 0
    }
}

impl Clone for KeyBytes {
    /// Another handle on the same key.
    fn clone(&self) -> (key: Self)
        ensures
            key@ == self@,
    {
        KeyBytes(bytes_clone(&self.0))
    }
}

impl KeyBytes {
    /// The key held in `bytes`.
    pub fn from_bytes(bytes: bytes::Bytes) -> (key: Self)
        ensures
            key@ == bytes_view(bytes),
    {
        KeyBytes(bytes)
    }

    /// The key, borrowed.
    pub fn as_key_slice(&self) -> (key: KeySlice<'_>)
        ensures
            key@ == self@,
    {
        KeySlice(bytes_as_slice(&self.0))
    }

    /// The bytes of the key.
    pub fn raw_ref(&self) -> (slice: &[u8])
        ensures
            slice@ == self@,
    {
        bytes_as_slice(&self.0)
    }

    /// The number of bytes in the key.
    pub fn len(&self) -> (n: usize)
        ensures
            n == self@.len(),
    {
        bytes_as_slice(&self.0).len()
    }

    /// Whether the key has no bytes, which marks the absence of a key.
    pub fn is_empty(&self) -> (b: bool)
        ensures
            b == (self@.len() == 0),
    {
        bytes_as_slice(&self.0).len() == 0
    }
}

} // verus!
