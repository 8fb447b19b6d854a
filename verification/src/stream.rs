//! Streams of entries: the mathematical model of what an iterator yields.
//!
//! An entry is a key with its value. A stream is the finite sequence of
//! entries that an iterator has yet to yield, the current entry first.

use vstd::prelude::*;
use crate::key::{key_lt, lemma_key_lt_transitive};

verus! {

/// A key and its value.
pub type Entry = (Seq<u8>, Seq<u8>);

/// Every entry's key is before the keys of all entries that follow it.
pub open spec fn strictly_ascending(s: Seq<Entry>) -> bool {
    forall|i: int, j: int| 0 <= i < j < s.len() ==> key_lt(#[trigger] s[i].0, #[trigger] s[j].0)
}

/// The stream after its first entry was consumed; an empty stream stays
/// empty.
pub open spec fn advance(s: Seq<Entry>) -> Seq<Entry> {
    if s.len() > 0 {
        s.skip(1)
    } else {
        s
    }
}

/// The number of leading entries of `s` whose key is before `k`.
pub open spec fn lower_bound(s: Seq<Entry>, k: Seq<u8>) -> nat
    decreases s.len(),
{
    if s.len() == 0 || !key_lt(s[0].0, k) {
        0
    } else {
        1 + lower_bound(s.skip(1), k)
    }
}

/// What is left of `s` from its first entry whose key is not before `k`.
pub open spec fn seek(s: Seq<Entry>, k: Seq<u8>) -> Seq<Entry> {
    s.skip(lower_bound(s, k) as int)
}

/// The lower bound is a position of the stream, every entry before it has a
/// key before `k`, and the entry at it, if there is one, has not.
pub proof fn lemma_lower_bound(s: Seq<Entry>, k: Seq<u8>)
    ensures
        lower_bound(s, k) <= s.len(),
        forall|i: int| 0 <= i < lower_bound(s, k) ==> key_lt(#[trigger] s[i].0, k),
        lower_bound(s, k) < s.len() ==> !key_lt(s[lower_bound(s, k) as int].0, k),
    decreases s.len(),
{
    if s.len() == 0 || !key_lt(s[0].0, k) {
    } else {
        let t = s.skip(1);
        lemma_lower_bound(t, k);
        assert forall|i: int| 0 <= i < lower_bound(s, k) implies key_lt(#[trigger] s[i].0, k) by {
            if i > 0 {
                assert(s[i] == t[i - 1]);
            }
        }
    }
}

/// A position that splits `s` into keys before `k` and a first key not
/// before `k` is the lower bound.
pub proof fn lemma_lower_bound_unique(s: Seq<Entry>, k: Seq<u8>, p: int)
    requires
        0 <= p <= s.len(),
        forall|i: int| 0 <= i < p ==> key_lt(#[trigger] s[i].0, k),
        p < s.len() ==> !key_lt(s[p].0, k),
    ensures
        lower_bound(s, k) == p,
    decreases p,
{
    if p > 0 {
        let t = s.skip(1);
        assert(key_lt(s[0].0, k));
        assert forall|i: int| 0 <= i < p - 1 implies key_lt(#[trigger] t[i].0, k) by {
            assert(t[i] == s[i + 1]);
        }
        lemma_lower_bound_unique(t, k, p - 1);
    }
}

/// In an ascending stream, seeking to `k` leaves exactly the entries whose
/// key is not before `k`: the first of them holds the smallest such key.
pub proof fn lemma_seek_ascending(s: Seq<Entry>, k: Seq<u8>)
    requires
        strictly_ascending(s),
    ensures
        lower_bound(s, k) <= s.len(),
        seek(s, k).len() == s.len() - lower_bound(s, k),
        forall|i: int| 0 <= i < lower_bound(s, k) ==> key_lt(#[trigger] s[i].0, k),
        forall|i: int| 0 <= i < seek(s, k).len() ==> !key_lt(#[trigger] seek(s, k)[i].0, k),
        forall|i: int|
            0 < i < seek(s, k).len() ==> key_lt(seek(s, k)[0].0, #[trigger] seek(s, k)[i].0),
        strictly_ascending(seek(s, k)),
{
    lemma_lower_bound(s, k);
    let p = lower_bound(s, k) as int;
    let r = seek(s, k);
    assert forall|i: int| 0 <= i < r.len() implies !key_lt(#[trigger] r[i].0, k) by {
        assert(r[i] == s[p + i]);
        if i > 0 && key_lt(r[i].0, k) {
            assert(key_lt(s[p].0, s[p + i].0));
            lemma_key_lt_transitive(s[p].0, s[p + i].0, k);
        }
    }
    assert forall|i: int| 0 < i < r.len() implies key_lt(r[0].0, #[trigger] r[i].0) by {
        assert(r[i] == s[p + i]);
        assert(r[0] == s[p]);
    }
    lemma_skip_ascending(s, p);
}

/// What is left of an ascending stream is ascending.
pub proof fn lemma_skip_ascending(s: Seq<Entry>, n: int)
    requires
        strictly_ascending(s),
        0 <= n <= s.len(),
    ensures
        strictly_ascending(s.skip(n)),
{
    let r = s.skip(n);
    assert forall|i: int, j: int| 0 <= i < j < r.len() implies key_lt(
        #[trigger] r[i].0,
        #[trigger] r[j].0,
    ) by {
        assert(r[i] == s[n + i]);
        assert(r[j] == s[n + j]);
    }
}

/// Consuming the first entry of an ascending stream leaves it ascending.
pub proof fn lemma_advance_ascending(s: Seq<Entry>)
    requires
        strictly_ascending(s),
    ensures
        strictly_ascending(advance(s)),
{
    if s.len() > 0 {
        lemma_skip_ascending(s, 1);
    }
}

/// The stream after `n` entries were consumed one by one.
pub open spec fn advance_by(s: Seq<Entry>, n: nat) -> Seq<Entry>
    decreases n,
{
    if n == 0 {
        s
    } else {
        advance(advance_by(s, (n - 1) as nat))
    }
}

/// Consuming a stream entry by entry visits each of its entries once, in
/// order, and then comes to the end: after `n` steps the entry at hand is
/// entry `n`, and after as many steps as there are entries none is left.
pub proof fn lemma_scan(s: Seq<Entry>, n: nat)
    ensures
        n <= s.len() ==> advance_by(s, n) == s.skip(n as int),
        n < s.len() ==> advance_by(s, n).len() > 0 && advance_by(s, n)[0] == s[n as int],
        n >= s.len() ==> advance_by(s, n).len() == 0,
    decreases n,
{
    if n == 0 {
        assert(s.skip(0) =~= s);
    } else {
        lemma_scan(s, (n - 1) as nat);
        if n <= s.len() {
            assert(s.skip(n - 1).skip(1) =~= s.skip(n as int));
        }
    }
}

/// A stream in which every entry has a key before that of the next is
/// ascending.
pub proof fn lemma_neighbours_ascending(s: Seq<Entry>)
    requires
        forall|i: int| 0 <= i < s.len() - 1 ==> key_lt(#[trigger] s[i].0, s[i + 1].0),
    ensures
        strictly_ascending(s),
{
    assert forall|i: int, j: int| 0 <= i < j < s.len() implies key_lt(
        #[trigger] s[i].0,
        #[trigger] s[j].0,
    ) by {
        lemma_neighbours_reach(s, i, j);
    }
}

/// Where every entry has a key before that of the next, every entry has a
/// key before those of all later ones.
proof fn lemma_neighbours_reach(s: Seq<Entry>, i: int, j: int)
    requires
        forall|i: int| 0 <= i < s.len() - 1 ==> key_lt(#[trigger] s[i].0, s[i + 1].0),
        0 <= i < j < s.len(),
    ensures
        key_lt(s[i].0, s[j].0),
    decreases j - i,
{
    if i + 1 < j {
        lemma_neighbours_reach(s, i, j - 1);
        assert(key_lt(s[j - 1].0, s[j - 1 + 1].0));
        lemma_key_lt_transitive(s[i].0, s[j - 1].0, s[j].0);
    }
}

/// An ascending stream followed by another whose first key is after the
/// last key of the first is ascending.
pub proof fn lemma_concat_ascending(a: Seq<Entry>, b: Seq<Entry>)
    requires
        strictly_ascending(a),
        strictly_ascending(b),
        a.len() > 0 && b.len() > 0 ==> key_lt(a.last().0, b.first().0),
    ensures
        strictly_ascending(a + b),
{
    let s = a + b;
    assert forall|i: int, j: int| 0 <= i < j < s.len() implies key_lt(
        #[trigger] s[i].0,
        #[trigger] s[j].0,
    ) by {
        if j < a.len() {
            assert(s[i] == a[i] && s[j] == a[j]);
        } else if i >= a.len() {
            assert(s[i] == b[i - a.len()] && s[j] == b[j - a.len()]);
        } else {
            assert(s[i] == a[i] && s[j] == b[j - a.len()]);
            if i < a.len() - 1 {
                assert(key_lt(a[i].0, a[a.len() - 1].0));
                lemma_key_lt_transitive(a[i].0, a.last().0, b.first().0);
            }
            if j > a.len() {
                assert(key_lt(b[0].0, b[j - a.len()].0));
                lemma_key_lt_transitive(s[i].0, b.first().0, s[j].0);
            }
        }
    }
}

} // verus!
