//! What the merge yields: the sorted union of its sources, every key once,
//! each with the value of the best-ranked source that holds it.

use vstd::prelude::*;
use crate::key::{
    key_lt, lemma_key_lt_asymmetric, lemma_key_lt_irreflexive, lemma_key_lt_transitive,
};
use crate::merge::{
    all_ascending, distinct_ranks, drop_key, front, head_key, is_front,
    lemma_drop_key_keeps, lemma_drop_key_shrinks, lemma_front_exists, lemma_merge_none_live,
    lemma_merge_unfold, live, merge, precedes, total_len, two_sources, Source,
};
use crate::stream::{strictly_ascending, Entry};

verus! {

/// The stream holds an entry with key `k`.
pub open spec fn has_key(s: Seq<Entry>, k: Seq<u8>) -> bool {
    exists|p: int| 0 <= p < s.len() && (#[trigger] s[p]).0 == k
}

/// One of the sources holds an entry with key `k`.
pub open spec fn some_has_key(ss: Seq<Source>, k: Seq<u8>) -> bool {
    exists|i: int| 0 <= i < ss.len() && has_key((#[trigger] ss[i]).stream, k)
}

/// Source `i` holds the entry `e`, and no other source that holds the key
/// of `e` has a rank as small.
pub open spec fn wins(ss: Seq<Source>, i: int, e: Entry) -> bool {
    &&& 0 <= i < ss.len()
    &&& ss[i].stream.contains(e)
    &&& forall|j: int|
        0 <= j < ss.len() && j != i && has_key((#[trigger] ss[j]).stream, e.0) ==> ss[i].rank
            < ss[j].rank
}

/// The entry `e` is the one that the best-ranked source gives for its key.
pub open spec fn is_winner(ss: Seq<Source>, e: Entry) -> bool {
    exists|i: int| wins(ss, i, e)
}

/// Every key of every source is after `k`.
spec fn all_after(ss: Seq<Source>, k: Seq<u8>) -> bool {
    forall|i: int, p: int|
        0 <= i < ss.len() && 0 <= p < ss[i].stream.len() ==> key_lt(
            k,
            (#[trigger] ss[i].stream[p]).0,
        )
}

/// Once the key of the front is let go, every key left is after it.
proof fn lemma_rest_after_front(ss: Seq<Source>, f: int)
    requires
        all_ascending(ss),
        is_front(ss, f),
    ensures
        all_after(drop_key(ss, head_key(ss[f])), head_key(ss[f])),
{
    let k = head_key(ss[f]);
    let tt = drop_key(ss, k);
    assert forall|i: int, p: int| 0 <= i < tt.len() && 0 <= p < tt[i].stream.len() implies key_lt(
        k,
        (#[trigger] tt[i].stream[p]).0,
    ) by {
        let s = ss[i].stream;
        assert(strictly_ascending(s));
        assert(live(ss[i]));
        if head_key(ss[i]) == k {
            assert(tt[i].stream[p] == s[p + 1]);
            assert(key_lt(s[0].0, s[p + 1].0));
        } else {
            assert(tt[i] == ss[i]);
            assert(precedes(ss[f], ss[i]));
            if p > 0 {
                assert(key_lt(s[0].0, s[p].0));
                lemma_key_lt_transitive(k, s[0].0, s[p].0);
            }
        }
    }
}

/// A source that holds the key of the front has it at its head.
proof fn lemma_front_key_at_head(ss: Seq<Source>, f: int, j: int)
    requires
        all_ascending(ss),
        is_front(ss, f),
        0 <= j < ss.len(),
        has_key(ss[j].stream, head_key(ss[f])),
    ensures
        live(ss[j]),
        head_key(ss[j]) == head_key(ss[f]),
{
    let k = head_key(ss[f]);
    let s = ss[j].stream;
    let p = choose|p: int| 0 <= p < s.len() && (#[trigger] s[p]).0 == k;
    assert(strictly_ascending(s));
    if j != f && p > 0 {
        assert(precedes(ss[f], ss[j]));
        assert(key_lt(s[0].0, s[p].0));
        lemma_key_lt_asymmetric(k, s[0].0);
        lemma_key_lt_irreflexive(k);
    }
    if j == f && p > 0 {
        assert(key_lt(s[0].0, s[p].0));
        lemma_key_lt_irreflexive(k);
    }
}

/// The merge of ascending sources of distinct ranks is ascending, so it
/// holds no key twice; it holds exactly the keys that the sources hold; and
/// each of its entries is the one that the best-ranked source gives for
/// its key.
pub proof fn lemma_merge_is_sorted_union(ss: Seq<Source>)
    requires
        distinct_ranks(ss),
        all_ascending(ss),
    ensures
        strictly_ascending(merge(ss)),
        forall|k: Seq<u8>| #[trigger] has_key(merge(ss), k) <==> some_has_key(ss, k),
        forall|p: int| 0 <= p < merge(ss).len() ==> is_winner(ss, #[trigger] merge(ss)[p]),
    decreases total_len(ss),
{
    let m = merge(ss);
    if exists|i: int| 0 <= i < ss.len() && live(#[trigger] ss[i]) {
        lemma_front_exists(ss);
        let f = front(ss);
        let e0 = ss[f].stream[0];
        let k0 = e0.0;
        let tt = drop_key(ss, k0);
        let rest = merge(tt);
        lemma_merge_unfold(ss, f);
        lemma_drop_key_keeps(ss, k0);
        lemma_drop_key_shrinks(ss, f);
        lemma_merge_is_sorted_union(tt);
        lemma_rest_after_front(ss, f);
        lemma_key_lt_irreflexive(k0);
        assert forall|q: int| 0 <= q < rest.len() implies m[q + 1] == #[trigger] rest[q] && key_lt(
            k0,
            rest[q].0,
        ) by {
            assert(has_key(rest, rest[q].0));
            assert(some_has_key(tt, rest[q].0));
            let i = choose|i: int| 0 <= i < tt.len() && has_key((#[trigger] tt[i]).stream, rest[q].0);
            let p = choose|p: int|
                0 <= p < tt[i].stream.len() && (#[trigger] tt[i].stream[p]).0 == rest[q].0;
            assert(key_lt(k0, tt[i].stream[p].0));
        }
        assert forall|i: int, j: int| 0 <= i < j < m.len() implies key_lt(
            #[trigger] m[i].0,
            #[trigger] m[j].0,
        ) by {
            assert(m[j] == rest[j - 1]);
            if i > 0 {
                assert(m[i] == rest[i - 1]);
            }
        }
        assert forall|k: Seq<u8>| #[trigger] has_key(m, k) <==> some_has_key(ss, k) by {
            if has_key(m, k) {
                let p = choose|p: int| 0 <= p < m.len() && (#[trigger] m[p]).0 == k;
                if p == 0 {
                    assert(ss[f].stream[0].0 == k);
                    assert(has_key(ss[f].stream, k));
                } else {
                    assert(rest[p - 1].0 == k);
                    assert(has_key(rest, k));
                    assert(some_has_key(tt, k));
                    let i = choose|i: int| 0 <= i < tt.len() && has_key((#[trigger] tt[i]).stream, k);
                    lemma_kept_entries(ss, k0, i);
                    let q = choose|q: int|
                        0 <= q < tt[i].stream.len() && (#[trigger] tt[i].stream[q]).0 == k;
                    assert(ss[i].stream.contains(tt[i].stream[q]));
                    let r = choose|r: int|
                        0 <= r < ss[i].stream.len() && ss[i].stream[r] == tt[i].stream[q];
                    assert(ss[i].stream[r].0 == k);
                    assert(has_key(ss[i].stream, k));
                }
            }
            if some_has_key(ss, k) {
                if k == k0 {
                    assert(m[0].0 == k);
                } else {
                    let i = choose|i: int| 0 <= i < ss.len() && has_key((#[trigger] ss[i]).stream, k);
                    lemma_kept_keys(ss, k0, i, k);
                    assert(has_key(tt[i].stream, k));
                    assert(some_has_key(tt, k));
                    assert(has_key(rest, k));
                    let p = choose|p: int| 0 <= p < rest.len() && (#[trigger] rest[p]).0 == k;
                    assert(m[p + 1].0 == k);
                }
            }
        }
        assert forall|p: int| 0 <= p < m.len() implies is_winner(ss, #[trigger] m[p]) by {
            if p == 0 {
                assert(ss[f].stream[0] == e0);
                assert forall|j: int|
                    0 <= j < ss.len() && j != f && has_key((#[trigger] ss[j]).stream, e0.0) implies ss[f].rank
                    < ss[j].rank by {
                    lemma_front_key_at_head(ss, f, j);
                    assert(precedes(ss[f], ss[j]));
                }
                assert(wins(ss, f, e0));
            } else {
                let e = rest[p - 1];
                assert(m[p] == e);
                assert(is_winner(tt, e));
                let i = choose|i: int| wins(tt, i, e);
                lemma_kept_entries(ss, k0, i);
                let q = choose|q: int| 0 <= q < tt[i].stream.len() && tt[i].stream[q] == e;
                assert(ss[i].stream.contains(tt[i].stream[q]));
                assert(key_lt(k0, e.0));
                assert forall|j: int|
                    0 <= j < ss.len() && j != i && has_key((#[trigger] ss[j]).stream, e.0) implies ss[i].rank
                    < ss[j].rank by {
                    lemma_kept_keys(ss, k0, j, e.0);
                    assert(has_key(tt[j].stream, e.0));
                    assert(tt[i].rank == ss[i].rank);
                    assert(tt[j].rank == ss[j].rank);
                }
                assert(wins(ss, i, e));
            }
        }
    } else {
        lemma_merge_none_live(ss);
        assert forall|k: Seq<u8>| #[trigger] has_key(m, k) <==> some_has_key(ss, k) by {
            if some_has_key(ss, k) {
                let i = choose|i: int| 0 <= i < ss.len() && has_key((#[trigger] ss[i]).stream, k);
                assert(live(ss[i]));
            }
        }
    }
}

/// Every entry that a source holds after a key was let go, it held before.
proof fn lemma_kept_entries(ss: Seq<Source>, k: Seq<u8>, i: int)
    requires
        0 <= i < ss.len(),
    ensures
        forall|q: int|
            0 <= q < drop_key(ss, k)[i].stream.len() ==> ss[i].stream.contains(
                #[trigger] drop_key(ss, k)[i].stream[q],
            ),
{
    let t = drop_key(ss, k)[i].stream;
    let s = ss[i].stream;
    assert forall|q: int| 0 <= q < t.len() implies s.contains(#[trigger] t[q]) by {
        if live(ss[i]) && head_key(ss[i]) == k {
            assert(s[q + 1] == t[q]);
        } else {
            assert(s[q] == t[q]);
        }
    }
}

/// A source that holds a key other than the one let go still holds it.
proof fn lemma_kept_keys(ss: Seq<Source>, k: Seq<u8>, i: int, other: Seq<u8>)
    requires
        0 <= i < ss.len(),
        has_key(ss[i].stream, other),
        other != k,
    ensures
        has_key(drop_key(ss, k)[i].stream, other),
{
    let t = drop_key(ss, k)[i].stream;
    let s = ss[i].stream;
    let p = choose|p: int| 0 <= p < s.len() && (#[trigger] s[p]).0 == other;
    if live(ss[i]) && head_key(ss[i]) == k {
        assert(t[p - 1] == s[p]);
    } else {
        assert(t[p] == s[p]);
    }
}

/// The merge of two ascending streams is ascending; it holds exactly the
/// keys that either stream holds; and for each key it holds the entry of
/// the first stream if the first stream holds the key, else that of the
/// second.
pub proof fn lemma_two_merge_is_sorted_union(a: Seq<Entry>, b: Seq<Entry>)
    requires
        strictly_ascending(a),
        strictly_ascending(b),
    ensures
        strictly_ascending(merge(two_sources(a, b))),
        forall|k: Seq<u8>|
            #[trigger] has_key(merge(two_sources(a, b)), k) <==> has_key(a, k) || has_key(b, k),
        forall|p: int|
            0 <= p < merge(two_sources(a, b)).len() ==> {
                let e = #[trigger] merge(two_sources(a, b))[p];
                if has_key(a, e.0) {
                    a.contains(e)
                } else {
                    b.contains(e)
                }
            },
{
    let ss = two_sources(a, b);
    let m = merge(ss);
    lemma_merge_is_sorted_union(ss);
    assert forall|k: Seq<u8>| #[trigger] has_key(m, k) <==> has_key(a, k) || has_key(b, k) by {
        if some_has_key(ss, k) {
            let i = choose|i: int| 0 <= i < ss.len() && has_key((#[trigger] ss[i]).stream, k);
            assert(i == 0 || i == 1);
        }
        if has_key(a, k) {
            assert(has_key(ss[0].stream, k));
        }
        if has_key(b, k) {
            assert(has_key(ss[1].stream, k));
        }
    }
    assert forall|p: int| 0 <= p < m.len() implies {
        let e = #[trigger] m[p];
        if has_key(a, e.0) {
            a.contains(e)
        } else {
            b.contains(e)
        }
    } by {
        let e = m[p];
        assert(is_winner(ss, e));
        let i = choose|i: int| wins(ss, i, e);
        if i == 1 && has_key(a, e.0) {
            assert(has_key(ss[0].stream, e.0));
            assert(ss[1].rank < ss[0].rank);
        }
    }
}

} // verus!
