//! Merging prioritized sources: the model.
//!
//! A source is a stream with a rank; the smaller rank has the higher
//! priority. The merge of some sources yields, step by step, the entry at
//! the head of the source that comes first: the one whose head has the
//! smallest key, and among those with that key the one of smallest rank.
//! All sources whose head has that key then let go of their head, so every
//! key is yielded once, with the value from the best-ranked source.

use vstd::prelude::*;
use crate::key::{
    key_lt, lemma_key_lt_asymmetric, lemma_key_lt_irreflexive, lemma_key_lt_total,
    lemma_key_lt_transitive,
};
use crate::stream::{lemma_skip_ascending, strictly_ascending, Entry};

pub mod laws;
pub mod rearrange;

verus! {

/// A stream and its priority.
pub struct Source {
    pub rank: nat,
    pub stream: Seq<Entry>,
}

/// The source has an entry to give.
pub open spec fn live(s: Source) -> bool {
    s.stream.len() > 0
}

/// The key at the head of the source.
pub open spec fn head_key(s: Source) -> Seq<u8> {
    s.stream[0].0
}

/// Of two live sources, `a` comes first: its head has the smaller key, or
/// the same key and `a` has the smaller rank.
pub open spec fn precedes(a: Source, b: Source) -> bool {
    key_lt(head_key(a), head_key(b)) || (head_key(a) == head_key(b) && a.rank < b.rank)
}

/// Source `i` is live and comes before every other live source.
pub open spec fn is_front(ss: Seq<Source>, i: int) -> bool {
    &&& 0 <= i < ss.len()
    &&& live(ss[i])
    &&& forall|j: int|
        0 <= j < ss.len() && j != i && live(#[trigger] ss[j]) ==> precedes(ss[i], ss[j])
}

/// Some source comes before all others.
pub open spec fn has_front(ss: Seq<Source>) -> bool {
    exists|i: int| is_front(ss, i)
}

/// The source that comes before all others.
pub open spec fn front(ss: Seq<Source>) -> int {
    choose|i: int| is_front(ss, i)
}

/// The source without its head, if the head has key `k`; else the source.
pub open spec fn drop_head_if(s: Source, k: Seq<u8>) -> Source {
    if live(s) && head_key(s) == k {
        Source { rank: s.rank, stream: s.stream.skip(1) }
    } else {
        s
    }
}

/// The sources after each one whose head has key `k` let go of its head.
pub open spec fn drop_key(ss: Seq<Source>, k: Seq<u8>) -> Seq<Source> {
    Seq::new(ss.len(), |i: int| drop_head_if(ss[i], k))
}

/// The number of entries in all the sources together.
pub open spec fn total_len(ss: Seq<Source>) -> nat
    decreases ss.len(),
{
    if ss.len() == 0 {
        0
    } else {
        total_len(ss.drop_last()) + ss.last().stream.len()
    }
}

/// No two sources have the same rank.
pub open spec fn distinct_ranks(ss: Seq<Source>) -> bool {
    forall|i: int, j: int|
        0 <= i < ss.len() && 0 <= j < ss.len() && i != j ==> (#[trigger] ss[i]).rank != (
        #[trigger] ss[j]).rank
}

/// Every source is in strictly ascending key order.
pub open spec fn all_ascending(ss: Seq<Source>) -> bool {
    forall|i: int| 0 <= i < ss.len() ==> strictly_ascending((#[trigger] ss[i]).stream)
}

/// The merge of the sources.
pub open spec fn merge(ss: Seq<Source>) -> Seq<Entry>
    decreases total_len(ss),
{
    if has_front(ss) {
        let e = ss[front(ss)].stream[0];
        proof {
            lemma_drop_key_shrinks(ss, front(ss));
        }
        seq![e] + merge(drop_key(ss, e.0))
    } else {
        Seq::empty()
    }
}

/// Sources that are pointwise no longer have no more entries in all; one
/// that is shorter makes the total smaller.
proof fn lemma_total_len_monotone(a: Seq<Source>, b: Seq<Source>, at: int)
    requires
        a.len() == b.len(),
        forall|i: int| 0 <= i < a.len() ==> (#[trigger] a[i]).stream.len() <= b[i].stream.len(),
        0 <= at < a.len() ==> a[at].stream.len() < b[at].stream.len(),
    ensures
        total_len(a) <= total_len(b),
        0 <= at < a.len() ==> total_len(a) < total_len(b),
    decreases a.len(),
{
    if a.len() > 0 {
        let a1 = a.drop_last();
        let b1 = b.drop_last();
        assert forall|i: int| 0 <= i < a1.len() implies (#[trigger] a1[i]).stream.len()
            <= b1[i].stream.len() by {
            assert(a1[i] == a[i]);
            assert(b1[i] == b[i]);
        }
        if 0 <= at < a1.len() {
            assert(a1[at] == a[at]);
            assert(b1[at] == b[at]);
        }
        assert(a[a.len() - 1].stream.len() <= b[a.len() - 1].stream.len());
        lemma_total_len_monotone(a1, b1, at);
    }
}

/// Letting go of the head of a live source leaves fewer entries.
pub proof fn lemma_drop_key_shrinks(ss: Seq<Source>, i: int)
    requires
        0 <= i < ss.len(),
        live(ss[i]),
    ensures
        total_len(drop_key(ss, head_key(ss[i]))) < total_len(ss),
{
    let tt = drop_key(ss, head_key(ss[i]));
    assert forall|j: int| 0 <= j < tt.len() implies (#[trigger] tt[j]).stream.len()
        <= ss[j].stream.len() by {}
    lemma_total_len_monotone(tt, ss, i);
}

/// Of two live sources of different rank, one comes before the other.
pub proof fn lemma_precedes_total(a: Source, b: Source)
    requires
        a.rank != b.rank,
    ensures
        precedes(a, b) || precedes(b, a),
{
    lemma_key_lt_total(head_key(a), head_key(b));
}

/// Coming first is transitive.
pub proof fn lemma_precedes_transitive(a: Source, b: Source, c: Source)
    requires
        precedes(a, b),
        precedes(b, c),
    ensures
        precedes(a, c),
{
    if key_lt(head_key(a), head_key(b)) && key_lt(head_key(b), head_key(c)) {
        lemma_key_lt_transitive(head_key(a), head_key(b), head_key(c));
    }
}

/// Of two sources at most one comes before the other.
pub proof fn lemma_precedes_asymmetric(a: Source, b: Source)
    ensures
        !(precedes(a, b) && precedes(b, a)),
{
    lemma_key_lt_asymmetric(head_key(a), head_key(b));
    lemma_key_lt_irreflexive(head_key(a));
}

/// Among the first `m` sources, the live one that comes before the other
/// live ones.
proof fn lemma_front_among(ss: Seq<Source>, m: int) -> (f: int)
    requires
        distinct_ranks(ss),
        0 <= m <= ss.len(),
        exists|i: int| 0 <= i < m && live(#[trigger] ss[i]),
    ensures
        0 <= f < m,
        live(ss[f]),
        forall|j: int| 0 <= j < m && j != f && live(#[trigger] ss[j]) ==> precedes(ss[f], ss[j]),
    decreases m,
{
    let last = m - 1;
    if exists|i: int| 0 <= i < last && live(#[trigger] ss[i]) {
        let g = lemma_front_among(ss, last);
        if live(ss[last]) {
            lemma_precedes_total(ss[g], ss[last]);
            if precedes(ss[g], ss[last]) {
                g
            } else {
                assert forall|j: int| 0 <= j < m && j != last && live(
                    #[trigger] ss[j],
                ) implies precedes(ss[last], ss[j]) by {
                    if j != g {
                        lemma_precedes_transitive(ss[last], ss[g], ss[j]);
                    }
                }
                last
            }
        } else {
            g
        }
    } else {
        let w = choose|i: int| 0 <= i < m && live(#[trigger] ss[i]);
        assert(w == last);
        last
    }
}

/// Where ranks are distinct and some source is live, one source comes
/// before all others.
pub proof fn lemma_front_exists(ss: Seq<Source>)
    requires
        distinct_ranks(ss),
        exists|i: int| 0 <= i < ss.len() && live(#[trigger] ss[i]),
    ensures
        has_front(ss),
        is_front(ss, front(ss)),
{
    let f = lemma_front_among(ss, ss.len() as int);
    assert(is_front(ss, f));
}

/// At most one source comes before all others.
pub proof fn lemma_front_unique(ss: Seq<Source>, i: int, j: int)
    requires
        is_front(ss, i),
        is_front(ss, j),
    ensures
        i == j,
{
    if i != j {
        lemma_precedes_asymmetric(ss[i], ss[j]);
    }
}

/// The merge starts with the head of the source that comes first, and goes
/// on with the merge of what is left once that key is let go.
pub proof fn lemma_merge_unfold(ss: Seq<Source>, f: int)
    requires
        is_front(ss, f),
    ensures
        merge(ss) == seq![ss[f].stream[0]] + merge(drop_key(ss, head_key(ss[f]))),
        merge(ss).len() > 0,
        merge(ss)[0] == ss[f].stream[0],
        merge(ss).skip(1) == merge(drop_key(ss, head_key(ss[f]))),
{
    lemma_front_unique(ss, f, front(ss));
    let rest = merge(drop_key(ss, head_key(ss[f])));
    assert((seq![ss[f].stream[0]] + rest).skip(1) =~= rest);
}

/// Where no source is live, the merge is empty.
pub proof fn lemma_merge_none_live(ss: Seq<Source>)
    requires
        forall|i: int| 0 <= i < ss.len() ==> !live(#[trigger] ss[i]),
    ensures
        merge(ss) == Seq::<Entry>::empty(),
{
    if has_front(ss) {
        let f = front(ss);
        assert(live(ss[f]));
    }
}

/// The two sets of sources hold the same live sources, in whatever order
/// and with whatever exhausted sources beside them.
pub open spec fn same_live(ss: Seq<Source>, tt: Seq<Source>) -> bool {
    forall|s: Source|
        #![trigger ss.contains(s)]
        #![trigger tt.contains(s)]
        live(s) ==> (ss.contains(s) <==> tt.contains(s))
}

/// Letting go of a key keeps the ranks distinct and the sources ascending.
pub proof fn lemma_drop_key_keeps(ss: Seq<Source>, k: Seq<u8>)
    ensures
        distinct_ranks(ss) ==> distinct_ranks(drop_key(ss, k)),
        all_ascending(ss) ==> all_ascending(drop_key(ss, k)),
{
    let tt = drop_key(ss, k);
    if distinct_ranks(ss) {
        assert forall|i: int, j: int| 0 <= i < tt.len() && 0 <= j < tt.len() && i != j implies (
        #[trigger] tt[i]).rank != (#[trigger] tt[j]).rank by {
            assert(tt[i].rank == ss[i].rank);
            assert(tt[j].rank == ss[j].rank);
        }
    }
    if all_ascending(ss) {
        assert forall|i: int| 0 <= i < tt.len() implies strictly_ascending(
            (#[trigger] tt[i]).stream,
        ) by {
            assert(strictly_ascending(ss[i].stream));
            if tt[i] != ss[i] {
                lemma_skip_ascending(ss[i].stream, 1);
            }
        }
    }
}

/// Sources that hold the same live sources still do once a key is let go.
pub proof fn lemma_drop_key_same_live(ss: Seq<Source>, tt: Seq<Source>, k: Seq<u8>)
    requires
        same_live(ss, tt),
    ensures
        same_live(drop_key(ss, k), drop_key(tt, k)),
{
    let left = drop_key(ss, k);
    let right = drop_key(tt, k);
    assert forall|x: Source| live(x) implies (left.contains(x) <==> right.contains(x)) by {
        if left.contains(x) {
            let i = choose|i: int| 0 <= i < left.len() && left[i] == x;
            assert(live(ss[i]));
            assert(ss.contains(ss[i]));
            assert(tt.contains(ss[i]));
            let j = choose|j: int| 0 <= j < tt.len() && tt[j] == ss[i];
            assert(right[j] == x);
        }
        if right.contains(x) {
            let j = choose|j: int| 0 <= j < right.len() && right[j] == x;
            assert(live(tt[j]));
            assert(tt.contains(tt[j]));
            assert(ss.contains(tt[j]));
            let i = choose|i: int| 0 <= i < ss.len() && ss[i] == tt[j];
            assert(left[i] == x);
        }
    }
}

/// The merge depends on the live sources alone: not on the order in which
/// the sources stand, nor on exhausted sources among them.
pub proof fn lemma_merge_same_live(ss: Seq<Source>, tt: Seq<Source>)
    requires
        distinct_ranks(ss),
        distinct_ranks(tt),
        same_live(ss, tt),
    ensures
        merge(ss) == merge(tt),
    decreases total_len(ss),
{
    if exists|i: int| 0 <= i < ss.len() && live(#[trigger] ss[i]) {
        lemma_front_exists(ss);
        let f = front(ss);
        assert(ss.contains(ss[f]));
        assert(tt.contains(ss[f]));
        let g = choose|g: int| 0 <= g < tt.len() && tt[g] == ss[f];
        assert forall|j: int| 0 <= j < tt.len() && j != g && live(#[trigger] tt[j]) implies precedes(
            tt[g],
            tt[j],
        ) by {
            assert(tt.contains(tt[j]));
            assert(ss.contains(tt[j]));
            let j2 = choose|j2: int| 0 <= j2 < ss.len() && ss[j2] == tt[j];
            assert(tt[j].rank != tt[g].rank);
            assert(j2 != f);
        }
        assert(is_front(tt, g));
        lemma_merge_unfold(ss, f);
        lemma_merge_unfold(tt, g);
        let k = head_key(ss[f]);
        lemma_drop_key_same_live(ss, tt, k);
        lemma_drop_key_keeps(ss, k);
        lemma_drop_key_keeps(tt, k);
        lemma_drop_key_shrinks(ss, f);
        lemma_merge_same_live(drop_key(ss, k), drop_key(tt, k));
    } else {
        assert forall|j: int| 0 <= j < tt.len() implies !live(#[trigger] tt[j]) by {
            if live(tt[j]) {
                assert(tt.contains(tt[j]));
                assert(ss.contains(tt[j]));
            }
        }
        lemma_merge_none_live(ss);
        lemma_merge_none_live(tt);
    }
}

/// Two sources, the first of which has priority.
pub open spec fn two_sources(a: Seq<Entry>, b: Seq<Entry>) -> Seq<Source> {
    seq![Source { rank: 0, stream: a }, Source { rank: 1, stream: b }]
}

/// Where both of two ascending sources start with the same key, the second
/// may let go of its head at once: the merge is the same.
pub proof fn lemma_two_skip_second(a: Seq<Entry>, b: Seq<Entry>)
    requires
        a.len() > 0,
        b.len() > 0,
        a[0].0 == b[0].0,
        strictly_ascending(b),
    ensures
        merge(two_sources(a, b)) == merge(two_sources(a, b.skip(1))),
{
    let k = a[0].0;
    let ss = two_sources(a, b);
    let tt = two_sources(a, b.skip(1));
    assert(is_front(ss, 0));
    lemma_key_lt_irreflexive(k);
    if b.len() > 1 {
        assert(b.skip(1)[0] == b[1]);
        assert(key_lt(b[0].0, b[1].0));
    }
    assert(is_front(tt, 0));
    lemma_merge_unfold(ss, 0);
    lemma_merge_unfold(tt, 0);
    assert(drop_key(ss, k) =~= drop_key(tt, k));
}

/// Of two sources whose heads differ in key, the one that comes first lets
/// go of its head and the merge moves on by one entry.
pub proof fn lemma_two_advance(a: Seq<Entry>, b: Seq<Entry>, first: bool)
    requires
        a.len() > 0 && b.len() > 0 ==> a[0].0 != b[0].0,
        first == (a.len() > 0 && (b.len() == 0 || key_lt(a[0].0, b[0].0))),
        first || b.len() > 0,
    ensures
        merge(two_sources(a, b)).len() > 0,
        merge(two_sources(a, b))[0] == if first {
            a[0]
        } else {
            b[0]
        },
        merge(two_sources(a, b)).skip(1) == if first {
            merge(two_sources(a.skip(1), b))
        } else {
            merge(two_sources(a, b.skip(1)))
        },
{
    let ss = two_sources(a, b);
    if first {
        assert(is_front(ss, 0));
        lemma_merge_unfold(ss, 0);
        assert(drop_key(ss, a[0].0) =~= two_sources(a.skip(1), b));
    } else {
        if a.len() > 0 {
            lemma_key_lt_total(a[0].0, b[0].0);
        }
        assert(is_front(ss, 1));
        lemma_merge_unfold(ss, 1);
        assert(drop_key(ss, b[0].0) =~= two_sources(a, b.skip(1)));
    }
}

/// Two exhausted sources merge to nothing.
pub proof fn lemma_two_exhausted(a: Seq<Entry>, b: Seq<Entry>)
    requires
        a.len() == 0,
        b.len() == 0,
    ensures
        merge(two_sources(a, b)) == Seq::<Entry>::empty(),
{
    lemma_merge_none_live(two_sources(a, b));
}

/// Sources that hold the same live sources merge alike once a key is let
/// go.
pub proof fn lemma_merge_drop_key_same_live(ss: Seq<Source>, tt: Seq<Source>, k: Seq<u8>)
    requires
        distinct_ranks(ss),
        distinct_ranks(tt),
        same_live(ss, tt),
    ensures
        merge(drop_key(ss, k)) == merge(drop_key(tt, k)),
{
    lemma_drop_key_same_live(ss, tt, k);
    lemma_drop_key_keeps(ss, k);
    lemma_drop_key_keeps(tt, k);
    lemma_merge_same_live(drop_key(ss, k), drop_key(tt, k));
}

} // verus!
