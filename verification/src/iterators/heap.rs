//! A binary heap of iterators.
//!
//! The heap holds iterators that stand on an entry, each with the place it
//! had in the list it came from. At the root stands the one that is to be
//! yielded first: the one on the smallest key, and among those on that key
//! the one from the earliest place.

use vstd::prelude::*;
use crate::iterators::StorageIterator;
use crate::key::{key_lt, lemma_key_lt_asymmetric, lemma_key_lt_irreflexive, KeyOrder};
use crate::merge::rearrange::{
    is_top, lemma_contains_push, lemma_contains_swap_removed, lemma_contains_with_head,
    lemma_discard, lemma_distinct_with_head, lemma_requeue, lemma_same_live_push,
    lemma_same_live_transitive, lemma_same_live_with_head, lemma_total_len_swap_removed,
    lemma_total_len_update, lemma_rearranged, rank_free, swap_removed, with_head,
};
use crate::merge::{
    distinct_ranks, drop_key, head_key, is_front, lemma_merge_drop_key_same_live,
    lemma_precedes_total, lemma_precedes_transitive, live, merge, precedes, same_live, total_len,
    Source,
};
use crate::stream::strictly_ascending;

verus! {

/// An iterator with the place it had in the list it came from.
pub(crate) struct HeapWrapper<I: StorageIterator>(pub usize, pub Box<I>);

impl<I: StorageIterator> HeapWrapper<I> {
    /// The iterator as a source: its place is its rank.
    pub(crate) open spec fn source(&self) -> Source {
        Source { rank: self.0 as nat, stream: self.1.remaining() }
    }

    /// The iterator is in good order and ascending.
    pub(crate) open spec fn ok(&self) -> bool {
        self.1.inv() && strictly_ascending(self.1.remaining())
    }

    /// Whether this iterator is to be yielded before `other`: it stands on
    /// the smaller key, or on the same key and came from an earlier place.
    pub(crate) fn comes_before(&self, other: &Self) -> (before: bool)
        requires
            self.1.inv(),
            other.1.inv(),
            live(self.source()),
            live(other.source()),
        ensures
            before == precedes(self.source(), other.source()),
    {
        proof {
            lemma_key_lt_irreflexive(head_key(self.source()));
        }
        match self.1.key().compare(other.1.key()) {
            KeyOrder::Less => true,
            KeyOrder::Equal => self.0 < other.0,
            KeyOrder::Greater => false,
        }
    }
}

/// The iterators of the heap as sources.
pub(crate) open spec fn heap_sources<I: StorageIterator>(iters: Seq<HeapWrapper<I>>) -> Seq<
    Source,
> {
    Seq::new(iters.len(), |i: int| iters[i].source())
}

/// Every iterator of the heap is in good order, ascending, and stands on an
/// entry.
pub(crate) open spec fn heap_ok<I: StorageIterator>(iters: Seq<HeapWrapper<I>>) -> bool {
    forall|i: int| 0 <= i < iters.len() ==> (#[trigger] iters[i]).ok() && live(iters[i].source())
}

/// The place above place `i`.
pub(crate) open spec fn parent(i: int) -> int {
    (i - 1) / 2
}

/// Every source comes after the one above it.
pub(crate) open spec fn heap_ordered(hs: Seq<Source>) -> bool {
    forall|i: int| 1 <= i < hs.len() ==> precedes(hs[parent(i)], #[trigger] hs[i])
}

/// Every source comes after the one above it, but perhaps the one at `p`;
/// those below `p` come after the one above `p`.
pub(crate) open spec fn ordered_but_above(hs: Seq<Source>, p: int) -> bool {
    &&& forall|i: int| 1 <= i < hs.len() && i != p ==> precedes(hs[parent(i)], #[trigger] hs[i])
    &&& forall|i: int|
        1 <= i < hs.len() && parent(i) == p && p >= 1 ==> precedes(hs[parent(p)], #[trigger] hs[i])
}

/// Every source comes after the one above it, but perhaps those below `p`;
/// those below `p` come after the one above `p`.
pub(crate) open spec fn ordered_but_below(hs: Seq<Source>, p: int) -> bool {
    &&& forall|i: int|
        1 <= i < hs.len() && parent(i) != p ==> precedes(hs[parent(i)], #[trigger] hs[i])
    &&& forall|i: int|
        1 <= i < hs.len() && parent(i) == p && p >= 1 ==> precedes(hs[parent(p)], #[trigger] hs[i])
}

/// The heap is in good order: its iterators are, they came from different
/// places, and each comes after the one above it.
pub(crate) open spec fn heap_inv<I: StorageIterator>(iters: Seq<HeapWrapper<I>>) -> bool {
    &&& heap_ok(iters)
    &&& distinct_ranks(heap_sources(iters))
    &&& heap_ordered(heap_sources(iters))
}

/// Every source has an entry to give.
pub(crate) open spec fn all_live(hs: Seq<Source>) -> bool {
    forall|j: int| 0 <= j < hs.len() ==> live(#[trigger] hs[j])
}

/// Every source of `a` is one of `b`.
pub(crate) open spec fn drawn_from(a: Seq<Source>, b: Seq<Source>) -> bool {
    forall|j: int| 0 <= j < a.len() ==> b.contains(#[trigger] a[j])
}

/// No source stands on a key before `k`.
pub(crate) open spec fn heads_from(hs: Seq<Source>, k: Seq<u8>) -> bool {
    forall|j: int| 0 <= j < hs.len() ==> !key_lt(head_key(#[trigger] hs[j]), k)
}

/// Live sources that hold the same live sources as others are drawn from
/// them.
pub(crate) proof fn lemma_drawn_from(a: Seq<Source>, b: Seq<Source>)
    requires
        all_live(a),
        same_live(a, b),
    ensures
        drawn_from(a, b),
{
    assert forall|j: int| 0 <= j < a.len() implies b.contains(#[trigger] a[j]) by {
        assert(a.contains(a[j]));
    }
}

/// Sources drawn from others that have no source of some rank have none of
/// that rank.
pub(crate) proof fn lemma_drawn_rank_free(a: Seq<Source>, b: Seq<Source>, rank: nat)
    requires
        drawn_from(a, b),
        rank_free(b, rank),
    ensures
        rank_free(a, rank),
{
    assert forall|j: int| 0 <= j < a.len() implies (#[trigger] a[j]).rank != rank by {
        assert(b.contains(a[j]));
        let i = choose|i: int| 0 <= i < b.len() && b[i] == a[j];
        assert(b[i].rank != rank);
    }
}

/// What holds once the root was taken out of a heap and the rest was put
/// in order again: with the root in front, the sources are those of the
/// heap, their ranks are distinct, and the root comes before all others.
pub(crate) proof fn lemma_popped(heap: Seq<Source>, rest: Seq<Source>)
    requires
        heap.len() > 0,
        is_top(heap, 0),
        distinct_ranks(heap),
        all_live(heap),
        all_live(rest),
        distinct_ranks(rest),
        same_live(rest, swap_removed(heap, 0)),
    ensures
        drawn_from(rest, swap_removed(heap, 0)),
        drawn_from(rest, heap),
        rank_free(rest, heap[0].rank),
        distinct_ranks(with_head(heap[0], rest)),
        same_live(with_head(heap[0], rest), heap),
        is_front(with_head(heap[0], rest), 0),
{
    let plain = swap_removed(heap, 0);
    let whole = with_head(heap[0], rest);
    lemma_drawn_from(rest, plain);
    assert forall|j: int| 0 <= j < rest.len() implies heap.contains(#[trigger] rest[j])
        && rest[j].rank != heap[0].rank && precedes(heap[0], rest[j]) by {
        assert(plain.contains(rest[j]));
        lemma_contains_swap_removed(heap, 0, rest[j]);
        let i = choose|i: int| 0 <= i < heap.len() && i != 0 && #[trigger] heap[i] == rest[j];
        assert(heap[i] == rest[j]);
    }
    lemma_distinct_with_head(heap[0], rest);
    assert forall|s: Source| live(s) implies (whole.contains(s) <==> heap.contains(s)) by {
        lemma_contains_with_head(heap[0], rest, s);
        lemma_contains_swap_removed(heap, 0, s);
        assert(rest.contains(s) <==> plain.contains(s));
        if heap.contains(s) {
            let i = choose|i: int| 0 <= i < heap.len() && heap[i] == s;
            if i != 0 {
                assert(heap[i] == s);
            }
        }
        if s == heap[0] {
            assert(heap.contains(s));
        }
    }
    assert forall|j: int|
        0 <= j < whole.len() && j != 0 && live(#[trigger] whole[j]) implies precedes(
        whole[0],
        whole[j],
    ) by {
        assert(whole[j] == rest[j - 1]);
    }
}

/// What a step of draining does to the merge: nothing. The root of the
/// heap stands on the key `k` of the source in front; it is taken out, lets
/// go of its head, and is put back if it has more to give. Once `k` is let
/// go by all, the sources merge as before.
pub(crate) proof fn lemma_drained(
    c: Source,
    k: Seq<u8>,
    heap: Seq<Source>,
    middle: Seq<Source>,
    last: Seq<Source>,
)
    requires
        heap.len() > 0,
        distinct_ranks(heap),
        rank_free(heap, c.rank),
        all_live(heap),
        heads_from(heap, k),
        head_key(heap[0]) == k,
        strictly_ascending(heap[0].stream),
        all_live(middle),
        distinct_ranks(middle),
        same_live(middle, swap_removed(heap, 0)),
        rank_free(middle, heap[0].rank),
        all_live(last),
        distinct_ranks(last),
        live(moved_on(heap[0])) ==> same_live(last, middle.push(moved_on(heap[0]))),
        !live(moved_on(heap[0])) ==> last == middle,
    ensures
        rank_free(last, c.rank),
        heads_from(last, k),
        merge(drop_key(with_head(c, last), k)) == merge(drop_key(with_head(c, heap), k)),
{
    let w = heap[0];
    let m = moved_on(w);
    let rest = swap_removed(heap, 0);
    let updated = heap.update(0, m);
    lemma_key_lt_irreflexive(k);
    if live(m) {
        assert(m.stream[0] == w.stream[1]);
        assert(key_lt(w.stream[0].0, w.stream[1].0));
        lemma_key_lt_asymmetric(k, head_key(m));
    }
    assert(drop_key(with_head(c, updated), k) =~= drop_key(with_head(c, heap), k));
    assert(swap_removed(updated, 0) =~= rest);
    assert(rank_free(updated, c.rank)) by {
        assert forall|j: int| 0 <= j < updated.len() implies (#[trigger] updated[j]).rank
            != c.rank by {
            assert(updated[j].rank == heap[j].rank);
        }
    }
    assert(distinct_ranks(updated)) by {
        assert forall|i: int, j: int|
            0 <= i < updated.len() && 0 <= j < updated.len() && i != j implies (
        #[trigger] updated[i]).rank != (#[trigger] updated[j]).rank by {
            assert(updated[i].rank == heap[i].rank);
            assert(updated[j].rank == heap[j].rank);
        }
    }
    lemma_distinct_with_head(c, updated);
    // what the heap holds now, in the order in which it was changed
    let plain = if live(m) {
        rest.push(m)
    } else {
        rest
    };
    if live(m) {
        lemma_same_live_push(middle, rest, m);
        lemma_same_live_transitive(last, middle.push(m), rest.push(m));
        assert(updated[0] == m);
        lemma_requeue(c, updated, 0);
    } else {
        lemma_discard(c, updated, 0);
    }
    assert(same_live(last, plain));
    lemma_same_live_with_head(c, last, plain);
    lemma_same_live_transitive(with_head(c, last), with_head(c, plain), with_head(c, updated));
    lemma_drawn_from(last, plain);
    assert forall|j: int| 0 <= j < last.len() implies (#[trigger] last[j]).rank != c.rank && !key_lt(
        head_key(last[j]),
        k,
    ) by {
        assert(plain.contains(last[j]));
        if live(m) {
            lemma_contains_push(rest, m, last[j]);
        }
        if last[j] != m || !live(m) {
            assert(rest.contains(last[j]));
            lemma_contains_swap_removed(heap, 0, last[j]);
            let i = choose|i: int| 0 <= i < heap.len() && i != 0 && #[trigger] heap[i] == last[j];
            assert(heap[i].rank != c.rank);
        } else {
            assert(m.rank == heap[0].rank);
        }
    }
    lemma_distinct_with_head(c, last);
    lemma_merge_drop_key_same_live(with_head(c, last), with_head(c, updated), k);
}

/// The source after it let go of its head.
pub(crate) open spec fn moved_on(s: Source) -> Source {
    Source { rank: s.rank, stream: s.stream.skip(1) }
}

/// The two sources at `i` and `j` in each other's place.
pub(crate) open spec fn exchanged(hs: Seq<Source>, i: int, j: int) -> Seq<Source> {
    hs.update(i, hs[j]).update(j, hs[i])
}

/// The root of an ordered heap comes before every other source.
pub(crate) proof fn lemma_root_is_top(hs: Seq<Source>)
    requires
        heap_ordered(hs),
        hs.len() > 0,
    ensures
        is_top(hs, 0),
{
    assert forall|j: int| 0 <= j < hs.len() && j != 0 implies precedes(hs[0], #[trigger] hs[j]) by {
        lemma_root_before(hs, j);
    }
}

/// The root of an ordered heap comes before the source at `j`.
proof fn lemma_root_before(hs: Seq<Source>, j: int)
    requires
        heap_ordered(hs),
        1 <= j < hs.len(),
    ensures
        precedes(hs[0], hs[j]),
    decreases j,
{
    let up = parent(j);
    assert(precedes(hs[up], hs[j]));
    if up > 0 {
        lemma_root_before(hs, up);
        lemma_precedes_transitive(hs[0], hs[up], hs[j]);
    }
}

/// Two sources that change places leave the heap with the same sources, as
/// many entries, and distinct ranks.
pub(crate) proof fn lemma_exchanged(hs: Seq<Source>, i: int, j: int)
    requires
        0 <= i < j < hs.len(),
        distinct_ranks(hs),
    ensures
        same_live(exchanged(hs, i, j), hs),
        distinct_ranks(exchanged(hs, i, j)),
        total_len(exchanged(hs, i, j)) == total_len(hs),
{
    let after = exchanged(hs, i, j);
    let to = |p: int|
        if p == i {
            j
        } else if p == j {
            i
        } else {
            p
        };
    lemma_rearranged(after, hs, to, to);
    lemma_total_len_update(hs, i, hs[j]);
    lemma_total_len_update(hs.update(i, hs[j]), j, hs[i]);
}

/// Exchanges the iterators at `i` and `j`.
fn exchange<I: StorageIterator>(heap: &mut Vec<HeapWrapper<I>>, i: usize, j: usize)
    requires
        i < j < old(heap)@.len(),
    ensures
        final(heap)@ == old(heap)@.update(i as int, old(heap)@[j as int]).update(
            j as int,
            old(heap)@[i as int],
        ),
{
    let count = heap.len();
    let mut carried = heap.swap_remove(j);
    heap.set_and_swap(i, &mut carried);
    if j < count - 1 {
        heap.set_and_swap(j, &mut carried);
    }
    heap.push(carried);
    assert(heap@ =~= old(heap)@.update(i as int, old(heap)@[j as int]).update(
        j as int,
        old(heap)@[i as int],
    ));
}

/// Moves the iterator at `start` up until it comes after the one above it.
fn sift_up<I: StorageIterator>(heap: &mut Vec<HeapWrapper<I>>, start: usize)
    requires
        start < old(heap)@.len(),
        heap_ok(old(heap)@),
        distinct_ranks(heap_sources(old(heap)@)),
        ordered_but_above(heap_sources(old(heap)@), start as int),
    ensures
        heap_inv(final(heap)@),
        final(heap)@.len() == old(heap)@.len(),
        same_live(heap_sources(final(heap)@), heap_sources(old(heap)@)),
        total_len(heap_sources(final(heap)@)) == total_len(heap_sources(old(heap)@)),
{
    let ghost first = heap_sources(heap@);
    let mut p = start;
    let mut moving = true;
    while moving && p > 0
        invariant
            p < heap@.len(),
            heap@.len() == old(heap)@.len(),
            heap_ok(heap@),
            distinct_ranks(heap_sources(heap@)),
            moving ==> ordered_but_above(heap_sources(heap@), p as int),
            !moving ==> heap_ordered(heap_sources(heap@)),
            same_live(heap_sources(heap@), first),
            total_len(heap_sources(heap@)) == total_len(first),
        decreases p + (if moving { 1int } else { 0int }),
    {
        let up = (p - 1) / 2;
        let ghost hs = heap_sources(heap@);
        assert(heap@[p as int].ok() && heap@[up as int].ok());
        if heap[p].comes_before(&heap[up]) {
            let ghost before = heap@;
            exchange(heap, up, p);
            proof {
                let after = heap_sources(heap@);
                assert(after =~= exchanged(hs, up as int, p as int));
                lemma_exchanged(hs, up as int, p as int);
                lemma_same_live_transitive(after, hs, first);
                assert forall|i: int| 1 <= i < after.len() && i != up implies precedes(
                    after[parent(i)],
                    #[trigger] after[i],
                ) by {
                    if i == p {
                    } else if parent(i) == p {
                        assert(precedes(hs[up as int], hs[i]));
                    } else if parent(i) == up {
                        assert(precedes(hs[up as int], hs[i]));
                        lemma_precedes_transitive(hs[p as int], hs[up as int], hs[i]);
                    } else {
                        assert(precedes(hs[parent(i)], hs[i]));
                    }
                }
                assert forall|i: int|
                    1 <= i < after.len() && parent(i) == up && up >= 1 implies precedes(
                    after[parent(up as int)],
                    #[trigger] after[i],
                ) by {
                    assert(precedes(hs[parent(up as int)], hs[up as int]));
                    if i != p {
                        assert(precedes(hs[up as int], hs[i]));
                        lemma_precedes_transitive(hs[parent(up as int)], hs[up as int], hs[i]);
                    }
                }
                assert forall|i: int| 0 <= i < heap@.len() implies (#[trigger] heap@[i]).ok() && live(
                    heap@[i].source(),
                ) by {
                    if i == up {
                        assert(heap@[i] == before[p as int]);
                    } else if i == p {
                        assert(heap@[i] == before[up as int]);
                    } else {
                        assert(heap@[i] == before[i]);
                    }
                }
            }
            p = up;
        } else {
            proof {
                lemma_precedes_total(hs[up as int], hs[p as int]);
            }
            moving = false;
        }
    }
}

/// Moves the iterator at `start` down until those below it come after it.
fn sift_down<I: StorageIterator>(heap: &mut Vec<HeapWrapper<I>>, start: usize)
    requires
        start < old(heap)@.len(),
        heap_ok(old(heap)@),
        distinct_ranks(heap_sources(old(heap)@)),
        ordered_but_below(heap_sources(old(heap)@), start as int),
    ensures
        heap_inv(final(heap)@),
        final(heap)@.len() == old(heap)@.len(),
        same_live(heap_sources(final(heap)@), heap_sources(old(heap)@)),
        total_len(heap_sources(final(heap)@)) == total_len(heap_sources(old(heap)@)),
{
    let ghost first = heap_sources(heap@);
    let count = heap.len();
    let mut p = start;
    let mut moving = true;
    while moving && p < count / 2
        invariant
            p < count,
            count == heap@.len(),
            heap@.len() == old(heap)@.len(),
            heap_ok(heap@),
            distinct_ranks(heap_sources(heap@)),
            moving ==> ordered_but_below(heap_sources(heap@), p as int),
            !moving ==> heap_ordered(heap_sources(heap@)),
            same_live(heap_sources(heap@), first),
            total_len(heap_sources(heap@)) == total_len(first),
        decreases count - p + (if moving { 1int } else { 0int }),
    {
        let ghost hs = heap_sources(heap@);
        let left = 2 * p + 1;
        let right = left + 1;
        assert(heap@[p as int].ok() && heap@[left as int].ok());
        let mut least = left;
        if right < count {
            assert(heap@[right as int].ok());
            if heap[right].comes_before(&heap[left]) {
                least = right;
            } else {
                proof {
                    lemma_precedes_total(hs[left as int], hs[right as int]);
                }
            }
        }
        assert(heap@[least as int].ok());
        if heap[least].comes_before(&heap[p]) {
            let ghost before = heap@;
            exchange(heap, p, least);
            proof {
                let after = heap_sources(heap@);
                assert(after =~= exchanged(hs, p as int, least as int));
                lemma_exchanged(hs, p as int, least as int);
                lemma_same_live_transitive(after, hs, first);
                assert forall|i: int| 1 <= i < after.len() && parent(i) != least implies precedes(
                    after[parent(i)],
                    #[trigger] after[i],
                ) by {
                    if i == least {
                    } else if parent(i) == p {
                        assert(i == left || i == right);
                    } else if i == p {
                        assert(precedes(hs[parent(p as int)], hs[least as int]));
                    } else {
                        assert(precedes(hs[parent(i)], hs[i]));
                    }
                }
                assert forall|i: int|
                    1 <= i < after.len() && parent(i) == least && least >= 1 implies precedes(
                    after[parent(least as int)],
                    #[trigger] after[i],
                ) by {
                    assert(precedes(hs[parent(i)], hs[i]));
                }
                assert forall|i: int| 0 <= i < heap@.len() implies (#[trigger] heap@[i]).ok() && live(
                    heap@[i].source(),
                ) by {
                    if i == least {
                        assert(heap@[i] == before[p as int]);
                    } else if i == p {
                        assert(heap@[i] == before[least as int]);
                    } else {
                        assert(heap@[i] == before[i]);
                    }
                }
            }
            p = least;
        } else {
            proof {
                lemma_precedes_total(hs[p as int], hs[least as int]);
                assert forall|i: int| 1 <= i < hs.len() implies precedes(
                    hs[parent(i)],
                    #[trigger] hs[i],
                ) by {
                    if parent(i) == p {
                        assert(i == left || i == right);
                        if i != least {
                            lemma_precedes_transitive(hs[p as int], hs[least as int], hs[i]);
                        }
                    }
                }
            }
            moving = false;
        }
    }
    proof {
        if moving {
            let hs = heap_sources(heap@);
            assert forall|i: int| 1 <= i < hs.len() implies precedes(
                hs[parent(i)],
                #[trigger] hs[i],
            ) by {
                assert(parent(i) != p);
            }
        }
    }
}

/// Puts an iterator into the heap.
pub(crate) fn heap_push<I: StorageIterator>(heap: &mut Vec<HeapWrapper<I>>, item: HeapWrapper<I>)
    requires
        heap_inv(old(heap)@),
        item.ok(),
        live(item.source()),
        distinct_ranks(heap_sources(old(heap)@.push(item))),
    ensures
        heap_inv(final(heap)@),
        final(heap)@.len() == old(heap)@.len() + 1,
        same_live(heap_sources(final(heap)@), heap_sources(old(heap)@).push(item.source())),
        drawn_from(heap_sources(final(heap)@), heap_sources(old(heap)@).push(item.source())),
        total_len(heap_sources(final(heap)@)) == total_len(heap_sources(old(heap)@))
            + item.source().stream.len(),
{
    let ghost before = heap_sources(heap@);
    let ghost added = item.source();
    let at = heap.len();
    heap.push(item);
    proof {
        let hs = heap_sources(heap@);
        assert(hs =~= before.push(added));
        assert(hs.drop_last() =~= before);
        assert forall|i: int| 1 <= i < hs.len() && i != at implies precedes(
            hs[parent(i)],
            #[trigger] hs[i],
        ) by {
            assert(precedes(before[parent(i)], before[i]));
        }
    }
    sift_up(heap, at);
    proof {
        lemma_drawn_from(heap_sources(heap@), before.push(added));
    }
}

/// Takes the iterator at the root out of the heap.
pub(crate) fn heap_pop<I: StorageIterator>(heap: &mut Vec<HeapWrapper<I>>) -> (top: HeapWrapper<I>)
    requires
        heap_inv(old(heap)@),
        old(heap)@.len() > 0,
    ensures
        top == old(heap)@[0],
        heap_inv(final(heap)@),
        final(heap)@.len() == old(heap)@.len() - 1,
        same_live(heap_sources(final(heap)@), swap_removed(heap_sources(old(heap)@), 0)),
        total_len(heap_sources(final(heap)@)) + top.source().stream.len() == total_len(
            heap_sources(old(heap)@),
        ),
        drawn_from(heap_sources(final(heap)@), heap_sources(old(heap)@)),
        rank_free(heap_sources(final(heap)@), top.0 as nat),
        distinct_ranks(with_head(top.source(), heap_sources(final(heap)@))),
        same_live(with_head(top.source(), heap_sources(final(heap)@)), heap_sources(old(heap)@)),
        is_front(with_head(top.source(), heap_sources(final(heap)@)), 0),
{
    let ghost before = heap_sources(heap@);
    let ghost waiting = heap@;
    let top = heap.swap_remove(0);
    proof {
        let hs = heap_sources(heap@);
        assert(hs =~= swap_removed(before, 0));
        lemma_total_len_swap_removed(before, 0);
        assert forall|i: int, j: int| 0 <= i < hs.len() && 0 <= j < hs.len() && i != j implies (
        #[trigger] hs[i]).rank != (#[trigger] hs[j]).rank by {
            let from_i = if i == 0 {
                before.len() - 1
            } else {
                i
            };
            let from_j = if j == 0 {
                before.len() - 1
            } else {
                j
            };
            assert(hs[i] == before[from_i]);
            assert(hs[j] == before[from_j]);
        }
        assert forall|i: int| 0 <= i < heap@.len() implies (#[trigger] heap@[i]).ok() && live(
            heap@[i].source(),
        ) by {
            if i == 0 {
                assert(heap@[i] == waiting[waiting.len() - 1]);
            } else {
                assert(heap@[i] == waiting[i]);
            }
        }
        assert forall|i: int| 1 <= i < hs.len() && parent(i) != 0 implies precedes(
            hs[parent(i)],
            #[trigger] hs[i],
        ) by {
            assert(precedes(before[parent(i)], before[i]));
        }
    }
    let ghost rest = heap_sources(heap@);
    if heap.len() > 0 {
        sift_down(heap, 0);
    }
    proof {
        lemma_root_is_top(before);
        lemma_popped(before, heap_sources(heap@));
    }
    top
}

} // verus!
