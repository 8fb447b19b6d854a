//! Merging any number of iterators of one type.

use vstd::prelude::*;
use crate::error::LsmError;
use crate::iterators::heap::{
    heads_from, heap_inv, heap_pop, heap_push, heap_sources, lemma_drained,
    lemma_drawn_rank_free, lemma_root_is_top, moved_on, HeapWrapper,
};
use crate::iterators::StorageIterator;
use crate::key::{
    key_lt, lemma_key_lt_asymmetric, lemma_key_lt_irreflexive, lemma_key_lt_total, KeyOrder,
    KeySlice,
};
use crate::merge::laws::{has_key, is_winner, lemma_merge_is_sorted_union, some_has_key, wins};
use crate::merge::rearrange::{
    lemma_contains_push, lemma_dead_head, lemma_distinct_push, lemma_distinct_tail,
    lemma_distinct_with_head, lemma_exchange, lemma_front_stays, lemma_rearranged,
    lemma_same_live_push, lemma_same_live_transitive, lemma_same_live_with_head, lemma_top_after,
    rank_free, swap_removed, with_head,
};
use crate::merge::{
    drop_key, head_key, is_front, lemma_merge_none_live, lemma_merge_same_live,
    lemma_merge_unfold, lemma_precedes_total, live, merge, precedes, same_live, total_len, Source,
};
use crate::stream::{advance, lemma_advance_ascending, strictly_ascending, Entry};

verus! {

/// The streams with their places as ranks.
pub open spec fn ranked(streams: Seq<Seq<Entry>>) -> Seq<Source> {
    Seq::new(streams.len(), |i: int| Source { rank: i as nat, stream: streams[i] })
}

/// What each of the iterators has yet to yield.
pub open spec fn streams_of<I: StorageIterator>(iters: Seq<Box<I>>) -> Seq<Seq<Entry>> {
    Seq::new(iters.len(), |i: int| iters[i].remaining())
}

/// The merge of ascending streams, ranked by their places, is ascending, so
/// it holds no key twice; it holds exactly the keys that the streams hold;
/// and each of its entries comes from the first of the streams that hold
/// its key.
pub proof fn lemma_merge_of_streams(streams: Seq<Seq<Entry>>)
    requires
        forall|i: int| 0 <= i < streams.len() ==> strictly_ascending(#[trigger] streams[i]),
    ensures
        strictly_ascending(merge(ranked(streams))),
        forall|k: Seq<u8>|
            #[trigger] has_key(merge(ranked(streams)), k) <==> exists|i: int|
                0 <= i < streams.len() && has_key(#[trigger] streams[i], k),
        forall|p: int|
            0 <= p < merge(ranked(streams)).len() ==> from_first_holder(
                streams,
                #[trigger] merge(ranked(streams))[p],
            ),
{
    let ss = ranked(streams);
    let m = merge(ss);
    lemma_merge_is_sorted_union(ss);
    assert forall|k: Seq<u8>| #[trigger] has_key(m, k) <==> exists|i: int|
        0 <= i < streams.len() && has_key(#[trigger] streams[i], k) by {
        if some_has_key(ss, k) {
            let i = choose|i: int| 0 <= i < ss.len() && has_key((#[trigger] ss[i]).stream, k);
            assert(has_key(streams[i], k));
        }
        if exists|i: int| 0 <= i < streams.len() && has_key(#[trigger] streams[i], k) {
            let i = choose|i: int| 0 <= i < streams.len() && has_key(#[trigger] streams[i], k);
            assert(has_key(ss[i].stream, k));
        }
    }
    assert forall|p: int| 0 <= p < m.len() implies from_first_holder(streams, #[trigger] m[p]) by {
        let e = m[p];
        assert(is_winner(ss, e));
        let i = choose|i: int| wins(ss, i, e);
        assert forall|j: int| 0 <= j < i implies !has_key(#[trigger] streams[j], e.0) by {
            if has_key(streams[j], e.0) {
                assert(has_key(ss[j].stream, e.0));
                assert(ss[i].rank < ss[j].rank);
            }
        }
        assert(first_holder(streams, i, e));
    }
}

/// Stream `i` holds the entry `e`, and no stream before it holds the key
/// of `e`.
pub open spec fn first_holder(streams: Seq<Seq<Entry>>, i: int, e: Entry) -> bool {
    &&& 0 <= i < streams.len()
    &&& streams[i].contains(e)
    &&& forall|j: int| 0 <= j < i ==> !has_key(#[trigger] streams[j], e.0)
}

/// The entry `e` comes from the first of the streams that hold its key.
pub open spec fn from_first_holder(streams: Seq<Seq<Entry>>, e: Entry) -> bool {
    exists|i: int| first_holder(streams, i, e)
}

/// Every source of `hs` is the one of `all` that has its rank, and that
/// rank is `from` or more.
spec fn taken_from(hs: Seq<Source>, all: Seq<Source>, from: int) -> bool {
    forall|j: int|
        0 <= j < hs.len() ==> from <= (#[trigger] hs[j]).rank < all.len() && hs[j]
            == all[hs[j].rank as int]
}

/// Every live source of `all` with rank `from` or more is among `hs`.
spec fn holds_live_from(hs: Seq<Source>, all: Seq<Source>, from: int) -> bool {
    forall|r: int| from <= r < all.len() && live(#[trigger] all[r]) ==> hs.contains(all[r])
}

/// Merge multiple iterators of the same type. If the same key occurs multiple times in some
/// iterators, prefer the one with smaller index.
///
/// The iterators that stand on an entry wait in a heap, but for the one
/// that is to be yielded next, which is `current`.
pub struct MergeIterator<I: StorageIterator> {
    iters: Vec<HeapWrapper<I>>,
    current: Option<HeapWrapper<I>>,
}

impl<I: StorageIterator> MergeIterator<I> {
    /// The current iterator and the waiting ones, as sources.
    spec fn sources(&self) -> Seq<Source> {
        match self.current {
            Some(c) => with_head(c.source(), heap_sources(self.iters@)),
            None => Seq::empty(),
        }
    }

    /// Merges the iterators; where several hold a key, the one that stands
    /// earliest in `iters` gives the value.
    pub fn create(iters: Vec<Box<I>>) -> (iter: Self)
        requires
            forall|i: int|
                0 <= i < iters@.len() ==> (#[trigger] iters@[i]).inv() && strictly_ascending(
                    iters@[i].remaining(),
                ),
        ensures
            iter.inv() && iter.has_sources() == (iters@.len() > 0),
            iter.remaining() == merge(ranked(streams_of(iters@))),
    {
        let ghost all = ranked(streams_of(iters@));
        let mut iters = iters;
        let mut heap: Vec<HeapWrapper<I>> = Vec::new();
        let mut spare: Option<HeapWrapper<I>> = None;
        while iters.len() > 0
            invariant
                iters@.len() <= all.len(),
                forall|r: int| 0 <= r < all.len() ==> (#[trigger] all[r]).rank == r,
                forall|i: int|
                    0 <= i < iters@.len() ==> (#[trigger] iters@[i]).inv() && strictly_ascending(
                        iters@[i].remaining(),
                    ) && iters@[i].remaining() == all[i].stream,
                heap_inv(heap@),
                taken_from(heap_sources(heap@), all, iters@.len() as int),
                holds_live_from(heap_sources(heap@), all, iters@.len() as int),
                spare matches Some(w) ==> w.ok() && !live(w.source()) && all.len() > 0,
                iters@.len() < all.len() && heap@.len() == 0 ==> spare is Some,
            decreases iters@.len(),
        {
            let idx = iters.len() - 1;
            let ghost hs = heap_sources(heap@);
            let iter = iters.pop().unwrap();
            assert(iter.remaining() == all[idx as int].stream);
            if iter.is_valid() {
                let item = HeapWrapper(idx, iter);
                proof {
                    assert(heap_sources(heap@.push(item)) =~= hs.push(item.source()));
                    lemma_distinct_push(hs, item.source());
                }
                heap_push(&mut heap, item);
                proof {
                    let added = all[idx as int];
                    let now = heap_sources(heap@);
                    assert forall|j: int| 0 <= j < now.len() implies idx <= (#[trigger] now[j]).rank
                        < all.len() && now[j] == all[now[j].rank as int] by {
                        assert(hs.push(added).contains(now[j]));
                        lemma_contains_push(hs, added, now[j]);
                        if now[j] != added {
                            let i = choose|i: int| 0 <= i < hs.len() && hs[i] == now[j];
                            assert(hs[i] == all[hs[i].rank as int]);
                        }
                    }
                    assert forall|r: int|
                        idx <= r < all.len() && live(#[trigger] all[r]) implies now.contains(
                        all[r],
                    ) by {
                        lemma_contains_push(hs, added, all[r]);
                        assert(hs.push(added).contains(all[r]));
                    }
                }
            } else {
                spare = Some(HeapWrapper(idx, iter));
            }
        }
        if heap.len() == 0 {
            let merged = MergeIterator { iters: heap, current: spare };
            proof {
                assert forall|r: int| 0 <= r < all.len() implies !live(#[trigger] all[r]) by {
                    if live(all[r]) {
                        assert(heap_sources(heap@).contains(all[r]));
                    }
                }
                lemma_merge_none_live(all);
                lemma_merge_none_live(merged.sources());
            }
            merged
        } else {
            let ghost hs = heap_sources(heap@);
            let current = heap_pop(&mut heap);
            let merged = MergeIterator { iters: heap, current: Some(current) };
            proof {
                let to = |i: int| hs[i].rank as int;
                let from = |r: int| choose|i: int| 0 <= i < hs.len() && hs[i] == all[r];
                assert forall|r: int| 0 <= r < all.len() && live(all[r]) implies 0 <= #[trigger] from(
                    r,
                ) < hs.len() && hs[from(r)] == all[r] by {
                    assert(hs.contains(all[r]));
                }
                lemma_rearranged(hs, all, to, from);
                lemma_merge_same_live(merged.sources(), hs);
            }
            merged
        }
    }

    /// Whether the root of the heap stands on the key that `current` stands
    /// on.
    fn top_is_duplicate(heap: &Vec<HeapWrapper<I>>, current: &HeapWrapper<I>) -> (duplicate: bool)
        requires
            heap_inv(heap@),
            current.1.inv(),
            heap@.len() > 0 ==> live(current.source()),
        ensures
            duplicate == (heap@.len() > 0 && head_key(heap_sources(heap@)[0]) == head_key(
                current.source(),
            )),
    {
        if heap.len() == 0 {
            return false;
        }
        assert(heap@[0].ok());
        proof {
            lemma_key_lt_irreflexive(head_key(current.source()));
        }
        heap[0].1.key().compare(current.1.key()) == KeyOrder::Equal
    }

    /// What becomes of an iterator that was taken from the heap and asked
    /// to move on. If it failed it is let go and its error is handed on. If
    /// it moved on it goes back into the heap, unless it came to its end.
    fn requeue(
        iters: &mut Vec<HeapWrapper<I>>,
        moved: HeapWrapper<I>,
        outcome: Result<(), LsmError>,
    ) -> (result: Result<(), LsmError>)
        requires
            outcome is Ok ==> {
                &&& moved.ok()
                &&& heap_inv(old(iters)@)
                &&& rank_free(heap_sources(old(iters)@), moved.0 as nat)
            },
        ensures
            outcome matches Err(e) ==> result == Err::<(), LsmError>(e) && final(iters)@ == old(
                iters,
            )@,
            outcome is Ok ==> {
                &&& result is Ok
                &&& heap_inv(final(iters)@)
                &&& if live(moved.source()) {
                    &&& same_live(
                        heap_sources(final(iters)@),
                        heap_sources(old(iters)@).push(moved.source()),
                    )
                    &&& total_len(heap_sources(final(iters)@)) == total_len(
                        heap_sources(old(iters)@),
                    ) + moved.source().stream.len()
                } else {
                    final(iters)@ == old(iters)@
                }
            },
    {
        match outcome {
            Err(e) => Err(e),
            Ok(()) => {
                if moved.1.is_valid() {
                    proof {
                        let hs = heap_sources(iters@);
                        assert(heap_sources(iters@.push(moved)) =~= hs.push(moved.source()));
                        lemma_distinct_push(hs, moved.source());
                    }
                    heap_push(iters, moved);
                }
                Ok(())
            },
        }
    }

    /// Settles the merge once the current iterator was asked to move on.
    /// If it failed, its error is handed on. If it moved on, the iterator
    /// that now comes first becomes the current one: the one that was, if
    /// it still stands on an entry and the root of the heap does not come
    /// before it; else the root of the heap.
    fn settle(&mut self, current: HeapWrapper<I>, outcome: Result<(), LsmError>) -> (result: Result<
        (),
        LsmError,
    >)
        requires
            old(self).current is None,
            outcome is Ok ==> {
                &&& current.ok()
                &&& heap_inv(old(self).iters@)
                &&& rank_free(heap_sources(old(self).iters@), current.0 as nat)
            },
        ensures
            outcome matches Err(e) ==> result == Err::<(), LsmError>(e),
            outcome is Ok ==> result is Ok && final(self).inv() && final(self).remaining() == merge(
                with_head(current.source(), heap_sources(old(self).iters@)),
            ),
    {
        match outcome {
            Err(e) => {
                return Err(e);
            },
            Ok(()) => {},
        }
        let mut current = current;
        let ghost c1 = current.source();
        let ghost hs = heap_sources(self.iters@);
        proof {
            lemma_distinct_with_head(c1, hs);
            if hs.len() > 0 {
                lemma_root_is_top(hs);
            }
        }
        if !current.1.is_valid() {
            if self.iters.len() > 0 {
                current = heap_pop(&mut self.iters);
                proof {
                    let now = with_head(current.source(), heap_sources(self.iters@));
                    lemma_dead_head(c1, hs);
                    lemma_same_live_transitive(now, hs, with_head(c1, hs));
                    lemma_merge_same_live(now, with_head(c1, hs));
                }
            }
            self.current = Some(current);
            return Ok(());
        }
        if self.iters.len() > 0 {
            assert(self.iters@[0].ok());
            if self.iters[0].comes_before(&current) {
                let first = heap_pop(&mut self.iters);
                let ghost mid = heap_sources(self.iters@);
                proof {
                    lemma_drawn_rank_free(mid, hs, c1.rank);
                    assert(heap_sources(self.iters@.push(current)) =~= mid.push(c1));
                    lemma_distinct_push(mid, c1);
                }
                heap_push(&mut self.iters, current);
                current = first;
                proof {
                    let top = hs[0];
                    let rest = swap_removed(hs, 0);
                    let last = heap_sources(self.iters@);
                    let now = with_head(top, last);
                    let plain = with_head(top, rest.push(c1));
                    lemma_exchange(c1, hs, 0);
                    lemma_same_live_push(mid, rest, c1);
                    lemma_same_live_transitive(last, mid.push(c1), rest.push(c1));
                    lemma_same_live_with_head(top, last, rest.push(c1));
                    lemma_same_live_transitive(now, plain, with_head(c1, hs));
                    assert forall|j: int| 0 <= j < last.len() implies (#[trigger] last[j]).rank
                        != top.rank && precedes(top, last[j]) by {
                        assert(mid.push(c1).contains(last[j]));
                        lemma_contains_push(mid, c1, last[j]);
                        if last[j] != c1 {
                            let i = choose|i: int| 0 <= i < mid.len() && mid[i] == last[j];
                            assert(mid[i].rank != top.rank);
                            assert(with_head(top, mid)[i + 1] == mid[i]);
                            assert(precedes(with_head(top, mid)[0], with_head(top, mid)[i + 1]));
                        }
                    }
                    lemma_distinct_with_head(top, last);
                    lemma_merge_same_live(now, with_head(c1, hs));
                    assert forall|j: int| 0 <= j < now.len() && j != 0 && live(
                        #[trigger] now[j],
                    ) implies precedes(now[0], now[j]) by {
                        assert(now[j] == last[j - 1]);
                    }
                    lemma_distinct_tail(top, last);
                }
            } else {
                proof {
                    lemma_precedes_total(c1, hs[0]);
                    lemma_front_stays(c1, hs, 0);
                }
            }
        } else {
            proof {
                lemma_front_stays(c1, hs, 0);
            }
        }
        self.current = Some(current);
        Ok(())
    }

    /// What is still to come ascends: no key comes twice, and none comes
    /// before one that was yielded.
    pub proof fn lemma_remaining_ascending(&self)
        requires
            self.inv(),
        ensures
            strictly_ascending(self.remaining()),
    {
        match self.current {
            None => {
                lemma_merge_none_live(self.sources());
            },
            Some(c) => {
                let hs = heap_sources(self.iters@);
                let all = self.sources();
                lemma_distinct_with_head(c.source(), hs);
                assert forall|i: int| 0 <= i < all.len() implies strictly_ascending(
                    (#[trigger] all[i]).stream,
                ) by {
                    if i > 0 {
                        assert(all[i] == hs[i - 1]);
                        assert(self.iters@[i - 1].ok());
                    }
                }
                lemma_merge_is_sorted_union(all);
            },
        }
    }

    /// The current iterator holds the head of the merge; where it stands on
    /// no entry, or there is none, the merge is empty.
    proof fn lemma_current(&self)
        requires
            self.inv(),
        ensures
            self.current is None ==> self.remaining().len() == 0,
            self.current matches Some(c) ==> {
                &&& c.1.inv()
                &&& (c.1.remaining().len() > 0) == (self.remaining().len() > 0)
                &&& c.1.remaining().len() > 0 ==> self.remaining()[0] == c.1.remaining()[0]
            },
    {
        match self.current {
            None => {
                lemma_merge_none_live(self.sources());
            },
            Some(c) => {
                if live(c.source()) {
                    lemma_merge_unfold(self.sources(), 0);
                } else {
                    lemma_merge_none_live(self.sources());
                }
            },
        }
    }
}

impl<I: StorageIterator> StorageIterator for MergeIterator<I> {
    /// The iterator is in good order: the heap is, the current iterator
    /// came from another place than those in the heap, and it comes before
    /// them all; it stands on no entry only if the heap is empty.
    closed spec fn inv(&self) -> bool {
        match self.current {
            None => self.iters@.len() == 0,
            Some(c) => {
                &&& c.ok()
                &&& heap_inv(self.iters@)
                &&& rank_free(heap_sources(self.iters@), c.0 as nat)
                &&& live(c.source()) ==> is_front(self.sources(), 0)
                &&& !live(c.source()) ==> self.iters@.len() == 0
            },
        }
    }

    closed spec fn remaining(&self) -> Seq<Entry> {
        merge(self.sources())
    }

    fn key(&self) -> (key: KeySlice<'_>) {
        proof {
            self.lemma_current();
        }
        match &self.current {
            Some(current) => current.1.key(),
            None => KeySlice::from_slice(&[]),
        }
    }

    fn value(&self) -> (value: &[u8]) {
        proof {
            self.lemma_current();
        }
        match &self.current {
            Some(current) => current.1.value(),
            None => &[],
        }
    }

    fn is_valid(&self) -> (valid: bool) {
        proof {
            self.lemma_current();
        }
        match &self.current {
            Some(current) => current.1.is_valid(),
            None => false,
        }
    }

    fn next(&mut self) -> (result: Result<(), LsmError>)
        ensures
            !old(self).has_sources() ==> result is Ok && *final(self) == *old(self),
    {
        proof {
            self.lemma_current();
        }
        let ghost before = self.sources();
        let mut current = match self.current.take() {
            Some(current) => current,
            None => {
                return Ok(());
            },
        };
        let ghost c0 = current.source();
        let ghost k = head_key(c0);
        let ghost target = drop_key(before, k);
        proof {
            if live(c0) {
                lemma_key_lt_irreflexive(k);
                assert forall|j: int| 0 <= j < self.iters@.len() implies !key_lt(
                    head_key(#[trigger] heap_sources(self.iters@)[j]),
                    k,
                ) by {
                    assert(live(before[j + 1]));
                    assert(precedes(before[0], before[j + 1]));
                    lemma_key_lt_asymmetric(k, head_key(before[j + 1]));
                }
            }
        }
        while Self::top_is_duplicate(&self.iters, &current)
            invariant
                self.current is None,
                old(self).has_sources(),
                current.ok(),
                current.source() == c0,
                k == head_key(c0),
                heap_inv(self.iters@),
                rank_free(heap_sources(self.iters@), c0.rank),
                self.iters@.len() > 0 ==> live(c0),
                heads_from(heap_sources(self.iters@), k),
                merge(drop_key(with_head(c0, heap_sources(self.iters@)), k)) == merge(target),
            decreases total_len(heap_sources(self.iters@)),
        {
            let ghost hs = heap_sources(self.iters@);
            assert(self.iters@[0].ok());
            let mut duplicate = heap_pop(&mut self.iters);
            let ghost mid = heap_sources(self.iters@);
            let outcome = duplicate.1.next();
            proof {
                lemma_advance_ascending(hs[0].stream);
            }
            Self::requeue(&mut self.iters, duplicate, outcome)?;
            proof {
                assert(duplicate.source() == moved_on(hs[0]));
                lemma_drained(c0, k, hs, mid, heap_sources(self.iters@));
            }
        }
        let ghost hs = heap_sources(self.iters@);
        let outcome = current.1.next();
        proof {
            if outcome is Ok {
                let c1 = current.source();
                lemma_advance_ascending(c0.stream);
                lemma_distinct_with_head(c0, hs);
                if live(c0) {
                    lemma_merge_unfold(before, 0);
                    if hs.len() > 0 {
                        lemma_root_is_top(hs);
                        lemma_key_lt_total(k, head_key(hs[0]));
                        lemma_top_after(hs, 0, k);
                        assert forall|j: int| 0 <= j < hs.len() implies head_key(#[trigger] hs[j])
                            != k by {
                            lemma_key_lt_irreflexive(k);
                        }
                    }
                    assert(with_head(c1, hs) =~= drop_key(with_head(c0, hs), k));
                    assert(merge(with_head(c1, hs)) == advance(merge(before)));
                } else {
                    lemma_merge_none_live(before);
                    lemma_merge_none_live(with_head(c1, hs));
                }
            }
        }
        self.settle(current, outcome)
    }
}

impl<I: StorageIterator> MergeIterator<I> {
    /// Whether the merge was made of any iterator at all. One that was made
    /// of none has no iterator to ask, so it never fails.
    pub closed spec fn has_sources(&self) -> bool {
        self.current is Some
    }
}

} // verus!
