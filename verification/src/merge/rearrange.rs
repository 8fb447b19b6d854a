//! Sources in another order.
//!
//! The merge depends on which live sources there are, not on where each
//! stands. The lemmas here say so for the ways in which an iterator moves
//! its sources about: taking one out of its place, putting one at the end,
//! putting one in front.

use vstd::prelude::*;
use crate::key::{key_lt, lemma_key_lt_transitive};
use crate::merge::{
    all_ascending, distinct_ranks, head_key, is_front, lemma_merge_same_live,
    lemma_precedes_transitive, live, merge, precedes, same_live, total_len, Source,
};
use crate::stream::strictly_ascending;

verus! {

/// Sources `after` are the sources `before` in another order, but for exhausted
/// ones that may be missing: `to` says where each of `after` stands in `before`,
/// `from` where each live one of `before` stands in `after`.
pub proof fn lemma_rearranged(
    after: Seq<Source>,
    before: Seq<Source>,
    to: spec_fn(int) -> int,
    from: spec_fn(int) -> int,
)
    requires
        distinct_ranks(before),
        forall|i: int|
            0 <= i < after.len() ==> 0 <= #[trigger] to(i) < before.len() && before[to(i)]
                == after[i],
        forall|i: int, j: int| 0 <= i < j < after.len() ==> #[trigger] to(i) != #[trigger] to(j),
        forall|j: int|
            0 <= j < before.len() && live(before[j]) ==> 0 <= #[trigger] from(j) < after.len()
                && after[from(j)] == before[j],
    ensures
        same_live(after, before),
        distinct_ranks(after),
        merge(after) == merge(before),
        all_ascending(before) ==> all_ascending(after),
{
    assert forall|s: Source| live(s) implies (after.contains(s) <==> before.contains(s)) by {
        if after.contains(s) {
            let i = choose|i: int| 0 <= i < after.len() && after[i] == s;
            assert(before[to(i)] == s);
        }
        if before.contains(s) {
            let j = choose|j: int| 0 <= j < before.len() && before[j] == s;
            assert(after[from(j)] == s);
        }
    }
    assert forall|i: int, j: int| 0 <= i < after.len() && 0 <= j < after.len() && i != j implies (
    #[trigger] after[i]).rank != (#[trigger] after[j]).rank by {
        assert(before[to(i)] == after[i]);
        assert(before[to(j)] == after[j]);
        if i < j {
            assert(to(i) != to(j));
        } else {
            assert(to(j) != to(i));
        }
    }
    lemma_merge_same_live(after, before);
    if all_ascending(before) {
        assert forall|i: int| 0 <= i < after.len() implies strictly_ascending(
            (#[trigger] after[i]).stream,
        ) by {
            assert(before[to(i)] == after[i]);
        }
    }
}

/// The sources `hs` without the one at `t`: the last one takes its place.
pub open spec fn swap_removed(hs: Seq<Source>, t: int) -> Seq<Source> {
    hs.update(t, hs.last()).drop_last()
}

/// The sources `hs` behind the source `c`.
pub open spec fn with_head(c: Source, hs: Seq<Source>) -> Seq<Source> {
    seq![c] + hs
}

/// Taking the source at `t` out and putting it back at the end changes
/// nothing for the merge.
pub proof fn lemma_requeue(c: Source, hs: Seq<Source>, t: int)
    requires
        0 <= t < hs.len(),
        distinct_ranks(with_head(c, hs)),
    ensures
        distinct_ranks(with_head(c, swap_removed(hs, t).push(hs[t]))),
        same_live(with_head(c, swap_removed(hs, t).push(hs[t])), with_head(c, hs)),
        merge(with_head(c, swap_removed(hs, t).push(hs[t]))) == merge(with_head(c, hs)),
        all_ascending(with_head(c, hs)) ==> all_ascending(
            with_head(c, swap_removed(hs, t).push(hs[t])),
        ),
{
    let n = hs.len() as int;
    let after = with_head(c, swap_removed(hs, t).push(hs[t]));
    let before = with_head(c, hs);
    let to = |i: int|
        if i == 0 {
            0
        } else if i == n {
            1 + t
        } else if i - 1 == t {
            n
        } else {
            i
        };
    let from = |j: int|
        if j == 0 {
            0
        } else if j - 1 == t {
            n
        } else if j == n {
            1 + t
        } else {
            j
        };
    lemma_rearranged(after, before, to, from);
}

/// Taking an exhausted source out changes nothing for the merge.
pub proof fn lemma_discard(c: Source, hs: Seq<Source>, t: int)
    requires
        0 <= t < hs.len(),
        !live(hs[t]),
        distinct_ranks(with_head(c, hs)),
    ensures
        distinct_ranks(with_head(c, swap_removed(hs, t))),
        same_live(with_head(c, swap_removed(hs, t)), with_head(c, hs)),
        merge(with_head(c, swap_removed(hs, t))) == merge(with_head(c, hs)),
        all_ascending(with_head(c, hs)) ==> all_ascending(with_head(c, swap_removed(hs, t))),
{
    let n = hs.len() as int;
    let after = with_head(c, swap_removed(hs, t));
    let before = with_head(c, hs);
    let to = |i: int|
        if i == 0 {
            0
        } else if i - 1 == t {
            n
        } else {
            i
        };
    let from = |j: int|
        if j == 0 {
            0
        } else if j == n {
            1 + t
        } else {
            j
        };
    lemma_rearranged(after, before, to, from);
}

/// The source in front and the source at `t` may change places: the merge
/// is the same.
pub proof fn lemma_exchange(c: Source, hs: Seq<Source>, t: int)
    requires
        0 <= t < hs.len(),
        distinct_ranks(with_head(c, hs)),
    ensures
        distinct_ranks(with_head(hs[t], swap_removed(hs, t).push(c))),
        same_live(with_head(hs[t], swap_removed(hs, t).push(c)), with_head(c, hs)),
        merge(with_head(hs[t], swap_removed(hs, t).push(c))) == merge(with_head(c, hs)),
        all_ascending(with_head(c, hs)) ==> all_ascending(
            with_head(hs[t], swap_removed(hs, t).push(c)),
        ),
{
    let n = hs.len() as int;
    let after = with_head(hs[t], swap_removed(hs, t).push(c));
    let before = with_head(c, hs);
    let to = |i: int|
        if i == 0 {
            1 + t
        } else if i == n {
            0
        } else if i - 1 == t {
            n
        } else {
            i
        };
    let from = |j: int|
        if j == 0 {
            n
        } else if j - 1 == t {
            0
        } else if j == n {
            1 + t
        } else {
            j
        };
    lemma_rearranged(after, before, to, from);
}

/// The source at `t` comes before all others in `hs`.
pub open spec fn is_top(hs: Seq<Source>, t: int) -> bool {
    &&& 0 <= t < hs.len()
    &&& forall|j: int| 0 <= j < hs.len() && j != t ==> precedes(hs[t], #[trigger] hs[j])
}

/// A source that comes before the top of `hs` comes before all of `hs`.
pub proof fn lemma_front_stays(c: Source, hs: Seq<Source>, t: int)
    requires
        live(c),
        hs.len() > 0 ==> is_top(hs, t) && precedes(c, hs[t]),
    ensures
        is_front(with_head(c, hs), 0),
{
    let after = with_head(c, hs);
    assert forall|j: int| 0 <= j < after.len() && j != 0 && live(#[trigger] after[j]) implies precedes(
        after[0],
        after[j],
    ) by {
        assert(after[j] == hs[j - 1]);
        if j - 1 != t {
            lemma_precedes_transitive(c, hs[t], hs[j - 1]);
        }
    }
}

/// Where the top of `hs` has a key after `k`, every source of `hs` has.
pub proof fn lemma_top_after(hs: Seq<Source>, t: int, k: Seq<u8>)
    requires
        is_top(hs, t),
        key_lt(k, head_key(hs[t])),
    ensures
        forall|j: int| 0 <= j < hs.len() ==> key_lt(k, head_key(#[trigger] hs[j])),
{
    assert forall|j: int| 0 <= j < hs.len() implies key_lt(k, head_key(#[trigger] hs[j])) by {
        if j != t {
            assert(precedes(hs[t], hs[j]));
            if key_lt(head_key(hs[t]), head_key(hs[j])) {
                lemma_key_lt_transitive(k, head_key(hs[t]), head_key(hs[j]));
            }
        }
    }
}

/// The entries of sources are those of the source at `t` and those of the
/// others.
pub proof fn lemma_total_len_swap_removed(hs: Seq<Source>, t: int)
    requires
        0 <= t < hs.len(),
    ensures
        total_len(swap_removed(hs, t)) + hs[t].stream.len() == total_len(hs),
    decreases hs.len(),
{
    let n = hs.len() as int;
    let rest = hs.drop_last();
    if t == n - 1 {
        assert(swap_removed(hs, t) =~= rest);
    } else {
        lemma_total_len_swap_removed(rest, t);
        // put the last source in the place of the one at `t`
        let a = swap_removed(hs, t);
        lemma_total_len_update(rest, t, hs.last());
        assert(a =~= rest.update(t, hs.last()));
    }
}

/// Putting another source in place `t` changes the total by the difference
/// of the two.
pub proof fn lemma_total_len_update(hs: Seq<Source>, t: int, s: Source)
    requires
        0 <= t < hs.len(),
    ensures
        total_len(hs.update(t, s)) + hs[t].stream.len() == total_len(hs) + s.stream.len(),
    decreases hs.len(),
{
    let n = hs.len() as int;
    if t == n - 1 {
        assert(hs.update(t, s).drop_last() =~= hs.drop_last());
    } else {
        lemma_total_len_update(hs.drop_last(), t, s);
        assert(hs.update(t, s).drop_last() =~= hs.drop_last().update(t, s));
    }
}

/// Sources that hold the same live sources as others that do as a third
/// hold the same as the third.
pub proof fn lemma_same_live_transitive(a: Seq<Source>, b: Seq<Source>, c: Seq<Source>)
    requires
        same_live(a, b),
        same_live(b, c),
    ensures
        same_live(a, c),
{
    assert forall|s: Source| live(s) implies (a.contains(s) <==> c.contains(s)) by {
        assert(a.contains(s) <==> b.contains(s));
        assert(b.contains(s) <==> c.contains(s));
    }
}

/// A source is among sources with one more at their end if it is that one
/// or among the others.
pub proof fn lemma_contains_push(hs: Seq<Source>, x: Source, s: Source)
    ensures
        hs.push(x).contains(s) <==> hs.contains(s) || s == x,
{
    let all = hs.push(x);
    if all.contains(s) {
        let i = choose|i: int| 0 <= i < all.len() && all[i] == s;
        if i < hs.len() {
            assert(hs[i] == s);
        }
    }
    if hs.contains(s) {
        let i = choose|i: int| 0 <= i < hs.len() && hs[i] == s;
        assert(all[i] == s);
    }
    if s == x {
        assert(all[hs.len() as int] == s);
    }
}

/// A source is among sources behind a head if it is the head or among the
/// others.
pub proof fn lemma_contains_with_head(c: Source, hs: Seq<Source>, s: Source)
    ensures
        with_head(c, hs).contains(s) <==> hs.contains(s) || s == c,
{
    let all = with_head(c, hs);
    if all.contains(s) {
        let i = choose|i: int| 0 <= i < all.len() && all[i] == s;
        if i > 0 {
            assert(hs[i - 1] == s);
        }
    }
    if hs.contains(s) {
        let i = choose|i: int| 0 <= i < hs.len() && hs[i] == s;
        assert(all[i + 1] == s);
    }
    if s == c {
        assert(all[0] == s);
    }
}

/// A source is among sources of which one was taken out if it stands in
/// another place than that one.
pub proof fn lemma_contains_swap_removed(hs: Seq<Source>, t: int, s: Source)
    requires
        0 <= t < hs.len(),
    ensures
        swap_removed(hs, t).contains(s) <==> exists|j: int|
            0 <= j < hs.len() && j != t && #[trigger] hs[j] == s,
{
    let rest = swap_removed(hs, t);
    if rest.contains(s) {
        let i = choose|i: int| 0 <= i < rest.len() && rest[i] == s;
        if i == t {
            assert(hs[hs.len() - 1] == s);
        } else {
            assert(hs[i] == s);
        }
    }
    if exists|j: int| 0 <= j < hs.len() && j != t && #[trigger] hs[j] == s {
        let j = choose|j: int| 0 <= j < hs.len() && j != t && #[trigger] hs[j] == s;
        if j == hs.len() - 1 {
            assert(rest[t] == s);
        } else {
            assert(rest[j] == s);
        }
    }
}

/// Sources that hold the same live sources still do with one more at their
/// end.
pub proof fn lemma_same_live_push(a: Seq<Source>, b: Seq<Source>, x: Source)
    requires
        same_live(a, b),
    ensures
        same_live(a.push(x), b.push(x)),
{
    assert forall|s: Source| live(s) implies (a.push(x).contains(s) <==> b.push(x).contains(s)) by {
        lemma_contains_push(a, x, s);
        lemma_contains_push(b, x, s);
        assert(a.contains(s) <==> b.contains(s));
    }
}

/// Sources that hold the same live sources still do behind a head.
pub proof fn lemma_same_live_with_head(c: Source, a: Seq<Source>, b: Seq<Source>)
    requires
        same_live(a, b),
    ensures
        same_live(with_head(c, a), with_head(c, b)),
{
    assert forall|s: Source| live(s) implies (with_head(c, a).contains(s) <==> with_head(
        c,
        b,
    ).contains(s)) by {
        lemma_contains_with_head(c, a, s);
        lemma_contains_with_head(c, b, s);
        assert(a.contains(s) <==> b.contains(s));
    }
}

/// An exhausted head changes nothing.
pub proof fn lemma_dead_head(c: Source, hs: Seq<Source>)
    requires
        !live(c),
    ensures
        same_live(with_head(c, hs), hs),
{
    assert forall|s: Source| live(s) implies (with_head(c, hs).contains(s) <==> hs.contains(s)) by {
        lemma_contains_with_head(c, hs, s);
    }
}

/// Every source has a rank other than `rank`.
pub open spec fn rank_free(hs: Seq<Source>, rank: nat) -> bool {
    forall|j: int| 0 <= j < hs.len() ==> (#[trigger] hs[j]).rank != rank
}

/// Sources of distinct ranks behind a head of yet another rank have
/// distinct ranks.
pub proof fn lemma_distinct_with_head(c: Source, hs: Seq<Source>)
    requires
        distinct_ranks(hs),
        rank_free(hs, c.rank),
    ensures
        distinct_ranks(with_head(c, hs)),
{
    let all = with_head(c, hs);
    assert forall|i: int, j: int| 0 <= i < all.len() && 0 <= j < all.len() && i != j implies (
    #[trigger] all[i]).rank != (#[trigger] all[j]).rank by {
        if i > 0 {
            assert(all[i] == hs[i - 1]);
        }
        if j > 0 {
            assert(all[j] == hs[j - 1]);
        }
    }
}

/// Sources of distinct ranks with one more of yet another rank at their end
/// have distinct ranks.
pub proof fn lemma_distinct_push(hs: Seq<Source>, x: Source)
    requires
        distinct_ranks(hs),
        rank_free(hs, x.rank),
    ensures
        distinct_ranks(hs.push(x)),
{
    let all = hs.push(x);
    assert forall|i: int, j: int| 0 <= i < all.len() && 0 <= j < all.len() && i != j implies (
    #[trigger] all[i]).rank != (#[trigger] all[j]).rank by {
        if i < hs.len() {
            assert(all[i] == hs[i]);
        }
        if j < hs.len() {
            assert(all[j] == hs[j]);
        }
    }
}

/// Sources behind a head with distinct ranks have distinct ranks among
/// themselves, and none has the rank of the head.
pub proof fn lemma_distinct_tail(c: Source, hs: Seq<Source>)
    requires
        distinct_ranks(with_head(c, hs)),
    ensures
        distinct_ranks(hs),
        rank_free(hs, c.rank),
{
    let all = with_head(c, hs);
    assert forall|i: int, j: int| 0 <= i < hs.len() && 0 <= j < hs.len() && i != j implies (
    #[trigger] hs[i]).rank != (#[trigger] hs[j]).rank by {
        assert(all[i + 1] == hs[i]);
        assert(all[j + 1] == hs[j]);
    }
    assert forall|j: int| 0 <= j < hs.len() implies (#[trigger] hs[j]).rank != c.rank by {
        assert(all[j + 1] == hs[j]);
        assert(all[0] == c);
    }
}

} // verus!
