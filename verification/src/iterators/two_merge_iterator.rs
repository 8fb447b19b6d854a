//! Merging two iterators of different types.

use vstd::prelude::*;
use crate::error::LsmError;
use crate::iterators::StorageIterator;
use crate::key::{key_lt, lemma_key_lt_irreflexive, KeyOrder, KeySlice};
use crate::merge::laws::lemma_two_merge_is_sorted_union;
use crate::merge::{
    lemma_two_advance, lemma_two_exhausted, lemma_two_skip_second, merge, two_sources,
};
use crate::stream::{lemma_advance_ascending, strictly_ascending, Entry};

verus! {

/// Merges two iterators of different types into one. If the two iterators have the same key, only
/// produce the key once and prefer the entry from A.
pub struct TwoMergeIterator<A: StorageIterator, B: StorageIterator> {
    a: A,
    b: B,
    pick_a: bool,
}

/// Whether the first of two streams holds the entry to yield: it has one,
/// and the second has none or one with a later key.
pub open spec fn first_leads(a: Seq<Entry>, b: Seq<Entry>) -> bool {
    a.len() > 0 && (b.len() == 0 || key_lt(a[0].0, b[0].0))
}

/// Both streams have an entry and the two start with the same key.
pub open spec fn heads_collide(a: Seq<Entry>, b: Seq<Entry>) -> bool {
    a.len() > 0 && b.len() > 0 && a[0].0 == b[0].0
}

impl<A: StorageIterator, B: StorageIterator> TwoMergeIterator<A, B> {
    /// Both sides are in good order and ascending.
    spec fn sides_ok(&self) -> bool {
        &&& self.a.inv()
        &&& self.b.inv()
        &&& strictly_ascending(self.a.remaining())
        &&& strictly_ascending(self.b.remaining())
    }

    /// Merges `a` and `b`, with `a` preferred where both hold a key. Fails
    /// only if the heads collide and `b` fails to move past its head.
    pub fn create(a: A, b: B) -> (result: Result<Self, LsmError>)
        requires
            a.inv(),
            b.inv(),
            strictly_ascending(a.remaining()),
            strictly_ascending(b.remaining()),
        ensures
            !heads_collide(a.remaining(), b.remaining()) ==> result is Ok,
            result matches Ok(iter) ==> iter.inv() && iter.remaining() == merge(
                two_sources(a.remaining(), b.remaining()),
            ),
    {
        let ghost a0 = a.remaining();
        let ghost b0 = b.remaining();
        let mut iterator = TwoMergeIterator { a, b, pick_a: true };
        iterator.skip_b()?;
        iterator.pick_a = Self::should_choose_a(&iterator.a, &iterator.b);
        proof {
            if heads_collide(a0, b0) {
                lemma_two_skip_second(a0, b0);
            }
        }
        Ok(iterator)
    }

    /// Moves `b` past its head if both sides start with the same key.
    fn skip_b(&mut self) -> (result: Result<(), LsmError>)
        requires
            old(self).sides_ok(),
        ensures
            !heads_collide(old(self).a.remaining(), old(self).b.remaining()) ==> result is Ok,
            result is Ok ==> {
                &&& final(self).sides_ok()
                &&& final(self).a == old(self).a
                &&& final(self).pick_a == old(self).pick_a
                &&& final(self).b.remaining() == if heads_collide(
                    old(self).a.remaining(),
                    old(self).b.remaining(),
                ) {
                    old(self).b.remaining().skip(1)
                } else {
                    old(self).b.remaining()
                }
                &&& !heads_collide(final(self).a.remaining(), final(self).b.remaining())
            },
    {
        let should_skip_b = self.a.is_valid() && self.b.is_valid() && self.a.key().compare(
            self.b.key(),
        ) == KeyOrder::Equal;
        proof {
            if self.a.remaining().len() > 0 {
                lemma_key_lt_irreflexive(self.a.remaining()[0].0);
            }
        }
        if should_skip_b {
            proof {
                let b0 = self.b.remaining();
                lemma_advance_ascending(b0);
                lemma_key_lt_irreflexive(b0[0].0);
                if b0.len() > 1 {
                    assert(b0.skip(1)[0] == b0[1]);
                    assert(key_lt(b0[0].0, b0[1].0));
                }
            }
            self.b.next()?
        }
        Ok(())
    }

    /// Settles the merge once the picked side was asked to move on. If it
    /// failed, its error is handed on and nothing else is done. If it moved
    /// on, `b` is moved past a key that `a` now holds too, and the side to
    /// yield from is picked anew.
    fn settle(&mut self, outcome: Result<(), LsmError>) -> (result: Result<(), LsmError>)
        requires
            outcome is Ok ==> old(self).sides_ok(),
        ensures
            outcome matches Err(e) ==> result == Err::<(), LsmError>(e) && *final(self) == *old(
                self,
            ),
            outcome is Ok && !heads_collide(old(self).a.remaining(), old(self).b.remaining())
                ==> result is Ok,
            outcome is Ok && result is Ok ==> final(self).inv() && final(self).remaining() == merge(
                two_sources(old(self).a.remaining(), old(self).b.remaining()),
            ),
    {
        match outcome {
            Err(e) => {
                return Err(e);
            },
            Ok(()) => {},
        }
        let ghost a1 = self.a.remaining();
        let ghost b1 = self.b.remaining();
        self.skip_b()?;
        self.pick_a = Self::should_choose_a(&self.a, &self.b);
        proof {
            if heads_collide(a1, b1) {
                lemma_two_skip_second(a1, b1);
            }
        }
        Ok(())
    }

    /// What is still to come ascends: no key comes twice, and none comes
    /// before one that was yielded.
    pub proof fn lemma_remaining_ascending(&self)
        requires
            self.inv(),
        ensures
            strictly_ascending(self.remaining()),
    {
        lemma_two_merge_is_sorted_union(self.a.remaining(), self.b.remaining());
    }

    /// Whether `a` holds the entry to yield.
    fn should_choose_a(a: &A, b: &B) -> (choose_a: bool)
        requires
            a.inv(),
            b.inv(),
        ensures
            choose_a == first_leads(a.remaining(), b.remaining()),
    {
        if !a.is_valid() {
            return false;
        }
        if !b.is_valid() {
            return true;
        }
        a.key().compare(b.key()) == KeyOrder::Less
    }
}

impl<A: StorageIterator, B: StorageIterator> StorageIterator for TwoMergeIterator<A, B> {
    closed spec fn inv(&self) -> bool {
        &&& self.sides_ok()
        &&& !heads_collide(self.a.remaining(), self.b.remaining())
        &&& self.pick_a == first_leads(self.a.remaining(), self.b.remaining())
    }

    closed spec fn remaining(&self) -> Seq<Entry> {
        merge(two_sources(self.a.remaining(), self.b.remaining()))
    }

    fn key(&self) -> (key: KeySlice<'_>) {
        proof {
            self.lemma_current();
        }
        if self.pick_a {
            self.a.key()
        } else {
            self.b.key()
        }
    }

    fn value(&self) -> (value: &[u8]) {
        proof {
            self.lemma_current();
        }
        if self.pick_a {
            self.a.value()
        } else {
            self.b.value()
        }
    }

    fn is_valid(&self) -> (valid: bool) {
        proof {
            self.lemma_current();
        }
        if self.pick_a {
            self.a.is_valid()
        } else {
            self.b.is_valid()
        }
    }

    fn next(&mut self) -> (result: Result<(), LsmError>) {
        let ghost a0 = self.a.remaining();
        let ghost b0 = self.b.remaining();
        proof {
            self.lemma_current();
            lemma_advance_ascending(a0);
            lemma_advance_ascending(b0);
        }
        let outcome = if self.pick_a {
            self.a.next()
        } else {
            self.b.next()
        };
        self.settle(outcome)
    }
}

impl<A: StorageIterator, B: StorageIterator> TwoMergeIterator<A, B> {
    /// The picked side holds the head of the merge; with both sides
    /// exhausted the merge is empty.
    proof fn lemma_current(&self)
        requires
            self.inv(),
        ensures
            self.pick_a ==> self.a.remaining().len() > 0 && self.remaining().len() > 0
                && self.remaining()[0] == self.a.remaining()[0] && self.remaining().skip(1)
                == merge(two_sources(self.a.remaining().skip(1), self.b.remaining())),
            !self.pick_a && self.b.remaining().len() > 0 ==> self.remaining().len() > 0
                && self.remaining()[0] == self.b.remaining()[0] && self.remaining().skip(1)
                == merge(two_sources(self.a.remaining(), self.b.remaining().skip(1))),
            !self.pick_a && self.b.remaining().len() == 0 ==> self.remaining().len() == 0
                && self.a.remaining().len() == 0,
    {
        let a = self.a.remaining();
        let b = self.b.remaining();
        if self.pick_a || b.len() > 0 {
            lemma_two_advance(a, b, self.pick_a);
        } else {
            lemma_two_exhausted(a, b);
        }
    }
}

} // verus!
