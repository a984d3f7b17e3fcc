//! The surface iterators: tombstone suppression and upper-bound
//! enforcement, and the error- and exhaustion-sticky fuse.

use vstd::prelude::*;

use crate::bounds::{upper_bound_admits, KeyBound};
use crate::byte_order::{key_lt, lemma_cmp_basics, lemma_key_le_trans};
use crate::entries::{entries_sorted, has_pair, lemma_sorted_skip, EntryV};
use crate::errors::LsmError;
use crate::iterators::merge_iterator::MergeIterator;
use crate::iterators::two_merge_iterator::TwoMergeIterator;
use crate::iterators::StorageIterator;
use crate::mem_table::MemTableIterator;
use crate::table::SsTableIterator;

verus! {

/// The iterator stack under the surface: memory tables win over runs.
pub type LsmIteratorInner = TwoMergeIterator<
    MergeIterator<MemTableIterator>,
    MergeIterator<SsTableIterator>,
>;

/// The live entries of a stream: those within the upper bound whose value
/// is non-empty, in order.
pub open spec fn live_entries(es: Seq<EntryV>, ub: KeyBound) -> Seq<EntryV>
    decreases es.len(),
{
    if es.len() == 0 {
        Seq::empty()
    } else if ub.admits_from_above(es[0].0) && es[0].1.len() > 0 {
        seq![es[0]] + live_entries(es.skip(1), ub)
    } else {
        live_entries(es.skip(1), ub)
    }
}

/// Once a sorted stream's head key passes the upper bound, nothing of it
/// is live.
pub proof fn lemma_live_empty(es: Seq<EntryV>, ub: KeyBound)
    requires
        entries_sorted(es),
        es.len() > 0,
        !ub.admits_from_above(es[0].0),
    ensures
        live_entries(es, ub).len() == 0,
    decreases es.len(),
{
    if es.skip(1).len() > 0 {
        lemma_sorted_skip(es, 1);
        assert(es.skip(1)[0] == es[1]);
        assert(key_lt(es[0].0, es[1].0));
        assert(!ub.admits_from_above(es[1].0)) by {
            match ub {
                KeyBound::Included(b) => {
                    lemma_cmp_basics(es[0].0, b@);
                    lemma_cmp_basics(b@, es[0].0);
                    if ub.admits_from_above(es[1].0) {
                        lemma_key_le_trans(es[0].0, es[1].0, b@);
                    }
                },
                KeyBound::Excluded(b) => {
                    lemma_cmp_basics(es[0].0, b@);
                    lemma_cmp_basics(b@, es[0].0);
                    if ub.admits_from_above(es[1].0) {
                        lemma_key_le_trans(es[0].0, es[1].0, b@);
                    }
                },
                KeyBound::Unbounded => {},
            }
        }
        lemma_live_empty(es.skip(1), ub);
    } else {
        assert(live_entries(es.skip(1), ub) =~= Seq::<EntryV>::empty());
    }
}

/// What the live filter emits on a sorted stream: a sorted subsequence of
/// in-bound, non-tombstone pairs, complete for every such pair.
pub proof fn lemma_live_props(es: Seq<EntryV>, ub: KeyBound)
    requires
        entries_sorted(es),
    ensures
        entries_sorted(live_entries(es, ub)),
        forall|j: int|
            0 <= j < live_entries(es, ub).len() ==> has_pair(es, #[trigger] live_entries(es, ub)[j])
                && live_entries(es, ub)[j].1.len() > 0 && ub.admits_from_above(
                live_entries(es, ub)[j].0,
            ),
        forall|i: int|
            0 <= i < es.len() && ub.admits_from_above((#[trigger] es[i]).0) && es[i].1.len() > 0
                ==> has_pair(live_entries(es, ub), es[i]),
    decreases es.len(),
{
    let lv = live_entries(es, ub);
    if es.len() == 0 {
    } else {
        lemma_sorted_skip(es, 1);
        lemma_live_props(es.skip(1), ub);
        let sub = live_entries(es.skip(1), ub);
        // membership and liveness of every emitted pair
        assert forall|j: int| 0 <= j < lv.len() implies has_pair(es, #[trigger] lv[j])
            && lv[j].1.len() > 0 && ub.admits_from_above(lv[j].0) by {
            if ub.admits_from_above(es[0].0) && es[0].1.len() > 0 {
                if j == 0 {
                    assert(lv[0] == es[0]);
                } else {
                    assert(lv[j] == sub[j - 1]);
                    let w = choose|w: int| 0 <= w < es.skip(1).len() && #[trigger] es.skip(1)[w]
                        == sub[j - 1];
                    assert(es[w + 1] == es.skip(1)[w]);
                }
            } else {
                assert(lv[j] == sub[j]);
                let w = choose|w: int| 0 <= w < es.skip(1).len() && #[trigger] es.skip(1)[w]
                    == sub[j];
                assert(es[w + 1] == es.skip(1)[w]);
            }
        }
        // sortedness: every element of the sub-filter sits above the head
        if ub.admits_from_above(es[0].0) && es[0].1.len() > 0 {
            assert forall|j: int| 0 <= j < sub.len() implies key_lt(es[0].0, (#[trigger] sub[j]).0)
                by {
                let w = choose|w: int| 0 <= w < es.skip(1).len() && #[trigger] es.skip(1)[w]
                    == sub[j];
                assert(es.skip(1)[w] == es[w + 1]);
                assert(key_lt(es[0].0, es[w + 1].0));
            }
            crate::entries::lemma_sorted_cons(es[0], sub);
        }
        // completeness
        assert forall|i: int|
            0 <= i < es.len() && ub.admits_from_above((#[trigger] es[i]).0) && es[i].1.len()
                > 0 implies has_pair(lv, es[i]) by {
            if i == 0 {
                assert(lv[0] == es[0]);
            } else {
                assert(es.skip(1)[i - 1] == es[i]);
                assert(has_pair(sub, es[i]));
                let w = choose|w: int| 0 <= w < sub.len() && #[trigger] sub[w] == es[i];
                if ub.admits_from_above(es[0].0) && es[0].1.len() > 0 {
                    assert(lv[w + 1] == sub[w]);
                } else {
                    assert(lv[w] == sub[w]);
                }
            }
        }
    }
}

/// A sorted stream of in-bound, non-tombstone entries passes the live
/// filter unchanged.
pub proof fn lemma_live_identity(es: Seq<EntryV>, ub: KeyBound)
    requires
        entries_sorted(es),
        forall|i: int|
            0 <= i < es.len() ==> ub.admits_from_above((#[trigger] es[i]).0) && es[i].1.len() > 0,
    ensures
        live_entries(es, ub) == es,
    decreases es.len(),
{
    if es.len() > 0 {
        lemma_sorted_skip(es, 1);
        assert forall|i: int| 0 <= i < es.skip(1).len() implies ub.admits_from_above(
            (#[trigger] es.skip(1)[i]).0,
        ) && es.skip(1)[i].1.len() > 0 by {
            assert(es.skip(1)[i] == es[i + 1]);
        }
        lemma_live_identity(es.skip(1), ub);
        assert(live_entries(es, ub) =~= es);
    }
}

/// The round-trip law of a freshly flushed store: a scan over one sorted
/// run of non-tombstone entries, with an empty mem-table above it and no
/// bounds, emits exactly the run's entries.
pub proof fn lemma_scan_of_single_run(es: Seq<EntryV>)
    requires
        entries_sorted(es),
        forall|i: int| 0 <= i < es.len() ==> (#[trigger] es[i]).1.len() > 0,
    ensures
        live_entries(
            crate::iterators::two_merge_iterator::merged2(
                crate::iterators::merge_iterator::merged(seq![Seq::<EntryV>::empty()]),
                crate::iterators::merge_iterator::merged(seq![es]),
            ),
            KeyBound::Unbounded,
        ) == es,
{
    crate::iterators::merge_iterator::lemma_merged_singleton(Seq::<EntryV>::empty());
    crate::iterators::merge_iterator::lemma_merged_singleton(es);
    crate::iterators::two_merge_iterator::lemma_merged2_one_sided(es);
    lemma_live_identity(es, KeyBound::Unbounded);
}

/// The surface iterator: skips tombstones and stops at the upper bound.
pub struct LsmIterator {
    /// The merged view of all layers.
    pub inner: LsmIteratorInner,
    /// The scan's upper bound.
    pub end_bound: KeyBound,
}

impl LsmIterator {
    /// Construct over a merged stack and normalize to the first live
    /// entry.
    pub fn new(iter: LsmIteratorInner, end_bound: KeyBound) -> (r: Result<Self, LsmError>)
        requires
            iter.inv(),
        ensures
            r matches Ok(it) ==> it.inv() && it.entries() == live_entries(
                iter.entries(),
                end_bound,
            ) && it.infallible() == iter.infallible(),
            iter.infallible() ==> r is Ok,
    {
        let mut lsm_iter = LsmIterator { inner: iter, end_bound };
        match lsm_iter.move_to_live() {
            Ok(_) => Ok(lsm_iter),
            Err(e) => Err(e),
        }
    }

    /// Advance the inner iterator past in-bound tombstones.
    fn move_to_live(&mut self) -> (r: Result<(), LsmError>)
        requires
            old(self).inner.inv(),
        ensures
            final(self).inv(),
            final(self).end_bound == old(self).end_bound,
            r is Ok ==> final(self).entries() == live_entries(
                old(self).inner.entries(),
                old(self).end_bound,
            ),
            r is Err ==> final(self).entries().len() == 0,
            final(self).inner.infallible() == old(self).inner.infallible(),
            old(self).inner.infallible() ==> r is Ok,
    {
        let ghost target = live_entries(self.inner.entries(), self.end_bound);
        loop
            invariant
                self.inner.inv(),
                self.end_bound == old(self).end_bound,
                self.inner.infallible() == old(self).inner.infallible(),
                live_entries(self.inner.entries(), self.end_bound) == target,
            ensures
                self.inner.inv(),
                self.end_bound == old(self).end_bound,
                live_entries(self.inner.entries(), self.end_bound) == target,
                self.inner.infallible() == old(self).inner.infallible(),
                self.inner.entries().len() > 0 ==> (self.end_bound.admits_from_above(
                    self.inner.entries()[0].0,
                ) ==> self.inner.entries()[0].1.len() > 0),
            decreases self.inner.entries().len(),
        {
            if !self.inner.is_valid() {
                break ;
            }
            let in_bound = upper_bound_admits(&self.end_bound, self.inner.key().as_slice());
            if !in_bound {
                break ;
            }
            if self.inner.value().len() > 0 {
                break ;
            }
            let ghost pre = self.inner.entries();
            match self.inner.next() {
                Ok(_) => {},
                Err(e) => {
                    proof {
                        lemma_live_of_empty(self.inner.entries(), self.end_bound);
                    }
                    return Err(e);
                },
            }
            proof {
                assert(live_entries(pre, self.end_bound) == live_entries(
                    pre.skip(1),
                    self.end_bound,
                ));
            }
        }
        Ok(())
    }
}

/// The live filter of an empty stream is empty.
proof fn lemma_live_of_empty(es: Seq<EntryV>, ub: KeyBound)
    requires
        es.len() == 0,
    ensures
        live_entries(es, ub).len() == 0,
{
}

impl StorageIterator for LsmIterator {
    open spec fn inv(&self) -> bool {
        &&& self.inner.inv()
        &&& (self.inner.entries().len() > 0 ==> (self.end_bound.admits_from_above(
            self.inner.entries()[0].0,
        ) ==> self.inner.entries()[0].1.len() > 0))
    }

    open spec fn entries(&self) -> Seq<EntryV> {
        live_entries(self.inner.entries(), self.end_bound)
    }

    open spec fn infallible(&self) -> bool {
        self.inner.infallible()
    }

    proof fn lemma_entries_sorted(&self) {
        self.inner.lemma_entries_sorted();
        lemma_live_props(self.inner.entries(), self.end_bound);
    }

    fn is_valid(&self) -> (r: bool) {
        proof {
            self.inner.lemma_entries_sorted();
            if self.inner.entries().len() > 0 && !self.end_bound.admits_from_above(
                self.inner.entries()[0].0,
            ) {
                lemma_live_empty(self.inner.entries(), self.end_bound);
            }
        }
        if !self.inner.is_valid() {
            false
        } else {
            upper_bound_admits(&self.end_bound, self.inner.key().as_slice())
        }
    }

    fn key(&self) -> (k: &Vec<u8>) {
        proof {
            self.inner.lemma_entries_sorted();
            if !self.end_bound.admits_from_above(self.inner.entries()[0].0) {
                lemma_live_empty(self.inner.entries(), self.end_bound);
            }
            assert(self.entries()[0] == self.inner.entries()[0]);
        }
        self.inner.key()
    }

    fn value(&self) -> (v: &Vec<u8>) {
        proof {
            self.inner.lemma_entries_sorted();
            if !self.end_bound.admits_from_above(self.inner.entries()[0].0) {
                lemma_live_empty(self.inner.entries(), self.end_bound);
            }
            assert(self.entries()[0] == self.inner.entries()[0]);
        }
        self.inner.value()
    }

    fn next(&mut self) -> (r: Result<(), LsmError>) {
        proof {
            self.inner.lemma_entries_sorted();
            if !self.end_bound.admits_from_above(self.inner.entries()[0].0) {
                lemma_live_empty(self.inner.entries(), self.end_bound);
            }
        }
        let ghost pre = self.inner.entries();
        match self.inner.next() {
            Ok(_) => {},
            Err(e) => {
                proof {
                    lemma_live_of_empty(self.inner.entries(), self.end_bound);
                }
                return Err(e);
            },
        }
        proof {
            assert(live_entries(pre, self.end_bound) == seq![pre[0]] + live_entries(
                pre.skip(1),
                self.end_bound,
            ));
        }
        let res = self.move_to_live();
        proof {
            assert((seq![pre[0]] + live_entries(pre.skip(1), self.end_bound)).skip(1)
                =~= live_entries(pre.skip(1), self.end_bound));
        }
        res
    }
}

/// A wrapper that prevents `next` on an invalid iterator: once the inner
/// iterator errors, `is_valid` stays false and `next` keeps failing; once
/// it is exhausted, `next` is a no-op.
pub struct FusedIterator<I: StorageIterator> {
    /// The wrapped iterator.
    pub iter: I,
    /// Latched when an inner `next` failed.
    pub has_errored: bool,
}

impl<I: StorageIterator> FusedIterator<I> {
    /// Well-formedness of the wrapped iterator.
    pub open spec fn inv(&self) -> bool {
        self.iter.inv()
    }

    /// The entries still to come; none after an error.
    pub open spec fn entries(&self) -> Seq<EntryV> {
        if self.has_errored {
            Seq::empty()
        } else {
            self.iter.entries()
        }
    }

    /// The wrapped iterator can never fail.
    pub open spec fn infallible(&self) -> bool {
        self.iter.infallible()
    }

    /// Wrap an iterator.
    pub fn new(iter: I) -> (r: Self)
        requires
            iter.inv(),
        ensures
            r.inv(),
            !r.has_errored,
            r.entries() == iter.entries(),
            r.infallible() == iter.infallible(),
    {
        FusedIterator { iter, has_errored: false }
    }

    /// True while an entry is available and no error has occurred.
    pub fn is_valid(&self) -> (r: bool)
        requires
            self.inv(),
        ensures
            r == (self.entries().len() > 0),
            self.has_errored ==> !r,
    {
        if self.has_errored {
            false
        } else {
            self.iter.is_valid()
        }
    }

    /// The key of the current entry.
    pub fn key(&self) -> (k: &Vec<u8>)
        requires
            self.inv(),
            self.entries().len() > 0,
        ensures
            k@ == self.entries()[0].0,
    {
        self.iter.key()
    }

    /// The value of the current entry.
    pub fn value(&self) -> (v: &Vec<u8>)
        requires
            self.inv(),
            self.entries().len() > 0,
        ensures
            v@ == self.entries()[0].1,
    {
        self.iter.value()
    }

    /// Advance: fails forever after one failure, and does nothing once the
    /// wrapped iterator is exhausted.
    pub fn next(&mut self) -> (r: Result<(), LsmError>)
        requires
            old(self).inv(),
        ensures
            final(self).inv(),
            old(self).has_errored ==> r == Err::<(), LsmError>(LsmError::IteratorTainted)
                && *final(self) == *old(self),
            !old(self).has_errored && old(self).entries().len() == 0 ==> r is Ok && *final(self)
                == *old(self),
            !old(self).has_errored && old(self).entries().len() > 0 ==> {
                &&& (r is Ok ==> final(self).entries() == old(self).entries().skip(1)
                    && !final(self).has_errored)
                &&& (r is Err ==> final(self).has_errored && final(self).entries().len() == 0)
            },
            final(self).has_errored ==> final(self).entries().len() == 0,
            final(self).infallible() == old(self).infallible(),
            !old(self).has_errored && old(self).infallible() ==> r is Ok,
    {
        if self.has_errored {
            return Err(LsmError::IteratorTainted);
        }
        if self.iter.is_valid() {
            if let Err(e) = self.iter.next() {
                self.has_errored = true;
                return Err(e);
            }
        }
        Ok(())
    }
}

} // verus!
