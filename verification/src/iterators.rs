//! The iterator interface shared by every layer of the engine.

pub mod merge_iterator;
pub mod two_merge_iterator;

use vstd::prelude::*;

use crate::entries::{entries_sorted, EntryV};
use crate::errors::LsmError;

verus! {

/// Interface of every engine iterator.
///
/// An iterator is modelled by `entries`: the key-sorted sequence of pairs
/// it has not yet emitted. `key` and `value` read the head, and a
/// successful `next` drops it. A failing `next` leaves the iterator
/// terminally empty.
pub trait StorageIterator: Sized {
    /// Well-formedness, carried through all operations.
    spec fn inv(&self) -> bool;

    /// The entries not yet consumed, in strictly ascending key order.
    spec fn entries(&self) -> Seq<EntryV>;

    /// Whether this iterator can never fail: its `next` is then owed
    /// success. True for every in-memory iterator of the library; a merge
    /// is infallible when all of its inputs are.
    spec fn infallible(&self) -> bool;

    /// Every implementation's remaining entries are sorted.
    proof fn lemma_entries_sorted(&self)
        requires
            self.inv(),
        ensures
            entries_sorted(self.entries()),
    ;

    /// True while an entry is available.
    fn is_valid(&self) -> (r: bool)
        requires
            self.inv(),
        ensures
            r == (self.entries().len() > 0),
    ;

    /// The key of the current entry.
    fn key(&self) -> (k: &Vec<u8>)
        requires
            self.inv(),
            self.entries().len() > 0,
        ensures
            k@ == self.entries()[0].0,
    ;

    /// The value of the current entry.
    fn value(&self) -> (v: &Vec<u8>)
        requires
            self.inv(),
            self.entries().len() > 0,
        ensures
            v@ == self.entries()[0].1,
    ;

    /// Advance past the current entry. An infallible iterator stays
    /// infallible and must succeed.
    fn next(&mut self) -> (r: Result<(), LsmError>)
        requires
            old(self).inv(),
            old(self).entries().len() > 0,
        ensures
            final(self).inv(),
            r is Ok ==> final(self).entries() == old(self).entries().skip(1),
            r is Err ==> final(self).entries().len() == 0,
            final(self).infallible() == old(self).infallible(),
            old(self).infallible() ==> r is Ok,
    ;
}

} // verus!
