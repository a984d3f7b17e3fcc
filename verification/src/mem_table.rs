//! The in-memory write buffer: a sorted map with range iteration.
//!
//! The map itself is a `crossbeam_skiplist::SkipMap`; its contents are
//! named by the uninterpreted `skipmap_view`, and each method the engine
//! relies on is wrapped with a contract over that name. Everything above
//! the wrappers is verified.

use vstd::prelude::*;

use crate::bounds::KeyBound;
use crate::byte_order::key_lt;
use crate::entries::{contains_key, entries_sorted, lemma_sorted_skip, pairs_view, EntryV};
use crate::errors::LsmError;
use crate::iterators::StorageIterator;

verus! {

/// Declares `crossbeam_skiplist::SkipMap` to the verifier; values of it
/// are opaque and spoken about only through `skipmap_view`.
#[verifier::external_type_specification]
#[verifier::external_body]
#[verifier::reject_recursive_types(K)]
#[verifier::reject_recursive_types(V)]
pub struct ExSkipMap<K, V>(crossbeam_skiplist::SkipMap<K, V>);

/// The skip map of byte-string keys and values used by the mem-table.
pub type ByteMap = crossbeam_skiplist::SkipMap<Vec<u8>, Vec<u8>>;

/// The bindings a skip map holds, as a map of byte strings.
pub uninterp spec fn skipmap_view(m: ByteMap) -> Map<Seq<u8>, Seq<u8>>;

/// The empty byte-string map.
pub open spec fn empty_contents() -> Map<Seq<u8>, Seq<u8>> {
    Map::empty()
}

/// Relies on `crossbeam_skiplist::SkipMap::new`: the new map is empty.
#[verifier::external_body]
fn skipmap_new() -> (r: ByteMap)
    ensures
        skipmap_view(r) == empty_contents(),
{
    crossbeam_skiplist::SkipMap::new()
}

/// Relies on `crossbeam_skiplist::SkipMap::insert`: an existing entry
/// under the same key is removed before the new one is inserted.
#[verifier::external_body]
fn skipmap_insert(m: &mut ByteMap, key: Vec<u8>, value: Vec<u8>)
    ensures
        skipmap_view(*final(m)) == skipmap_view(*old(m)).insert(key@, value@),
{
    m.insert(key, value);
}

/// Relies on `crossbeam_skiplist::SkipMap::get`: the value stored under
/// the key, if any.
#[verifier::external_body]
fn skipmap_get(m: &ByteMap, key: &[u8]) -> (r: Option<Vec<u8>>)
    ensures
        r matches Some(v) ==> skipmap_view(*m).contains_key(key@) && v@ == skipmap_view(*m)[key@],
        r is None ==> !skipmap_view(*m).contains_key(key@),
{
    m.get(key).map(|e| e.value().clone())
}

/// Relies on `crossbeam_skiplist::SkipMap::is_empty`.
#[verifier::external_body]
fn skipmap_is_empty(m: &ByteMap) -> (r: bool)
    ensures
        r == (skipmap_view(*m) == empty_contents()),
{
    m.is_empty()
}

/// Relies on `crossbeam_skiplist::SkipMap::range`: the visited entries are
/// exactly the bindings inside the bounds, in ascending key order, while
/// no writer runs concurrently.
#[verifier::external_body]
fn skipmap_scan(m: &ByteMap, lower: &KeyBound, upper: &KeyBound) -> (r: Vec<(Vec<u8>, Vec<u8>)>)
    ensures
        forall|i: int, j: int|
            0 <= i < j < r@.len() ==> key_lt((#[trigger] r@[i]).0@, (#[trigger] r@[j]).0@),
        forall|i: int|
            0 <= i < r@.len() ==> {
                &&& lower.admits_from_below((#[trigger] r@[i]).0@)
                &&& upper.admits_from_above(r@[i].0@)
                &&& skipmap_view(*m).contains_key(r@[i].0@)
                &&& r@[i].1@ == skipmap_view(*m)[r@[i].0@]
            },
        forall|k: Seq<u8>|
            #[trigger] skipmap_view(*m).contains_key(k) && lower.admits_from_below(k)
                && upper.admits_from_above(k) ==> exists|i: int|
                0 <= i < r@.len() && (#[trigger] r@[i]).0@ == k,
{
    let lo = match lower {
        KeyBound::Included(v) => core::ops::Bound::Included(v.clone()),
        KeyBound::Excluded(v) => core::ops::Bound::Excluded(v.clone()),
        KeyBound::Unbounded => core::ops::Bound::Unbounded,
    };
    let hi = match upper {
        KeyBound::Included(v) => core::ops::Bound::Included(v.clone()),
        KeyBound::Excluded(v) => core::ops::Bound::Excluded(v.clone()),
        KeyBound::Unbounded => core::ops::Bound::Unbounded,
    };
    m.range((lo, hi)).map(|e| (e.key().clone(), e.value().clone())).collect()
}

/// The size accumulator after one insert: it grows by the key and value
/// lengths, saturating at the machine limit.
pub open spec fn grown_size(old_size: usize, klen: nat, vlen: nat) -> int {
    if old_size + klen + vlen <= usize::MAX {
        old_size + klen + vlen
    } else {
        usize::MAX as int
    }
}

/// The sequence `es` is a faithful, sorted snapshot of the bindings of
/// `m` that fall inside the bounds.
pub open spec fn is_range_snapshot(
    es: Seq<EntryV>,
    m: Map<Seq<u8>, Seq<u8>>,
    lower: KeyBound,
    upper: KeyBound,
) -> bool {
    &&& entries_sorted(es)
    &&& forall|i: int|
        0 <= i < es.len() ==> {
            &&& lower.admits_from_below((#[trigger] es[i]).0)
            &&& upper.admits_from_above(es[i].0)
            &&& m.contains_key(es[i].0)
            &&& es[i].1 == m[es[i].0]
        }
    &&& forall|k: Seq<u8>|
        #[trigger] m.contains_key(k) && lower.admits_from_below(k) && upper.admits_from_above(k)
            ==> contains_key(es, k)
}

/// A basic mem-table based on a concurrent skip list.
pub struct MemTable {
    /// The sorted map of buffered writes.
    pub map: ByteMap,
    /// Identifier, also used to name the sorted run it flushes into.
    pub id: usize,
    /// Bytes inserted so far; grows on every put, used only as a freeze
    /// heuristic.
    pub approximate_size: usize,
}

impl MemTable {
    /// The bindings this table holds.
    pub open spec fn contents(&self) -> Map<Seq<u8>, Seq<u8>> {
        skipmap_view(self.map)
    }

    /// Every stored key is non-empty and key and value fit the 16-bit
    /// length fields of the block format.
    pub open spec fn wf(&self) -> bool {
        forall|k: Seq<u8>| #[trigger] self.contents().contains_key(k) ==> 0 < k.len() <= 0xFFFF
            && self.contents()[k].len() <= 0xFFFF
    }

    /// Create a new mem-table.
    pub fn create(id: usize) -> (r: Self)
        ensures
            r.wf(),
            r.contents() == Map::<Seq<u8>, Seq<u8>>::empty(),
            r.id == id,
            r.approximate_size == 1,
    {
        MemTable { map: skipmap_new(), id, approximate_size: 1 }
    }

    /// Get a value by key.
    pub fn get(&self, key: &[u8]) -> (r: Option<Vec<u8>>)
        ensures
            r matches Some(v) ==> self.contents().contains_key(key@) && v@
                == self.contents()[key@],
            r is None ==> !self.contents().contains_key(key@),
    {
        skipmap_get(&self.map, key)
    }

    /// Put a key-value pair into the mem-table, replacing any older value.
    pub fn put(&mut self, key: &[u8], value: &[u8]) -> (r: Result<(), LsmError>)
        requires
            old(self).wf(),
            0 < key@.len() <= 0xFFFF,
            value@.len() <= 0xFFFF,
        ensures
            final(self).wf(),
            r is Ok,
            final(self).contents() == old(self).contents().insert(key@, value@),
            final(self).id == old(self).id,
            final(self).approximate_size as int == grown_size(
                old(self).approximate_size,
                key@.len(),
                value@.len(),
            ),
    {
        let k = crate::block::copy_bytes(key);
        let v = crate::block::copy_bytes(value);
        skipmap_insert(&mut self.map, k, v);
        let add = key.len() + value.len();
        if self.approximate_size <= usize::MAX - add {
            self.approximate_size = self.approximate_size + add;
        } else {
            self.approximate_size = usize::MAX;
        }
        proof {
            assert forall|k: Seq<u8>| #[trigger] self.contents().contains_key(k) implies 0
                < k.len() <= 0xFFFF && self.contents()[k].len() <= 0xFFFF by {
                if k != key@ {
                    assert(old(self).contents().contains_key(k));
                }
            }
        }
        Ok(())
    }

    /// Test hook for `put`.
    pub fn for_testing_put_slice(&mut self, key: &[u8], value: &[u8]) -> (r: Result<(), LsmError>)
        requires
            old(self).wf(),
            0 < key@.len() <= 0xFFFF,
            value@.len() <= 0xFFFF,
        ensures
            final(self).wf(),
            r is Ok,
            final(self).contents() == old(self).contents().insert(key@, value@),
            final(self).id == old(self).id,
    {
        self.put(key, value)
    }

    /// Test hook for `get`.
    pub fn for_testing_get_slice(&self, key: &[u8]) -> (r: Option<Vec<u8>>)
        ensures
            r matches Some(v) ==> self.contents().contains_key(key@) && v@
                == self.contents()[key@],
            r is None ==> !self.contents().contains_key(key@),
    {
        self.get(key)
    }

    /// Test hook for `scan`.
    pub fn for_testing_scan_slice(&self, lower: &KeyBound, upper: &KeyBound) -> (r:
        MemTableIterator)
        requires
            self.wf(),
        ensures
            r.inv(),
            is_range_snapshot(r.entries(), self.contents(), *lower, *upper),
    {
        self.scan(lower, upper)
    }

    /// Get an iterator over a range of keys.
    pub fn scan(&self, lower: &KeyBound, upper: &KeyBound) -> (r: MemTableIterator)
        requires
            self.wf(),
        ensures
            r.inv(),
            is_range_snapshot(r.entries(), self.contents(), *lower, *upper),
    {
        let items = skipmap_scan(&self.map, lower, upper);
        let it = MemTableIterator { items, pos: 0 };
        proof {
            assert(it.entries() =~= pairs_view(it.items@));
            assert forall|i: int, j: int| 0 <= i < j < it.entries().len() implies key_lt(
                it.entries()[i].0,
                it.entries()[j].0,
            ) by {
                assert(it.entries()[i].0 == it.items@[i].0@);
                assert(it.entries()[j].0 == it.items@[j].0@);
            }
            assert forall|k: Seq<u8>|
                #[trigger] self.contents().contains_key(k) && lower.admits_from_below(k)
                    && upper.admits_from_above(k) implies contains_key(it.entries(), k) by {
                let i = choose|i: int| 0 <= i < items@.len() && (#[trigger] items@[i]).0@ == k;
                assert(it.entries()[i].0 == k);
            }
        }
        it
    }

    /// The table's identifier.
    pub fn id(&self) -> (r: usize)
        ensures
            r == self.id,
    {
        self.id
    }

    /// The byte-size heuristic used to decide freezes.
    pub fn approximate_size(&self) -> (r: usize)
        ensures
            r == self.approximate_size,
    {
        self.approximate_size
    }

    /// True when nothing has been buffered.
    pub fn is_empty(&self) -> (r: bool)
        ensures
            r == (self.contents() == Map::<Seq<u8>, Seq<u8>>::empty()),
    {
        skipmap_is_empty(&self.map)
    }
}

/// An iterator over a range snapshot of a mem-table: the pairs are
/// materialized at creation and walked by position.
pub struct MemTableIterator {
    /// The snapshot, in ascending key order.
    pub items: Vec<(Vec<u8>, Vec<u8>)>,
    /// The current position; the length when exhausted.
    pub pos: usize,
}

impl StorageIterator for MemTableIterator {
    open spec fn inv(&self) -> bool {
        &&& self.pos <= self.items@.len()
        &&& entries_sorted(pairs_view(self.items@))
    }

    open spec fn entries(&self) -> Seq<EntryV> {
        pairs_view(self.items@).skip(self.pos as int)
    }

    open spec fn infallible(&self) -> bool {
        true
    }

    proof fn lemma_entries_sorted(&self) {
        lemma_sorted_skip(pairs_view(self.items@), self.pos as int);
    }

    fn is_valid(&self) -> (r: bool) {
        self.pos < self.items.len()
    }

    fn key(&self) -> (k: &Vec<u8>) {
        proof {
            assert(self.entries()[0] == pairs_view(self.items@)[self.pos as int]);
        }
        &self.items[self.pos].0
    }

    fn value(&self) -> (v: &Vec<u8>) {
        proof {
            assert(self.entries()[0] == pairs_view(self.items@)[self.pos as int]);
        }
        &self.items[self.pos].1
    }

    fn next(&mut self) -> (r: Result<(), LsmError>) {
        let n = self.items.len();
        proof {
            assert(old(self).entries().len() == self.items@.len() - self.pos);
            assert(self.pos < n);
        }
        self.pos = self.pos + 1;
        proof {
            assert(self.entries() =~= old(self).entries().skip(1));
        }
        Ok(())
    }
}

} // verus!
