//! The storage engine state machine: one active mem-table, frozen
//! mem-tables, and L0 sorted runs, with point lookups and range scans over
//! the merged view of all tiers.

use vstd::prelude::*;

use crate::bounds::KeyBound;
use crate::byte_order::key_le;
use crate::entries::{contains_key, entries_sorted, entry_value, EntryV};
use crate::errors::LsmError;
use crate::iterators::StorageIterator;
use crate::lsm_iterator::{FusedIterator, LsmIterator};
use crate::mem_table::{is_range_snapshot, MemTable};
use crate::table::{
    arc_clone_table, cache_clone, cache_new, BlockCache, SsTable, SsTableBuilder, SsTableIterator,
};

verus! {

broadcast use vstd::std_specs::hash::group_hash_axioms;

/// Compaction strategy selector; only the absence of compaction is
/// exercised at this tier.
#[derive(Clone, Debug)]
pub enum CompactionOptions {
    Leveled,
    Tiered,
    Simple,
    NoCompaction,
}

/// Engine configuration.
#[derive(Clone, Debug)]
pub struct LsmStorageOptions {
    /// Block size in bytes.
    pub block_size: usize,
    /// SST size in bytes, also the approximate mem-table capacity limit.
    pub target_sst_size: usize,
    /// Maximum number of mem-tables in memory.
    pub num_memtable_limit: usize,
    /// Compaction strategy.
    pub compaction_options: CompactionOptions,
    /// Whether a write-ahead log is kept; driven by the embedding program.
    pub enable_wal: bool,
    /// Whether serializable transactions are requested; unused here.
    pub serializable: bool,
}

impl LsmStorageOptions {
    /// The configuration the first week of tests runs under.
    pub fn default_for_week1_test() -> (r: Self)
        ensures
            r.block_size == 4096,
            r.target_sst_size == 2097152,
            r.num_memtable_limit == 50,
            r.compaction_options is NoCompaction,
            !r.enable_wal,
            !r.serializable,
    {
        LsmStorageOptions {
            block_size: 4096,
            target_sst_size: 2097152,
            compaction_options: CompactionOptions::NoCompaction,
            enable_wal: false,
            num_memtable_limit: 50,
            serializable: false,
        }
    }

    /// The configuration of the later first-week tests.
    pub fn default_for_week1_day6_test() -> (r: Self)
        ensures
            r.block_size == 4096,
            r.target_sst_size == 2097152,
            r.num_memtable_limit == 2,
            r.compaction_options is NoCompaction,
            !r.enable_wal,
            !r.serializable,
    {
        LsmStorageOptions {
            block_size: 4096,
            target_sst_size: 2097152,
            compaction_options: CompactionOptions::NoCompaction,
            enable_wal: false,
            num_memtable_limit: 2,
            serializable: false,
        }
    }

    /// The configuration of the second-week tests.
    pub fn default_for_week2_test(compaction_options: CompactionOptions) -> (r: Self)
        ensures
            r.block_size == 4096,
            r.target_sst_size == 1048576,
            r.num_memtable_limit == 2,
            r.compaction_options == compaction_options,
            !r.enable_wal,
            !r.serializable,
    {
        LsmStorageOptions {
            block_size: 4096,
            target_sst_size: 1048576,
            compaction_options,
            enable_wal: false,
            num_memtable_limit: 2,
            serializable: false,
        }
    }
}

/// One record of a write batch.
pub enum WriteBatchRecord {
    /// Insert or replace a binding.
    Put(Vec<u8>, Vec<u8>),
    /// Delete a binding.
    Del(Vec<u8>),
}

/// Represents the state of the storage engine.
pub struct LsmStorageState {
    /// The current mem-table.
    pub memtable: MemTable,
    /// Immutable mem-tables, from latest to earliest.
    pub imm_memtables: Vec<MemTable>,
    /// L0 run ids, from latest to earliest.
    pub l0_sstables: Vec<usize>,
    /// Runs of the lower levels; present but unused at this tier.
    pub levels: Vec<(usize, Vec<usize>)>,
    /// Run objects by id.
    pub sstables: std::collections::HashMap<usize, std::sync::Arc<SsTable>>,
}

/// The memory tiers, most recent first.
pub open spec fn mem_stack(s: LsmStorageState) -> Seq<MemTable> {
    seq![s.memtable] + s.imm_memtables@
}

/// Lookup through the memory tiers: the most recent binding wins.
pub open spec fn mems_lookup(ms: Seq<MemTable>, k: Seq<u8>) -> Option<Seq<u8>>
    decreases ms.len(),
{
    if ms.len() == 0 {
        Option::None
    } else if ms[0].contents().contains_key(k) {
        Option::Some(ms[0].contents()[k])
    } else {
        mems_lookup(ms.skip(1), k)
    }
}

/// Lookup through the L0 runs from position `i` on: newest first.
pub open spec fn runs_lookup(s: LsmStorageState, i: int, k: Seq<u8>) -> Option<Seq<u8>>
    decreases s.l0_sstables@.len() - i,
{
    if i < 0 || i >= s.l0_sstables@.len() {
        Option::None
    } else {
        let es = (*s.sstables@[s.l0_sstables@[i]]).entries();
        if contains_key(es, k) {
            Option::Some(entry_value(es, k))
        } else {
            runs_lookup(s, i + 1, k)
        }
    }
}

/// The binding the layered state holds for `k`: memory tiers first, then
/// the L0 runs, newest first. An empty value is a tombstone.
pub open spec fn lookup(s: LsmStorageState, k: Seq<u8>) -> Option<Seq<u8>> {
    match mems_lookup(mem_stack(s), k) {
        Option::Some(v) => Option::Some(v),
        Option::None => runs_lookup(s, 0, k),
    }
}

/// Well-formedness of the layered state.
pub open spec fn state_wf(s: LsmStorageState) -> bool {
    &&& s.memtable.wf()
    &&& forall|i: int|
        0 <= i < s.imm_memtables@.len() ==> (#[trigger] s.imm_memtables@[i]).wf()
            && s.imm_memtables@[i].contents() != crate::mem_table::empty_contents()
    &&& forall|i: int|
        0 <= i < s.l0_sstables@.len() ==> s.sstables@.contains_key(
            #[trigger] s.l0_sstables@[i],
        ) && (*s.sstables@[s.l0_sstables@[i]]).wf()
    &&& s.l0_sstables@.no_duplicates()
}

/// The id bookkeeping: all live ids are below the id counter and no id is
/// used by two tiers.
pub open spec fn ids_wf(s: LsmStorageState, next: usize) -> bool {
    &&& s.memtable.id < next
    &&& forall|i: int| 0 <= i < s.imm_memtables@.len() ==> (#[trigger] s.imm_memtables@[i]).id < next
    &&& forall|i: int| 0 <= i < s.l0_sstables@.len() ==> (#[trigger] s.l0_sstables@[i]) < next
    &&& forall|i: int|
        0 <= i < s.imm_memtables@.len() ==> s.memtable.id != (#[trigger] s.imm_memtables@[i]).id
    &&& forall|i: int| 0 <= i < s.l0_sstables@.len() ==> s.memtable.id != #[trigger] s.l0_sstables@[i]
    &&& forall|i: int, j: int|
        0 <= i < s.imm_memtables@.len() && 0 <= j < s.imm_memtables@.len() && i != j ==> (
        #[trigger] s.imm_memtables@[i]).id != (#[trigger] s.imm_memtables@[j]).id
    &&& forall|i: int, j: int|
        0 <= i < s.imm_memtables@.len() && 0 <= j < s.l0_sstables@.len() ==> (
        #[trigger] s.imm_memtables@[i]).id != (#[trigger] s.l0_sstables@[j])
}

/// The storage interface of the LSM tree, as a sequential state machine;
/// the embedding program provides the locking around it.
pub struct LsmStorageInner {
    /// The layered state.
    pub state: LsmStorageState,
    /// The next fresh mem-table / run id.
    pub next_sst_id: usize,
    /// Engine configuration.
    pub options: LsmStorageOptions,
    /// The shared block cache handed to every opened run.
    pub block_cache: Option<BlockCache>,
}

impl LsmStorageInner {
    /// Engine well-formedness.
    pub open spec fn wf(&self) -> bool {
        &&& state_wf(self.state)
        &&& ids_wf(self.state, self.next_sst_id)
    }

    /// Start a fresh engine with the given options.
    pub fn open(options: LsmStorageOptions) -> (r: Self)
        ensures
            r.wf(),
            forall|k: Seq<u8>| lookup(r.state, k) is None,
            r.options == options,
    {
        let levels: Vec<(usize, Vec<usize>)> = match options.compaction_options {
            CompactionOptions::NoCompaction => {
                let mut v: Vec<(usize, Vec<usize>)> = Vec::new();
                v.push((1, Vec::new()));
                v
            },
            _ => Vec::new(),
        };
        let state = LsmStorageState {
            memtable: MemTable::create(0),
            imm_memtables: Vec::new(),
            l0_sstables: Vec::new(),
            levels,
            sstables: std::collections::HashMap::new(),
        };
        let r = LsmStorageInner {
            state,
            next_sst_id: 1,
            options,
            block_cache: Option::Some(cache_new(1024)),
        };
        proof {
            assert forall|k: Seq<u8>| lookup(r.state, k) is None by {
                assert(mem_stack(r.state)[0] == r.state.memtable);
                assert(!r.state.memtable.contents().contains_key(k));
                assert(mem_stack(r.state).skip(1) =~= Seq::<MemTable>::empty());
                assert(mems_lookup(Seq::<MemTable>::empty(), k) is None);
                assert(mems_lookup(mem_stack(r.state), k) is None);
                assert(r.state.l0_sstables@.len() == 0);
                assert(runs_lookup(r.state, 0, k) is None);
            }
        }
        r
    }

    /// The id counter, incremented on use.
    fn take_next_sst_id(&mut self) -> (r: Result<usize, LsmError>)
        ensures
            final(self).state == old(self).state,
            final(self).options == old(self).options,
            final(self).block_cache == old(self).block_cache,
            r matches Ok(id) ==> id == old(self).next_sst_id && final(self).next_sst_id == old(
                self,
            ).next_sst_id + 1,
            r is Ok <==> old(self).next_sst_id < usize::MAX,
            r is Err ==> *final(self) == *old(self) && r == Err::<usize, LsmError>(
                LsmError::OutOfRange,
            ),
    {
        if self.next_sst_id == usize::MAX {
            return Err(LsmError::OutOfRange);
        }
        let id = self.next_sst_id;
        self.next_sst_id = self.next_sst_id + 1;
        Ok(id)
    }

    /// Get a key from the storage: the newest tier that holds the key
    /// decides, and an empty value means the key is deleted.
    pub fn get(&self, key: &[u8]) -> (r: Result<Option<Vec<u8>>, LsmError>)
        requires
            self.wf(),
        ensures
            r is Ok,
            r matches Ok(o) ==> match lookup(self.state, key@) {
                Option::Some(v) => if v.len() > 0 {
                    o matches Some(ov) && ov@ == v
                } else {
                    o is None
                },
                Option::None => o is None,
            },
    {
        let ghost stack = mem_stack(self.state);
        if let Option::Some(v) = self.state.memtable.get(key) {
            proof {
                assert(stack[0] == self.state.memtable);
            }
            if v.len() == 0 {
                return Ok(Option::None);
            }
            return Ok(Option::Some(v));
        }
        proof {
            assert(stack[0] == self.state.memtable);
            assert(stack.skip(1) =~= self.state.imm_memtables@);
            assert(self.state.imm_memtables@.skip(0) =~= self.state.imm_memtables@);
        }
        let n: usize = self.state.imm_memtables.len();
        let mut i: usize = 0;
        while i < n
            invariant
                self.wf(),
                n == self.state.imm_memtables@.len(),
                i <= n,
                mems_lookup(mem_stack(self.state), key@) == mems_lookup(
                    self.state.imm_memtables@.skip(i as int),
                    key@,
                ),
            decreases n - i,
        {
            let ghost tail = self.state.imm_memtables@.skip(i as int);
            proof {
                assert(tail[0] == self.state.imm_memtables@[i as int]);
                assert(tail.skip(1) =~= self.state.imm_memtables@.skip(i + 1));
            }
            if let Option::Some(v) = self.state.imm_memtables[i].get(key) {
                if v.len() == 0 {
                    return Ok(Option::None);
                }
                return Ok(Option::Some(v));
            }
            i = i + 1;
        }
        proof {
            assert(self.state.imm_memtables@.skip(n as int).len() == 0);
        }
        // the memory tiers miss: consult the L0 runs, newest first
        let rn: usize = self.state.l0_sstables.len();
        let mut j: usize = 0;
        while j < rn
            invariant
                self.wf(),
                rn == self.state.l0_sstables@.len(),
                j <= rn,
                mems_lookup(mem_stack(self.state), key@) is None,
                runs_lookup(self.state, 0, key@) == runs_lookup(self.state, j as int, key@),
            decreases rn - j,
        {
            let id: usize = self.state.l0_sstables[j];
            let arc = match self.state.sstables.get(&id) {
                Option::Some(a) => a,
                Option::None => {
                    proof {
                        assert(self.state.sstables@.contains_key(id));
                    }
                    return Err(LsmError::OutOfRange);
                },
            };
            proof {
                assert(*arc == self.state.sstables@[id]);
            }
            let ghost es = (*self.state.sstables@[id]).entries();
            proof {
                crate::table::lemma_sst_from_sorted(
                    (*arc).file_bytes@,
                    (*arc).metas(),
                    (*arc).block_meta_offset as int,
                    0,
                );
                crate::entries::lemma_lower_bound_contains(es, key@);
                crate::entries::lemma_lower_bound_index(es, key@);
            }
            let ghost p = crate::entries::lower_bound_index(es, key@);
            let it = match SsTableIterator::create_and_seek_to_key(arc_clone_table(arc), key) {
                Ok(it) => it,
                Err(e) => {
                    return Err(e);
                },
            };
            proof {
                assert(it.entries() == es.skip(p));
            }
            let valid = it.is_valid();
            if valid {
                proof {
                    assert(it.entries()[0] == es[p]);
                }
                if crate::byte_order::key_eq(it.key().as_slice(), key) {
                    let v = crate::block::copy_bytes(it.value().as_slice());
                    proof {
                        assert(es[p].0 == key@);
                        assert(contains_key(es, key@));
                        assert(v@ == entry_value(es, key@));
                        assert(runs_lookup(self.state, j as int, key@) == Option::Some(
                            entry_value(es, key@),
                        ));
                    }
                    if v.len() == 0 {
                        return Ok(Option::None);
                    }
                    return Ok(Option::Some(v));
                }
            }
            proof {
                // this run does not hold the key
                if valid {
                    assert(it.entries()[0] == es[p]);
                    assert(es[p].0 != key@);
                } else {
                    assert(p == es.len());
                }
                assert(!contains_key(es, key@));
                assert(runs_lookup(self.state, j as int, key@) == runs_lookup(
                    self.state,
                    j + 1,
                    key@,
                ));
            }
            j = j + 1;
        }
        Ok(Option::None)
    }

    /// Put a key-value pair into the storage by writing into the current
    /// mem-table, freezing it when it outgrew its budget. The new binding
    /// is visible for `key` and nothing else changes.
    pub fn put(&mut self, key: &[u8], value: &[u8]) -> (r: Result<(), LsmError>)
        requires
            old(self).wf(),
            0 < key@.len() <= 0xFFFF,
            value@.len() <= 0xFFFF,
        ensures
            final(self).wf(),
            final(self).options == old(self).options,
            forall|k: Seq<u8>|
                lookup(final(self).state, k) == if k == key@ {
                    Option::Some(value@)
                } else {
                    lookup(old(self).state, k)
                },
            r is Ok <==> !(crate::mem_table::grown_size(
                old(self).state.memtable.approximate_size,
                key@.len(),
                value@.len(),
            ) > old(self).options.target_sst_size && old(self).next_sst_id == usize::MAX),
            r is Err ==> r == Err::<(), LsmError>(LsmError::OutOfRange),
    {
        let ghost s0 = self.state;
        let res = self.state.memtable.put(key, value);
        proof {
            assert(res is Ok);
            lemma_mem_insert_lookup(s0, self.state, key@, value@);
        }
        let ghost s1 = self.state;
        let size = self.state.memtable.approximate_size();
        if size > self.options.target_sst_size {
            proof {
                // the mem-table just received a binding, so it is non-empty
                assert(self.state.memtable.contents().contains_key(key@));
                if self.state.memtable.contents() == crate::mem_table::empty_contents() {
                    assert(crate::mem_table::empty_contents().contains_key(key@));
                }
            }
            if !self.state.memtable.is_empty() {
                let fr = self.force_freeze_memtable();
                proof {
                    if fr is Ok {
                        assert(forall|k: Seq<u8>| lookup(self.state, k) == lookup(s1, k));
                    }
                }
                if let Err(e) = fr {
                    return Err(e);
                }
            }
        }
        Ok(())
    }

    /// Remove a key from the storage by writing an empty value.
    pub fn delete(&mut self, key: &[u8]) -> (r: Result<(), LsmError>)
        requires
            old(self).wf(),
            0 < key@.len() <= 0xFFFF,
        ensures
            final(self).wf(),
            final(self).options == old(self).options,
            forall|k: Seq<u8>|
                lookup(final(self).state, k) == if k == key@ {
                    Option::Some(Seq::<u8>::empty())
                } else {
                    lookup(old(self).state, k)
                },
            r is Ok <==> !(crate::mem_table::grown_size(
                old(self).state.memtable.approximate_size,
                key@.len(),
                0,
            ) > old(self).options.target_sst_size && old(self).next_sst_id == usize::MAX),
            r is Err ==> r == Err::<(), LsmError>(LsmError::OutOfRange),
    {
        let empty: Vec<u8> = Vec::new();
        self.put(key, empty.as_slice())
    }

    /// Force freeze the current mem-table to an immutable mem-table. The
    /// merged view of the store does not change.
    pub fn force_freeze_memtable(&mut self) -> (r: Result<(), LsmError>)
        requires
            old(self).wf(),
            old(self).state.memtable.contents() != crate::mem_table::empty_contents(),
        ensures
            final(self).wf(),
            final(self).options == old(self).options,
            r is Ok <==> old(self).next_sst_id < usize::MAX,
            r is Err ==> *final(self) == *old(self) && r == Err::<(), LsmError>(
                LsmError::OutOfRange,
            ),
            r is Ok ==> {
                &&& final(self).state.memtable.contents()
                    == crate::mem_table::empty_contents()
                &&& final(self).state.imm_memtables@ == seq![old(self).state.memtable] + old(
                    self,
                ).state.imm_memtables@
                &&& final(self).state.l0_sstables == old(self).state.l0_sstables
                &&& final(self).state.levels == old(self).state.levels
                &&& final(self).state.sstables == old(self).state.sstables
                &&& forall|k: Seq<u8>|
                    lookup(final(self).state, k) == lookup(old(self).state, k)
            },
    {
        let ghost s0 = self.state;
        let id = match self.take_next_sst_id() {
            Ok(id) => id,
            Err(e) => {
                return Err(e);
            },
        };
        let mut m = MemTable::create(id);
        core::mem::swap(&mut m, &mut self.state.memtable);
        self.state.imm_memtables.insert(0, m);
        proof {
            assert(self.state.imm_memtables@ =~= seq![s0.memtable] + s0.imm_memtables@);
            lemma_freeze_lookup(s0, self.state);
            assert forall|i: int, j: int|
                0 <= i < self.state.imm_memtables@.len() && 0 <= j
                    < self.state.imm_memtables@.len() && i != j implies (
            #[trigger] self.state.imm_memtables@[i]).id != (
            #[trigger] self.state.imm_memtables@[j]).id by {
                if i != 0 && j != 0 {
                    assert(self.state.imm_memtables@[i] == s0.imm_memtables@[i - 1]);
                    assert(self.state.imm_memtables@[j] == s0.imm_memtables@[j - 1]);
                }
            }
        }
        Ok(())
    }

    /// Build the sorted run for the oldest immutable mem-table.
    #[verifier::rlimit(100)]
    fn build_flush_run(&self) -> (r: Result<SsTable, LsmError>)
        requires
            self.wf(),
            self.state.imm_memtables@.len() > 0,
        ensures
            r matches Ok(run) ==> {
                &&& run.wf()
                &&& entries_sorted(run.entries())
                &&& is_range_snapshot(
                    run.entries(),
                    self.state.imm_memtables@.last().contents(),
                    KeyBound::Unbounded,
                    KeyBound::Unbounded,
                )
                &&& run.id == self.state.imm_memtables@.last().id
            },
            r is Err ==> r == Err::<SsTable, LsmError>(LsmError::CorruptFormat),
            (forall|es: Seq<EntryV>|
                #[trigger] is_range_snapshot(
                    es,
                    self.state.imm_memtables@.last().contents(),
                    KeyBound::Unbounded,
                    KeyBound::Unbounded,
                ) ==> es.len() < 0xFFFF && crate::table::entries_enc_size(es) + 2
                    <= 0xFFFF_FFFF) ==> r is Ok,
    {
        let last: usize = self.state.imm_memtables.len() - 1;
        let imm = &self.state.imm_memtables[last];
        let id = imm.id();
        let mut builder = SsTableBuilder::new(self.options.target_sst_size);
        let it = imm.scan(&KeyBound::Unbounded, &KeyBound::Unbounded);
        let ghost snapshot = it.entries();
        proof {
            assert forall|i: int| 0 <= i < it.entries().len() implies 0 < (
            #[trigger] it.entries()[i]).0.len() <= 0xFFFF && it.entries()[i].1.len() <= 0xFFFF by {
                assert(imm.contents().contains_key(it.entries()[i].0));
            }
        }
        proof {
            assert(builder.entries() + snapshot =~= snapshot);
            assert(imm.contents() == self.state.imm_memtables@.last().contents());
            assert(is_range_snapshot(
                snapshot,
                self.state.imm_memtables@.last().contents(),
                KeyBound::Unbounded,
                KeyBound::Unbounded,
            ));
            assert(it.infallible());
        }
        if let Err(e) = builder.add_iter(it) {
            return Err(e);
        }
        proof {
            assert(builder.entries() =~= snapshot);
        }
        proof {
            // a non-empty mem-table yields a non-empty snapshot
            if snapshot.len() == 0 {
                assert forall|k: Seq<u8>| !(#[trigger] imm.contents().contains_key(k)) by {
                    if imm.contents().contains_key(k) {
                        assert(contains_key(snapshot, k));
                    }
                }
                assert(imm.contents() =~= crate::mem_table::empty_contents());
            }
        }
        let cache = match &self.block_cache {
            Option::Some(c) => Option::Some(cache_clone(c)),
            Option::None => Option::None,
        };
        let run = match builder.build(id, cache) {
            Ok(t) => t,
            Err(e) => {
                return Err(e);
            },
        };
        proof {
            assert(run.entries() =~= Seq::<EntryV>::empty() + snapshot);
            assert(run.entries() =~= snapshot);
            crate::table::lemma_sst_from_sorted(
                run.file_bytes@,
                run.metas(),
                run.block_meta_offset as int,
                0,
            );
        }
        Ok(run)
    }

    #[verifier::rlimit(100)]
    pub fn force_flush_next_imm_memtable(&mut self) -> (r: Result<(), LsmError>)
        requires
            old(self).wf(),
            old(self).state.imm_memtables@.len() > 0,
        ensures
            final(self).wf(),
            final(self).options == old(self).options,
            r is Err ==> final(self).state == old(self).state && r == Err::<(), LsmError>(
                LsmError::CorruptFormat,
            ),
            (forall|es: Seq<EntryV>|
                #[trigger] is_range_snapshot(
                    es,
                    old(self).state.imm_memtables@.last().contents(),
                    KeyBound::Unbounded,
                    KeyBound::Unbounded,
                ) ==> es.len() < 0xFFFF && crate::table::entries_enc_size(es) + 2
                    <= 0xFFFF_FFFF) ==> r is Ok,
            r is Ok ==> {
                &&& final(self).state.memtable == old(self).state.memtable
                &&& final(self).state.imm_memtables@ == old(self).state.imm_memtables@.drop_last()
                &&& final(self).state.levels == old(self).state.levels
                &&& final(self).state.l0_sstables@ == seq![
                    old(self).state.imm_memtables@.last().id,
                ] + old(self).state.l0_sstables@
                &&& is_range_snapshot(
                    (*final(self).state.sstables@[old(self).state.imm_memtables@.last().id]).entries(),
                    old(self).state.imm_memtables@.last().contents(),
                    KeyBound::Unbounded,
                    KeyBound::Unbounded,
                )
                &&& forall|k: Seq<u8>|
                    lookup(final(self).state, k) == lookup(old(self).state, k)
            },
    {
        let ghost s0 = self.state;
        let run = match self.build_flush_run() {
            Ok(t) => t,
            Err(e) => {
                return Err(e);
            },
        };
        let id = run.id;
        let ghost run_entries = run.entries();
        let _popped = self.state.imm_memtables.pop();
        self.state.l0_sstables.insert(0, id);
        self.state.sstables.insert(id, std::sync::Arc::new(run));
        proof {
            assert(self.state.imm_memtables@ =~= s0.imm_memtables@.drop_last());
            assert(self.state.l0_sstables@ =~= seq![id] + s0.l0_sstables@);
            assert(s0.imm_memtables@.last().id == id);
            assert((*self.state.sstables@[id]).entries() == run_entries);
            lemma_flush_lookup(s0, self.state, id);
            assert forall|i: int|
                0 <= i < self.state.l0_sstables@.len() implies self.state.sstables@.contains_key(
                #[trigger] self.state.l0_sstables@[i],
            ) && (*self.state.sstables@[self.state.l0_sstables@[i]]).wf() by {
                if i > 0 {
                    assert(self.state.l0_sstables@[i] == s0.l0_sstables@[i - 1]);
                    assert(s0.l0_sstables@[i - 1] != id);
                }
            }
        }
        Ok(())
    }
}

/// The suffix of a run's entries that a lower bound admits.
pub open spec fn seek_lower(es: Seq<EntryV>, lower: KeyBound) -> Seq<EntryV> {
    match lower {
        KeyBound::Unbounded => es,
        KeyBound::Included(b) => es.skip(crate::entries::lower_bound_index(es, b@)),
        KeyBound::Excluded(b) => {
            let p = crate::entries::lower_bound_index(es, b@);
            if p < es.len() && es[p].0 == b@ {
                es.skip(p + 1)
            } else {
                es.skip(p)
            }
        },
    }
}

/// The layer views a scan is computed from: one sorted range snapshot per
/// memory tier, newest first, and one bounded suffix per L0 run, newest
/// first.
pub open spec fn scan_views(
    s: LsmStorageState,
    lower: KeyBound,
    upper: KeyBound,
    mviews: Seq<Seq<EntryV>>,
    sviews: Seq<Seq<EntryV>>,
) -> bool {
    &&& mviews.len() == 1 + s.imm_memtables@.len()
    &&& is_range_snapshot(mviews[0], s.memtable.contents(), lower, upper)
    &&& forall|i: int|
        0 <= i < s.imm_memtables@.len() ==> is_range_snapshot(
            #[trigger] mviews[i + 1],
            s.imm_memtables@[i].contents(),
            lower,
            upper,
        )
    &&& sviews.len() == s.l0_sstables@.len()
    &&& forall|j: int|
        0 <= j < sviews.len() ==> #[trigger] sviews[j] == seek_lower(
            (*s.sstables@[s.l0_sstables@[j]]).entries(),
            lower,
        )
}

impl LsmStorageInner {
    /// Create an iterator over a range of keys: the merged view of every
    /// tier, restricted to the bounds, with tombstones elided. Every
    /// emitted entry is non-empty and within the upper bound, in strictly
    /// ascending key order.
    pub fn scan(&self, lower: &KeyBound, upper: KeyBound) -> (r: Result<
        FusedIterator<LsmIterator>,
        LsmError,
    >)
        requires
            self.wf(),
        ensures
            r is Ok,
            r matches Ok(it) ==> {
                &&& it.inv()
                &&& !it.has_errored
                &&& it.infallible()
                &&& entries_sorted(it.entries())
                &&& (forall|j: int|
                    0 <= j < it.entries().len() ==> (#[trigger] it.entries()[j]).1.len() > 0
                        && upper.admits_from_above(it.entries()[j].0))
                &&& exists|mviews: Seq<Seq<EntryV>>, sviews: Seq<Seq<EntryV>>|
                    #[trigger] scan_views(self.state, *lower, upper, mviews, sviews)
                        && it.entries() == crate::lsm_iterator::live_entries(
                        crate::iterators::two_merge_iterator::merged2(
                            crate::iterators::merge_iterator::merged(mviews),
                            crate::iterators::merge_iterator::merged(sviews),
                        ),
                        upper,
                    )
                &&& (forall|j: int|
                    0 <= j < it.entries().len() ==> lookup(
                        self.state,
                        (#[trigger] it.entries()[j]).0,
                    ) == Option::Some(it.entries()[j].1))
                &&& (forall|k: Seq<u8>|
                    lower.admits_from_below(k) && upper.admits_from_above(k) && (
                    #[trigger] lookup(self.state, k)) is Some && lookup(self.state, k)->Some_0.len()
                        > 0 ==> contains_key(it.entries(), k))
            },
    {
        let mut mem_iters: Vec<crate::mem_table::MemTableIterator> = Vec::new();
        mem_iters.push(self.state.memtable.scan(lower, &upper));
        let n: usize = self.state.imm_memtables.len();
        let mut i: usize = 0;
        while i < n
            invariant
                self.wf(),
                n == self.state.imm_memtables@.len(),
                i <= n,
                mem_iters@.len() == i + 1,
                forall|t: int|
                    0 <= t < mem_iters@.len() ==> (#[trigger] mem_iters@[t]).inv(),
                is_range_snapshot(
                    mem_iters@[0].entries(),
                    self.state.memtable.contents(),
                    *lower,
                    upper,
                ),
                forall|t: int|
                    0 <= t < i ==> is_range_snapshot(
                        (#[trigger] mem_iters@[t + 1]).entries(),
                        self.state.imm_memtables@[t].contents(),
                        *lower,
                        upper,
                    ),
            decreases n - i,
        {
            mem_iters.push(self.state.imm_memtables[i].scan(lower, &upper));
            i = i + 1;
        }
        let ghost mviews = crate::iterators::merge_iterator::views_of(mem_iters@);
        proof {
            assert forall|t: int| 0 <= t < mviews.len() implies entries_sorted(
                #[trigger] mviews[t],
            ) by {
                mem_iters@[t].lemma_entries_sorted();
            }
        }
        let mut sst_iters: Vec<SsTableIterator> = Vec::new();
        let rn: usize = self.state.l0_sstables.len();
        let mut j: usize = 0;
        while j < rn
            invariant
                self.wf(),
                rn == self.state.l0_sstables@.len(),
                j <= rn,
                sst_iters@.len() == j,
                forall|t: int| 0 <= t < sst_iters@.len() ==> (#[trigger] sst_iters@[t]).inv(),
                forall|t: int|
                    0 <= t < j ==> (#[trigger] sst_iters@[t]).entries() == seek_lower(
                        (*self.state.sstables@[self.state.l0_sstables@[t]]).entries(),
                        *lower,
                    ),
            decreases rn - j,
        {
            let id: usize = self.state.l0_sstables[j];
            let arc = match self.state.sstables.get(&id) {
                Option::Some(a) => a,
                Option::None => {
                    proof {
                        assert(self.state.sstables@.contains_key(id));
                    }
                    return Err(LsmError::OutOfRange);
                },
            };
            proof {
                assert(*arc == self.state.sstables@[id]);
            }
            let ghost es = (*self.state.sstables@[id]).entries();
            let it: SsTableIterator = match lower {
                KeyBound::Included(b) => {
                    match SsTableIterator::create_and_seek_to_key(arc_clone_table(arc), b.as_slice()) {
                        Ok(t) => t,
                        Err(e) => {
                            return Err(e);
                        },
                    }
                },
                KeyBound::Excluded(b) => {
                    let mut t = match SsTableIterator::create_and_seek_to_key(
                        arc_clone_table(arc),
                        b.as_slice(),
                    ) {
                        Ok(t) => t,
                        Err(e) => {
                            return Err(e);
                        },
                    };
                    let ghost p = crate::entries::lower_bound_index(es, b@);
                    proof {
                        crate::table::lemma_sst_from_sorted(
                            (*arc).file_bytes@,
                            (*arc).metas(),
                            (*arc).block_meta_offset as int,
                            0,
                        );
                        crate::entries::lemma_lower_bound_index(es, b@);
                    }
                    if t.is_valid() {
                        proof {
                            assert(t.entries()[0] == es[p]);
                        }
                        if crate::byte_order::key_eq(t.key().as_slice(), b.as_slice()) {
                            if let Err(e) = t.next() {
                                return Err(e);
                            }
                            proof {
                                assert(es.skip(p).skip(1) =~= es.skip(p + 1));
                            }
                        }
                    }
                    proof {
                        assert(t.entries() == seek_lower(es, *lower));
                    }
                    t
                },
                KeyBound::Unbounded => {
                    match SsTableIterator::create_and_seek_to_first(arc_clone_table(arc)) {
                        Ok(t) => t,
                        Err(e) => {
                            return Err(e);
                        },
                    }
                },
            };
            sst_iters.push(it);
            j = j + 1;
        }
        let ghost sviews = crate::iterators::merge_iterator::views_of(sst_iters@);
        proof {
            assert forall|t: int| 0 <= t < sviews.len() implies entries_sorted(
                #[trigger] sviews[t],
            ) by {
                sst_iters@[t].lemma_entries_sorted();
            }
            assert(scan_views(self.state, *lower, upper, mviews, sviews));
        }
        proof {
            assert(crate::iterators::merge_iterator::all_infallible(mem_iters@)) by {
                assert forall|t: int| 0 <= t < mem_iters@.len() implies (
                #[trigger] mem_iters@[t]).infallible() by {}
            }
            assert(crate::iterators::merge_iterator::all_infallible(sst_iters@)) by {
                assert forall|t: int| 0 <= t < sst_iters@.len() implies (
                #[trigger] sst_iters@[t]).infallible() by {}
            }
        }
        let mem_merge = crate::iterators::merge_iterator::MergeIterator::create(mem_iters);
        let sst_merge = crate::iterators::merge_iterator::MergeIterator::create(sst_iters);
        proof {
            crate::iterators::merge_iterator::lemma_merged_props(mviews);
            crate::iterators::merge_iterator::lemma_merged_props(sviews);
        }
        let two = match crate::iterators::two_merge_iterator::TwoMergeIterator::create(
            mem_merge,
            sst_merge,
        ) {
            Ok(t) => t,
            Err(e) => {
                return Err(e);
            },
        };
        proof {
            crate::iterators::two_merge_iterator::lemma_merged2_props(
                crate::iterators::merge_iterator::merged(mviews),
                crate::iterators::merge_iterator::merged(sviews),
            );
        }
        let lsm = match crate::lsm_iterator::LsmIterator::new(two, upper) {
            Ok(t) => t,
            Err(e) => {
                return Err(e);
            },
        };
        proof {
            crate::lsm_iterator::lemma_live_props(
                crate::iterators::two_merge_iterator::merged2(
                    crate::iterators::merge_iterator::merged(mviews),
                    crate::iterators::merge_iterator::merged(sviews),
                ),
                upper,
            );
        }
        let fused = crate::lsm_iterator::FusedIterator::new(lsm);
        proof {
            lemma_scan_matches_lookup(self.state, *lower, upper, mviews, sviews);
        }
        Ok(fused)
    }
}

/// A memory-tier lookup misses exactly when no tier holds the key.
proof fn lemma_mems_lookup_char(ms: Seq<MemTable>, k: Seq<u8>)
    ensures
        (mems_lookup(ms, k) is None) <==> (forall|i: int|
            0 <= i < ms.len() ==> !(#[trigger] ms[i]).contents().contains_key(k)),
    decreases ms.len(),
{
    if ms.len() > 0 {
        lemma_mems_lookup_char(ms.skip(1), k);
        if !ms[0].contents().contains_key(k) {
            assert forall|i: int|
                0 <= i < ms.len() && (#[trigger] ms[i]).contents().contains_key(k) implies ms.skip(
                1,
            )[i - 1].contents().contains_key(k) by {
                assert(ms.skip(1)[i - 1] == ms[i]);
            }
            assert forall|i: int|
                0 <= i < ms.skip(1).len() && (#[trigger] ms.skip(1)[i]).contents().contains_key(
                    k,
                ) implies ms[i + 1].contents().contains_key(k) by {
                assert(ms.skip(1)[i] == ms[i + 1]);
            }
        }
    }
}

/// When `w` is the first memory tier holding the key, the lookup returns
/// its binding.
proof fn lemma_mems_lookup_at(ms: Seq<MemTable>, k: Seq<u8>, w: int)
    requires
        0 <= w < ms.len(),
        ms[w].contents().contains_key(k),
        forall|i: int| 0 <= i < w ==> !(#[trigger] ms[i]).contents().contains_key(k),
    ensures
        mems_lookup(ms, k) == Option::Some(ms[w].contents()[k]),
    decreases w,
{
    if w > 0 {
        assert(ms.skip(1)[w - 1] == ms[w]);
        assert forall|i: int|
            0 <= i < w - 1 implies !(#[trigger] ms.skip(1)[i]).contents().contains_key(k) by {
            assert(ms.skip(1)[i] == ms[i + 1]);
        }
        lemma_mems_lookup_at(ms.skip(1), k, w - 1);
    }
}

/// A range snapshot holds an in-range key exactly when the map does, and
/// then it holds the map's binding.
proof fn lemma_snapshot_contains(
    es: Seq<EntryV>,
    m: Map<Seq<u8>, Seq<u8>>,
    lower: KeyBound,
    upper: KeyBound,
    k: Seq<u8>,
)
    requires
        is_range_snapshot(es, m, lower, upper),
        lower.admits_from_below(k),
        upper.admits_from_above(k),
    ensures
        contains_key(es, k) <==> m.contains_key(k),
        m.contains_key(k) ==> crate::entries::has_pair(es, (k, m[k])),
{
    if contains_key(es, k) {
        let i = choose|i: int| 0 <= i < es.len() && (#[trigger] es[i]).0 == k;
        assert(m.contains_key(k) && es[i].1 == m[k]);
    }
    if m.contains_key(k) {
        assert(contains_key(es, k));
        let i = choose|i: int| 0 <= i < es.len() && (#[trigger] es[i]).0 == k;
        assert(es[i] == (k, m[k]));
    }
}

/// The bounded suffix of a run keeps exactly the entries at or above the
/// lower bound, and every kept pair comes from the run.
#[verifier::rlimit(100)]
proof fn lemma_seek_lower_props(es: Seq<EntryV>, lower: KeyBound)
    requires
        entries_sorted(es),
    ensures
        entries_sorted(seek_lower(es, lower)),
        forall|j: int|
            0 <= j < seek_lower(es, lower).len() ==> crate::entries::has_pair(
                es,
                #[trigger] seek_lower(es, lower)[j],
            ) && lower.admits_from_below(seek_lower(es, lower)[j].0),
        forall|k: Seq<u8>|
            lower.admits_from_below(k) ==> (contains_key(es, k) <==> #[trigger] contains_key(
                seek_lower(es, lower),
                k,
            )),
{
    let sl = seek_lower(es, lower);
    let off: int = match lower {
        KeyBound::Unbounded => 0,
        KeyBound::Included(b) => crate::entries::lower_bound_index(es, b@),
        KeyBound::Excluded(b) => {
            let p = crate::entries::lower_bound_index(es, b@);
            if p < es.len() && es[p].0 == b@ {
                p + 1
            } else {
                p
            }
        },
    };
    match lower {
        KeyBound::Unbounded => {},
        KeyBound::Included(b) => {
            crate::entries::lemma_lower_bound_index(es, b@);
        },
        KeyBound::Excluded(b) => {
            crate::entries::lemma_lower_bound_index(es, b@);
        },
    }
    assert(0 <= off <= es.len());
    assert(sl == es.skip(off));
    crate::entries::lemma_sorted_skip(es, off);
    assert forall|j: int| 0 <= j < sl.len() implies crate::entries::has_pair(
        es,
        #[trigger] sl[j],
    ) && lower.admits_from_below(sl[j].0) by {
        assert(sl[j] == es[off + j]);
        assert(crate::entries::has_pair(es, sl[j]));
        match lower {
            KeyBound::Unbounded => {},
            KeyBound::Included(b) => {
                assert(key_le(b@, es[off + j].0));
            },
            KeyBound::Excluded(b) => {
                let p = crate::entries::lower_bound_index(es, b@);
                if p < es.len() && es[p].0 == b@ {
                    assert(crate::byte_order::key_lt(es[p].0, es[off + j].0));
                } else {
                    assert(key_le(b@, es[off + j].0));
                    if es[off + j].0 == b@ {
                        // the lower bound would have landed on it
                        assert(key_le(b@, es[p].0));
                        if p < off + j {
                            assert(crate::byte_order::key_lt(es[p].0, es[off + j].0));
                            crate::byte_order::lemma_cmp_basics(b@, es[p].0);
                        }
                    }
                    crate::byte_order::lemma_cmp_basics(b@, es[off + j].0);
                }
            },
        }
    }
    assert forall|k: Seq<u8>| lower.admits_from_below(k) implies (contains_key(es, k)
        <==> #[trigger] contains_key(sl, k)) by {
        if contains_key(sl, k) {
            let j = choose|j: int| 0 <= j < sl.len() && (#[trigger] sl[j]).0 == k;
            assert(sl[j] == es[off + j]);
            assert(contains_key(es, k));
        }
        if contains_key(es, k) {
            let i = choose|i: int| 0 <= i < es.len() && (#[trigger] es[i]).0 == k;
            assert(i >= off) by {
                match lower {
                    KeyBound::Unbounded => {},
                    KeyBound::Included(b) => {
                        if i < off {
                            assert(crate::byte_order::key_lt(es[i].0, b@));
                            crate::byte_order::lemma_cmp_basics(b@, k);
                        }
                    },
                    KeyBound::Excluded(b) => {
                        let p = crate::entries::lower_bound_index(es, b@);
                        if i < p {
                            assert(crate::byte_order::key_lt(es[i].0, b@));
                            crate::byte_order::lemma_cmp_basics(b@, k);
                            crate::byte_order::lemma_cmp_basics(k, b@);
                        }
                        if p < es.len() && es[p].0 == b@ && i == p {
                            crate::byte_order::lemma_cmp_basics(b@, k);
                        }
                    },
                }
            }
            assert(sl[i - off] == es[i]);
            assert(contains_key(sl, k));
        }
    }
}

/// A pair of a sorted sequence carries the key's unique value.
proof fn lemma_pair_value(es: Seq<EntryV>, e: EntryV)
    requires
        entries_sorted(es),
        crate::entries::has_pair(es, e),
    ensures
        contains_key(es, e.0),
        e.1 == entry_value(es, e.0),
{
    let i = choose|i: int| 0 <= i < es.len() && #[trigger] es[i] == e;
    crate::entries::lemma_entry_value(es, e.0, i);
}

/// A run-tier lookup misses exactly when no run from `i` on holds the key.
proof fn lemma_runs_lookup_char(s: LsmStorageState, i: int, k: Seq<u8>)
    requires
        0 <= i <= s.l0_sstables@.len(),
    ensures
        (runs_lookup(s, i, k) is None) <==> (forall|j: int|
            i <= j < s.l0_sstables@.len() ==> !contains_key(
                (*s.sstables@[#[trigger] s.l0_sstables@[j]]).entries(),
                k,
            )),
    decreases s.l0_sstables@.len() - i,
{
    if i < s.l0_sstables@.len() {
        lemma_runs_lookup_char(s, i + 1, k);
    }
}

/// When `w` is the first run from `i` on holding the key, the run lookup
/// returns its binding.
proof fn lemma_runs_lookup_at(s: LsmStorageState, i: int, w: int, k: Seq<u8>)
    requires
        0 <= i <= w < s.l0_sstables@.len(),
        contains_key((*s.sstables@[s.l0_sstables@[w]]).entries(), k),
        forall|j: int|
            i <= j < w ==> !contains_key(
                (*s.sstables@[#[trigger] s.l0_sstables@[j]]).entries(),
                k,
            ),
    ensures
        runs_lookup(s, i, k) == Option::Some(
            entry_value((*s.sstables@[s.l0_sstables@[w]]).entries(), k),
        ),
    decreases w - i,
{
    if i < w {
        lemma_runs_lookup_at(s, i + 1, w, k);
    }
}

/// A pair merged out of the memory-tier snapshots is the binding the
/// memory tiers hold for its key.
#[verifier::rlimit(100)]
proof fn lemma_merged_mem_pair(
    stack: Seq<MemTable>,
    lower: KeyBound,
    upper: KeyBound,
    mviews: Seq<Seq<EntryV>>,
    e: EntryV,
)
    requires
        mviews.len() == stack.len(),
        forall|t: int|
            0 <= t < stack.len() ==> is_range_snapshot(
                #[trigger] mviews[t],
                stack[t].contents(),
                lower,
                upper,
            ),
        crate::entries::has_pair(crate::iterators::merge_iterator::merged(mviews), e),
    ensures
        lower.admits_from_below(e.0),
        mems_lookup(stack, e.0) == Option::Some(e.1),
{
    let a = crate::iterators::merge_iterator::merged(mviews);
    assert forall|t: int| 0 <= t < mviews.len() implies entries_sorted(#[trigger] mviews[t]) by {}
    crate::iterators::merge_iterator::lemma_merged_props(mviews);
    let j = choose|j: int| 0 <= j < a.len() && #[trigger] a[j] == e;
    assert(crate::iterators::merge_iterator::has_first_source(mviews, e));
    let w = choose|w: int|
        #[trigger] crate::iterators::merge_iterator::is_first_source(mviews, e, w);
    let idx = choose|idx: int| 0 <= idx < mviews[w].len() && #[trigger] mviews[w][idx] == e;
    assert(stack[w].contents().contains_key(e.0) && e.1 == stack[w].contents()[e.0]);
    assert forall|i: int| 0 <= i < w implies !(#[trigger] stack[i]).contents().contains_key(
        e.0,
    ) by {
        lemma_snapshot_contains(mviews[i], stack[i].contents(), lower, upper, e.0);
    }
    lemma_mems_lookup_at(stack, e.0, w);
}

/// The memory-tier lookup is reflected in the merged snapshot stream: a
/// hit appears as a pair, a merged key means a hit.
#[verifier::rlimit(100)]
proof fn lemma_merged_mem_complete(
    stack: Seq<MemTable>,
    lower: KeyBound,
    upper: KeyBound,
    mviews: Seq<Seq<EntryV>>,
    k: Seq<u8>,
)
    requires
        mviews.len() == stack.len(),
        forall|t: int|
            0 <= t < stack.len() ==> is_range_snapshot(
                #[trigger] mviews[t],
                stack[t].contents(),
                lower,
                upper,
            ),
        lower.admits_from_below(k),
        upper.admits_from_above(k),
    ensures
        mems_lookup(stack, k) matches Option::Some(v) ==> crate::entries::has_pair(
            crate::iterators::merge_iterator::merged(mviews),
            (k, v),
        ),
        mems_lookup(stack, k) is None ==> !contains_key(
            crate::iterators::merge_iterator::merged(mviews),
            k,
        ),
{
    let a = crate::iterators::merge_iterator::merged(mviews);
    assert forall|t: int| 0 <= t < mviews.len() implies entries_sorted(#[trigger] mviews[t]) by {}
    crate::iterators::merge_iterator::lemma_merged_props(mviews);
    lemma_mems_lookup_char(stack, k);
    if mems_lookup(stack, k) is Some {
        let v = mems_lookup(stack, k)->Some_0;
        let t = choose|t: int|
            0 <= t < stack.len() && (#[trigger] stack[t]).contents().contains_key(k);
        lemma_snapshot_contains(mviews[t], stack[t].contents(), lower, upper, k);
        let idx = choose|idx: int| 0 <= idx < mviews[t].len() && (#[trigger] mviews[t][idx]).0
            == k;
        assert(contains_key(a, mviews[t][idx].0));
        let j = choose|j: int| 0 <= j < a.len() && (#[trigger] a[j]).0 == k;
        lemma_merged_mem_pair(stack, lower, upper, mviews, a[j]);
        assert(a[j] == (k, v));
        assert(crate::entries::has_pair(a, (k, v)));
    }
    if mems_lookup(stack, k) is None {
        if contains_key(a, k) {
            let j = choose|j: int| 0 <= j < a.len() && (#[trigger] a[j]).0 == k;
            lemma_merged_mem_pair(stack, lower, upper, mviews, a[j]);
        }
    }
}

/// A pair merged out of the bounded run suffixes is the binding the run
/// tier holds for its key.
#[verifier::rlimit(100)]
proof fn lemma_merged_runs_pair(
    s: LsmStorageState,
    lower: KeyBound,
    sviews: Seq<Seq<EntryV>>,
    e: EntryV,
)
    requires
        state_wf(s),
        sviews.len() == s.l0_sstables@.len(),
        forall|j: int|
            0 <= j < sviews.len() ==> #[trigger] sviews[j] == seek_lower(
                (*s.sstables@[s.l0_sstables@[j]]).entries(),
                lower,
            ),
        crate::entries::has_pair(crate::iterators::merge_iterator::merged(sviews), e),
    ensures
        lower.admits_from_below(e.0),
        runs_lookup(s, 0, e.0) == Option::Some(e.1),
{
    let b = crate::iterators::merge_iterator::merged(sviews);
    assert forall|t: int| 0 <= t < sviews.len() implies entries_sorted(#[trigger] sviews[t]) by {
        let es = (*s.sstables@[s.l0_sstables@[t]]).entries();
        crate::table::lemma_sst_from_sorted(
            (*s.sstables@[s.l0_sstables@[t]]).file_bytes@,
            (*s.sstables@[s.l0_sstables@[t]]).metas(),
            (*s.sstables@[s.l0_sstables@[t]]).block_meta_offset as int,
            0,
        );
        lemma_seek_lower_props(es, lower);
    }
    crate::iterators::merge_iterator::lemma_merged_props(sviews);
    assert(crate::iterators::merge_iterator::has_first_source(sviews, e));
    let w = choose|w: int|
        #[trigger] crate::iterators::merge_iterator::is_first_source(sviews, e, w);
    let es_w = (*s.sstables@[s.l0_sstables@[w]]).entries();
    crate::table::lemma_sst_from_sorted(
        (*s.sstables@[s.l0_sstables@[w]]).file_bytes@,
        (*s.sstables@[s.l0_sstables@[w]]).metas(),
        (*s.sstables@[s.l0_sstables@[w]]).block_meta_offset as int,
        0,
    );
    lemma_seek_lower_props(es_w, lower);
    let idx = choose|idx: int| 0 <= idx < sviews[w].len() && #[trigger] sviews[w][idx] == e;
    assert(crate::entries::has_pair(es_w, e));
    assert(lower.admits_from_below(e.0));
    lemma_pair_value(es_w, e);
    assert forall|jr: int| 0 <= jr < w implies !contains_key(
        (*s.sstables@[#[trigger] s.l0_sstables@[jr]]).entries(),
        e.0,
    ) by {
        let es_j = (*s.sstables@[s.l0_sstables@[jr]]).entries();
        crate::table::lemma_sst_from_sorted(
            (*s.sstables@[s.l0_sstables@[jr]]).file_bytes@,
            (*s.sstables@[s.l0_sstables@[jr]]).metas(),
            (*s.sstables@[s.l0_sstables@[jr]]).block_meta_offset as int,
            0,
        );
        lemma_seek_lower_props(es_j, lower);
        assert(!contains_key(sviews[jr], e.0));
    }
    lemma_runs_lookup_at(s, 0, w, e.0);
}

/// The run-tier lookup is reflected in the merged run stream.
#[verifier::rlimit(100)]
proof fn lemma_merged_runs_complete(
    s: LsmStorageState,
    lower: KeyBound,
    sviews: Seq<Seq<EntryV>>,
    k: Seq<u8>,
)
    requires
        state_wf(s),
        sviews.len() == s.l0_sstables@.len(),
        forall|j: int|
            0 <= j < sviews.len() ==> #[trigger] sviews[j] == seek_lower(
                (*s.sstables@[s.l0_sstables@[j]]).entries(),
                lower,
            ),
        lower.admits_from_below(k),
    ensures
        runs_lookup(s, 0, k) matches Option::Some(v) ==> crate::entries::has_pair(
            crate::iterators::merge_iterator::merged(sviews),
            (k, v),
        ),
        runs_lookup(s, 0, k) is None ==> !contains_key(
            crate::iterators::merge_iterator::merged(sviews),
            k,
        ),
{
    let b = crate::iterators::merge_iterator::merged(sviews);
    assert forall|t: int| 0 <= t < sviews.len() implies entries_sorted(#[trigger] sviews[t]) by {
        let es = (*s.sstables@[s.l0_sstables@[t]]).entries();
        crate::table::lemma_sst_from_sorted(
            (*s.sstables@[s.l0_sstables@[t]]).file_bytes@,
            (*s.sstables@[s.l0_sstables@[t]]).metas(),
            (*s.sstables@[s.l0_sstables@[t]]).block_meta_offset as int,
            0,
        );
        lemma_seek_lower_props(es, lower);
    }
    crate::iterators::merge_iterator::lemma_merged_props(sviews);
    lemma_runs_lookup_char(s, 0, k);
    if runs_lookup(s, 0, k) is Some {
        let v = runs_lookup(s, 0, k)->Some_0;
        let t = choose|t: int|
            0 <= t < s.l0_sstables@.len() && contains_key(
                (*s.sstables@[#[trigger] s.l0_sstables@[t]]).entries(),
                k,
            );
        let es_t = (*s.sstables@[s.l0_sstables@[t]]).entries();
        crate::table::lemma_sst_from_sorted(
            (*s.sstables@[s.l0_sstables@[t]]).file_bytes@,
            (*s.sstables@[s.l0_sstables@[t]]).metas(),
            (*s.sstables@[s.l0_sstables@[t]]).block_meta_offset as int,
            0,
        );
        lemma_seek_lower_props(es_t, lower);
        assert(contains_key(sviews[t], k));
        let idx = choose|idx: int| 0 <= idx < sviews[t].len() && (#[trigger] sviews[t][idx]).0
            == k;
        assert(contains_key(b, sviews[t][idx].0));
        let j = choose|j: int| 0 <= j < b.len() && (#[trigger] b[j]).0 == k;
        lemma_merged_runs_pair(s, lower, sviews, b[j]);
        assert(b[j] == (k, v));
        assert(crate::entries::has_pair(b, (k, v)));
    }
    if runs_lookup(s, 0, k) is None {
        if contains_key(b, k) {
            let j = choose|j: int| 0 <= j < b.len() && (#[trigger] b[j]).0 == k;
            lemma_merged_runs_pair(s, lower, sviews, b[j]);
        }
    }
}

/// The law of the scan: over the views a scan is computed from, the
/// emitted stream holds exactly the live bindings of the layered store
/// within the bounds. Every emitted pair is what `lookup` answers for its
/// key, and every in-range key whose binding is live is emitted.
#[verifier::rlimit(100)]
pub proof fn lemma_scan_matches_lookup(
    s: LsmStorageState,
    lower: KeyBound,
    upper: KeyBound,
    mviews: Seq<Seq<EntryV>>,
    sviews: Seq<Seq<EntryV>>,
)
    requires
        state_wf(s),
        scan_views(s, lower, upper, mviews, sviews),
    ensures
        forall|j: int|
            0 <= j < crate::lsm_iterator::live_entries(
                crate::iterators::two_merge_iterator::merged2(
                    crate::iterators::merge_iterator::merged(mviews),
                    crate::iterators::merge_iterator::merged(sviews),
                ),
                upper,
            ).len() ==> lookup(
                s,
                (#[trigger] crate::lsm_iterator::live_entries(
                    crate::iterators::two_merge_iterator::merged2(
                        crate::iterators::merge_iterator::merged(mviews),
                        crate::iterators::merge_iterator::merged(sviews),
                    ),
                    upper,
                )[j]).0,
            ) == Option::Some(
                crate::lsm_iterator::live_entries(
                    crate::iterators::two_merge_iterator::merged2(
                        crate::iterators::merge_iterator::merged(mviews),
                        crate::iterators::merge_iterator::merged(sviews),
                    ),
                    upper,
                )[j].1,
            ),
        forall|k: Seq<u8>|
            lower.admits_from_below(k) && upper.admits_from_above(k) && (#[trigger] lookup(
                s,
                k,
            )) is Some && lookup(s, k)->Some_0.len() > 0 ==> contains_key(
                crate::lsm_iterator::live_entries(
                    crate::iterators::two_merge_iterator::merged2(
                        crate::iterators::merge_iterator::merged(mviews),
                        crate::iterators::merge_iterator::merged(sviews),
                    ),
                    upper,
                ),
                k,
            ),
{
    let a = crate::iterators::merge_iterator::merged(mviews);
    let b = crate::iterators::merge_iterator::merged(sviews);
    let m2 = crate::iterators::two_merge_iterator::merged2(a, b);
    let result = crate::lsm_iterator::live_entries(m2, upper);
    let stack = mem_stack(s);
    // align the memory snapshots with the tier stack
    assert(stack.len() == mviews.len());
    assert forall|t: int| 0 <= t < stack.len() implies is_range_snapshot(
        #[trigger] mviews[t],
        stack[t].contents(),
        lower,
        upper,
    ) by {
        if t == 0 {
            assert(stack[0] == s.memtable);
        } else {
            assert(stack[t] == s.imm_memtables@[t - 1]);
            assert(is_range_snapshot(
                mviews[(t - 1) + 1],
                s.imm_memtables@[t - 1].contents(),
                lower,
                upper,
            ));
        }
    }
    assert forall|t: int| 0 <= t < mviews.len() implies entries_sorted(#[trigger] mviews[t]) by {}
    assert forall|t: int| 0 <= t < sviews.len() implies entries_sorted(#[trigger] sviews[t]) by {
        let es = (*s.sstables@[s.l0_sstables@[t]]).entries();
        crate::table::lemma_sst_from_sorted(
            (*s.sstables@[s.l0_sstables@[t]]).file_bytes@,
            (*s.sstables@[s.l0_sstables@[t]]).metas(),
            (*s.sstables@[s.l0_sstables@[t]]).block_meta_offset as int,
            0,
        );
        lemma_seek_lower_props(es, lower);
    }
    crate::iterators::merge_iterator::lemma_merged_props(mviews);
    crate::iterators::merge_iterator::lemma_merged_props(sviews);
    crate::iterators::two_merge_iterator::lemma_merged2_props(a, b);
    crate::lsm_iterator::lemma_live_props(m2, upper);
    // soundness: every emitted pair is the store's binding
    assert forall|j: int| 0 <= j < result.len() implies lookup(s, (#[trigger] result[j]).0)
        == Option::Some(result[j].1) by {
        let e = result[j];
        assert(crate::entries::has_pair(m2, e));
        let jj = choose|jj: int| 0 <= jj < m2.len() && #[trigger] m2[jj] == e;
        if crate::entries::has_pair(a, e) {
            lemma_merged_mem_pair(stack, lower, upper, mviews, e);
        } else {
            assert(crate::entries::has_pair(b, e));
            lemma_merged_runs_pair(s, lower, sviews, e);
            // the memory tiers miss this key: otherwise the A side would
            // have supplied the pair
            if !(mems_lookup(stack, e.0) is None) {
                lemma_merged_mem_complete(stack, lower, upper, mviews, e.0);
                assert(contains_key(a, e.0));
                assert(crate::entries::has_pair(a, m2[jj]));
            }
        }
    }
    // completeness: every live in-range binding is emitted
    assert forall|k: Seq<u8>|
        lower.admits_from_below(k) && upper.admits_from_above(k) && (#[trigger] lookup(
            s,
            k,
        )) is Some && lookup(s, k)->Some_0.len() > 0 implies contains_key(result, k) by {
        if mems_lookup(stack, k) is Some {
            let v = mems_lookup(stack, k)->Some_0;
            lemma_merged_mem_complete(stack, lower, upper, mviews, k);
            assert(crate::entries::has_pair(a, (k, v)));
            let ia = choose|ia: int| 0 <= ia < a.len() && #[trigger] a[ia] == (k, v);
            assert(contains_key(m2, a[ia].0));
            let j = choose|j: int| 0 <= j < m2.len() && (#[trigger] m2[j]).0 == k;
            assert(crate::entries::has_pair(a, m2[j]));
            lemma_merged_mem_pair(stack, lower, upper, mviews, m2[j]);
            assert(m2[j] == (k, v));
            assert(crate::entries::has_pair(result, m2[j]));
            let jr = choose|jr: int| 0 <= jr < result.len() && #[trigger] result[jr] == m2[j];
            assert(contains_key(result, k));
        } else {
            let v = lookup(s, k)->Some_0;
            assert(runs_lookup(s, 0, k) == Option::Some(v));
            lemma_merged_runs_complete(s, lower, sviews, k);
            assert(crate::entries::has_pair(b, (k, v)));
            let ib = choose|ib: int| 0 <= ib < b.len() && #[trigger] b[ib] == (k, v);
            assert(contains_key(m2, b[ib].0));
            let j = choose|j: int| 0 <= j < m2.len() && (#[trigger] m2[j]).0 == k;
            if crate::entries::has_pair(a, m2[j]) {
                lemma_merged_mem_pair(stack, lower, upper, mviews, m2[j]);
            }
            assert(crate::entries::has_pair(b, m2[j]));
            lemma_merged_runs_pair(s, lower, sviews, m2[j]);
            assert(m2[j] == (k, v));
            assert(crate::entries::has_pair(result, m2[j]));
            let jr = choose|jr: int| 0 <= jr < result.len() && #[trigger] result[jr] == m2[j];
            assert(contains_key(result, k));
        }
    }
}

/// Inserting into the active mem-table changes the lookup at exactly that
/// key.
proof fn lemma_mem_insert_lookup(s1: LsmStorageState, s2: LsmStorageState, key: Seq<u8>, value: Seq<
    u8,
>)
    requires
        s2.memtable.contents() == s1.memtable.contents().insert(key, value),
        s2.imm_memtables == s1.imm_memtables,
        s2.l0_sstables == s1.l0_sstables,
        s2.sstables == s1.sstables,
    ensures
        forall|k: Seq<u8>|
            lookup(s2, k) == if k == key {
                Option::Some(value)
            } else {
                lookup(s1, k)
            },
{
    assert forall|k: Seq<u8>|
        lookup(s2, k) == if k == key {
            Option::Some(value)
        } else {
            lookup(s1, k)
        } by {
        assert(mem_stack(s2).skip(1) =~= s2.imm_memtables@);
        assert(mem_stack(s1).skip(1) =~= s1.imm_memtables@);
        assert(mem_stack(s2)[0] == s2.memtable);
        assert(mem_stack(s1)[0] == s1.memtable);
        lemma_runs_lookup_same(s1, s2, 0, k);
    }
}

/// Freezing moves the active mem-table to the front of the immutable
/// list; the layered lookup is untouched.
proof fn lemma_freeze_lookup(s1: LsmStorageState, s2: LsmStorageState)
    requires
        s2.memtable.contents() == crate::mem_table::empty_contents(),
        s2.imm_memtables@ == seq![s1.memtable] + s1.imm_memtables@,
        s2.l0_sstables == s1.l0_sstables,
        s2.sstables == s1.sstables,
    ensures
        forall|k: Seq<u8>| lookup(s2, k) == lookup(s1, k),
{
    assert forall|k: Seq<u8>| lookup(s2, k) == lookup(s1, k) by {
        assert(mem_stack(s2)[0] == s2.memtable);
        assert(!s2.memtable.contents().contains_key(k)) by {
            if s2.memtable.contents().contains_key(k) {
                assert(crate::mem_table::empty_contents().contains_key(k));
            }
        }
        assert(mem_stack(s2).skip(1) =~= mem_stack(s1));
        lemma_runs_lookup_same(s1, s2, 0, k);
    }
}

/// Two states with the same run lists and tables look up runs alike.
proof fn lemma_runs_lookup_same(s1: LsmStorageState, s2: LsmStorageState, i: int, k: Seq<u8>)
    requires
        s2.l0_sstables == s1.l0_sstables,
        s2.sstables == s1.sstables,
    ensures
        runs_lookup(s2, i, k) == runs_lookup(s1, i, k),
    decreases s1.l0_sstables@.len() - i,
{
    if 0 <= i < s1.l0_sstables@.len() {
        lemma_runs_lookup_same(s1, s2, i + 1, k);
    }
}

/// Flushing the oldest immutable mem-table into a fresh L0 run preserves
/// the layered lookup.
proof fn lemma_flush_lookup(s1: LsmStorageState, s2: LsmStorageState, id: usize)
    requires
        state_wf(s1),
        s1.imm_memtables@.len() > 0,
        s2.memtable == s1.memtable,
        s2.imm_memtables@ == s1.imm_memtables@.drop_last(),
        s2.l0_sstables@ == seq![id] + s1.l0_sstables@,
        s2.sstables@ == s1.sstables@.insert(id, s2.sstables@[id]),
        s2.sstables@.contains_key(id),
        id == s1.imm_memtables@.last().id,
        forall|i: int| 0 <= i < s1.l0_sstables@.len() ==> (#[trigger] s1.l0_sstables@[i]) != id,
        entries_sorted((*s2.sstables@[id]).entries()),
        is_range_snapshot(
            (*s2.sstables@[id]).entries(),
            s1.imm_memtables@.last().contents(),
            KeyBound::Unbounded,
            KeyBound::Unbounded,
        ),
    ensures
        forall|k: Seq<u8>| lookup(s2, k) == lookup(s1, k),
{
    assert forall|k: Seq<u8>| lookup(s2, k) == lookup(s1, k) by {
        let imm = s1.imm_memtables@.last();
        let es = (*s2.sstables@[id]).entries();
        // the run holds exactly the flushed table's bindings
        assert(contains_key(es, k) <==> imm.contents().contains_key(k)) by {
            if contains_key(es, k) {
                let w = choose|w: int| 0 <= w < es.len() && (#[trigger] es[w]).0 == k;
            }
        }
        if imm.contents().contains_key(k) {
            let w = choose|w: int| 0 <= w < es.len() && (#[trigger] es[w]).0 == k;
            crate::entries::lemma_entry_value(es, k, w);
            assert(entry_value(es, k) == imm.contents()[k]);
        }
        lemma_mems_prefix_lookup(seq![s2.memtable] + s2.imm_memtables@, imm, k);
        assert(mem_stack(s1) =~= (seq![s2.memtable] + s2.imm_memtables@).push(imm));
        // the run tier: the new head run stands for the popped table
        assert(runs_lookup(s2, 0, k) == if imm.contents().contains_key(k) {
            Option::Some(imm.contents()[k])
        } else {
            runs_lookup(s2, 1, k)
        });
        lemma_runs_shift_lookup(s1, s2, 0, k, id);
    }
}

/// Looking up a stack extended at the bottom: misses fall through to the
/// bottom table.
proof fn lemma_mems_prefix_lookup(ms: Seq<MemTable>, bottom: MemTable, k: Seq<u8>)
    ensures
        mems_lookup(ms.push(bottom), k) == match mems_lookup(ms, k) {
            Option::Some(v) => Option::Some(v),
            Option::None => if bottom.contents().contains_key(k) {
                Option::Some(bottom.contents()[k])
            } else {
                Option::<Seq<u8>>::None
            },
        },
    decreases ms.len(),
{
    if ms.len() == 0 {
        assert(ms.push(bottom)[0] == bottom);
        assert(ms.push(bottom).skip(1) =~= Seq::<MemTable>::empty());
        assert(mems_lookup(ms, k) is None);
        assert(mems_lookup(Seq::<MemTable>::empty(), k) is None);
    } else {
        assert(ms.push(bottom)[0] == ms[0]);
        assert(ms.push(bottom).skip(1) =~= ms.skip(1).push(bottom));
        lemma_mems_prefix_lookup(ms.skip(1), bottom, k);
        if !ms[0].contents().contains_key(k) {
            assert(mems_lookup(ms.push(bottom), k) == mems_lookup(ms.skip(1).push(bottom), k));
            assert(mems_lookup(ms, k) == mems_lookup(ms.skip(1), k));
        }
    }
}

/// With one run added at the front and the same tables behind it, the run
/// lookup of the tail is unchanged.
proof fn lemma_runs_shift_lookup(
    s1: LsmStorageState,
    s2: LsmStorageState,
    i: int,
    k: Seq<u8>,
    id: usize,
)
    requires
        s2.l0_sstables@ == seq![id] + s1.l0_sstables@,
        s2.sstables@ == s1.sstables@.insert(id, s2.sstables@[id]),
        s2.sstables@.contains_key(id),
        forall|j: int| 0 <= j < s1.l0_sstables@.len() ==> (#[trigger] s1.l0_sstables@[j]) != id,
        0 <= i <= s1.l0_sstables@.len(),
    ensures
        runs_lookup(s2, i + 1, k) == runs_lookup(s1, i, k),
    decreases s1.l0_sstables@.len() - i,
{
    if i < s1.l0_sstables@.len() {
        assert(s2.l0_sstables@[i + 1] == s1.l0_sstables@[i]);
        assert(s1.l0_sstables@[i] != id);
        assert(s2.sstables@[s1.l0_sstables@[i]] == s1.sstables@[s1.l0_sstables@[i]]);
        lemma_runs_shift_lookup(s1, s2, i + 1, k, id);
    }
}

} // verus!
