//! An iterator over the contents of an SSTable: drives a block iterator
//! across the run's blocks.

use vstd::prelude::*;

use crate::block::{Block, BlockIterator};
use crate::byte_order::{key_le, key_lt, lemma_cmp_basics, lemma_key_le_trans};
use crate::entries::{
    entries_sorted, lemma_lower_bound_char, lemma_lower_bound_index, lemma_sorted_concat,
    lemma_sorted_skip, lower_bound_index, EntryV,
};
use crate::errors::LsmError;
use crate::iterators::StorageIterator;
use crate::table::{
    lemma_sst_from_sorted, lemma_within_suffix, sst_block_entries_at, sst_block_wf_at,
    sst_entries_from_v, MetaV, SsTable,
};

verus! {

/// Seeking lands exactly at the run-wide lower bound: with every block
/// before `b` ending below `k` and block `b` (if any) reaching `k`, the
/// suffix from block `i` splits at the in-block lower bound of block `b`.
proof fn lemma_sst_seek_decompose(
    bytes: Seq<u8>,
    ms: Seq<MetaV>,
    mo: int,
    i: int,
    b: int,
    k: Seq<u8>,
)
    requires
        crate::table::sst_wf_v(bytes, ms, mo),
        0 <= i <= b <= ms.len(),
        forall|a: int| 0 <= a < b ==> key_lt((#[trigger] ms[a]).2, k),
        b < ms.len() ==> key_le(k, ms[b].2),
    ensures
        sst_entries_from_v(bytes, ms, mo, i).skip(
            lower_bound_index(sst_entries_from_v(bytes, ms, mo, i), k),
        ) == if b < ms.len() {
            sst_block_entries_at(bytes, ms, mo, b).skip(
                lower_bound_index(sst_block_entries_at(bytes, ms, mo, b), k),
            ) + sst_entries_from_v(bytes, ms, mo, b + 1)
        } else {
            Seq::<EntryV>::empty()
        },
    decreases b - i,
{
    lemma_sst_from_sorted(bytes, ms, mo, i);
    let whole = sst_entries_from_v(bytes, ms, mo, i);
    if i == b {
        if b == ms.len() {
            assert(whole =~= Seq::<EntryV>::empty());
            lemma_lower_bound_char(whole, k, 0);
            assert(whole.skip(0) =~= Seq::<EntryV>::empty());
        } else {
            let bi = sst_block_entries_at(bytes, ms, mo, b);
            let rest = sst_entries_from_v(bytes, ms, mo, b + 1);
            assert(whole == bi + rest);
            assert(sst_block_wf_at(bytes, ms, mo, b));
            lemma_lower_bound_index(bi, k);
            let p = lower_bound_index(bi, k);
            assert forall|j: int| 0 <= j < p implies key_lt((#[trigger] whole[j]).0, k) by {
                assert(whole[j] == bi[j]);
            }
            assert forall|j: int| p <= j < whole.len() implies key_le(
                k,
                (#[trigger] whole[j]).0,
            ) by {
                if j < bi.len() {
                    assert(whole[j] == bi[j]);
                } else {
                    assert(whole[j] == rest[j - bi.len()]);
                    lemma_within_suffix(bytes, ms, mo, b + 1, j - bi.len());
                    assert(key_lt(ms[b].2, whole[j].0));
                    lemma_key_le_trans(k, ms[b].2, whole[j].0);
                }
            }
            lemma_lower_bound_char(whole, k, p);
            assert(whole.skip(p) =~= bi.skip(p) + rest);
        }
    } else {
        lemma_sst_seek_decompose(bytes, ms, mo, i + 1, b, k);
        let bi = sst_block_entries_at(bytes, ms, mo, i);
        let rest = sst_entries_from_v(bytes, ms, mo, i + 1);
        assert(whole == bi + rest);
        assert(sst_block_wf_at(bytes, ms, mo, i));
        lemma_sst_from_sorted(bytes, ms, mo, i + 1);
        lemma_lower_bound_index(rest, k);
        let q = lower_bound_index(rest, k);
        assert forall|j: int| 0 <= j < bi.len() + q implies key_lt((#[trigger] whole[j]).0, k) by {
            if j < bi.len() {
                assert(whole[j] == bi[j]);
                crate::table::lemma_sst_block_keys(bytes, ms, mo, i, j);
                lemma_key_le_trans(bi[j].0, ms[i].2, k);
            } else {
                assert(whole[j] == rest[j - bi.len()]);
            }
        }
        assert forall|j: int| bi.len() + q <= j < whole.len() implies key_le(
            k,
            (#[trigger] whole[j]).0,
        ) by {
            assert(whole[j] == rest[j - bi.len()]);
        }
        lemma_lower_bound_char(whole, k, bi.len() + q);
        assert(whole.skip(bi.len() + q) =~= rest.skip(q));
    }
}

/// An iterator over the contents of an SSTable.
pub struct SsTableIterator {
    /// The run being read.
    pub table: std::sync::Arc<SsTable>,
    /// Iterator over the block holding the current entry.
    pub blk_iter: BlockIterator,
    /// Index of that block; the block count when exhausted.
    pub blk_idx: usize,
    /// Total number of blocks.
    pub blk_num: usize,
}

impl SsTableIterator {
    /// Spec shorthand for the underlying run.
    pub open spec fn t(&self) -> SsTable {
        *self.table
    }

    /// Entries of the run from block `i` on.
    pub open spec fn from_block(&self, i: int) -> Seq<EntryV> {
        sst_entries_from_v(
            self.t().file_bytes@,
            self.t().metas(),
            self.t().block_meta_offset as int,
            i,
        )
    }

    fn empty_position(table: std::sync::Arc<SsTable>) -> (r: Self)
        requires
            (*table).wf(),
        ensures
            r.inv(),
            r.entries().len() == 0,
            r.t() == *table,
    {
        let blk_num = table.num_of_blocks();
        let blk_iter = BlockIterator::create_and_seek_to_first(
            Block { data: Vec::new(), offsets: Vec::new() },
        );
        SsTableIterator { table, blk_iter, blk_idx: blk_num, blk_num }
    }

    /// Create a new iterator and seek to the first key-value pair in the
    /// first data block.
    pub fn create_and_seek_to_first(table: std::sync::Arc<SsTable>) -> (r: Result<Self, LsmError>)
        requires
            (*table).wf(),
        ensures
            r matches Ok(it) && it.inv() && it.t() == *table && it.entries() == (*table).entries(),
    {
        let mut it = Self::empty_position(table);
        match it.seek_to_first() {
            Ok(_) => Ok(it),
            Err(e) => Err(e),
        }
    }

    /// Seek to the first key-value pair in the first data block.
    pub fn seek_to_first(&mut self) -> (r: Result<(), LsmError>)
        requires
            old(self).inv(),
        ensures
            final(self).inv(),
            final(self).t() == old(self).t(),
            r is Ok,
            final(self).entries() == old(self).t().entries(),
    {
        proof {
            assert(sst_block_wf_at(
                self.t().file_bytes@,
                self.t().metas(),
                self.t().block_meta_offset as int,
                0,
            ));
        }
        let block = match self.table.read_block(0) {
            Ok(b) => b,
            Err(e) => {
                return Err(e);
            },
        };
        self.blk_iter = BlockIterator::create_and_seek_to_first(block);
        self.blk_idx = 0;
        proof {
            assert(self.entries() =~= old(self).t().entries());
        }
        Ok(())
    }

    /// Create a new iterator positioned at the first entry whose key is at
    /// or after `key`.
    pub fn create_and_seek_to_key(table: std::sync::Arc<SsTable>, key: &[u8]) -> (r: Result<
        Self,
        LsmError,
    >)
        requires
            (*table).wf(),
        ensures
            r matches Ok(it) && it.inv() && it.t() == *table && it.entries()
                == (*table).entries().skip(lower_bound_index((*table).entries(), key@)),
    {
        let mut it = Self::empty_position(table);
        match it.seek_to_key(key) {
            Ok(_) => Ok(it),
            Err(e) => Err(e),
        }
    }

    /// Seek to the first entry whose key is at or after `key`; the
    /// iterator is invalid if every key of the run is below `key`.
    pub fn seek_to_key(&mut self, key: &[u8]) -> (r: Result<(), LsmError>)
        requires
            old(self).inv(),
        ensures
            final(self).inv(),
            final(self).t() == old(self).t(),
            r is Ok,
            final(self).entries() == old(self).t().entries().skip(
                lower_bound_index(old(self).t().entries(), key@),
            ),
    {
        let ghost bytes = self.t().file_bytes@;
        let ghost ms = self.t().metas();
        let ghost mo = self.t().block_meta_offset as int;
        let b: usize = self.table.find_block_idx(key);
        proof {
            lemma_sst_seek_decompose(bytes, ms, mo, 0, b as int, key@);
        }
        if b >= self.blk_num {
            self.blk_idx = self.blk_num;
            proof {
                assert(self.entries() =~= Seq::<EntryV>::empty());
            }
            return Ok(());
        }
        proof {
            assert(sst_block_wf_at(bytes, ms, mo, b as int));
        }
        let block = match self.table.read_block_cached(b) {
            Ok(blk) => blk,
            Err(e) => {
                return Err(e);
            },
        };
        let bi = BlockIterator::create_and_seek_to_key(block, key);
        self.blk_iter = bi;
        self.blk_idx = b;
        proof {
            // the landing position is inside block b, whose last key
            // reaches the target
            let es = sst_block_entries_at(bytes, ms, mo, b as int);
            lemma_lower_bound_index(es, key@);
            let p = lower_bound_index(es, key@);
            if p == es.len() {
                assert(key_lt(es[es.len() - 1].0, key@));
                assert(es.last() == es[es.len() - 1]);
                lemma_cmp_basics(key@, ms[b as int].2);
                lemma_cmp_basics(ms[b as int].2, key@);
                assert(false);
            }
            assert(self.blk_iter.remaining().len() > 0);
        }
        Ok(())
    }
}

impl StorageIterator for SsTableIterator {
    open spec fn inv(&self) -> bool {
        &&& self.t().wf()
        &&& self.blk_num == self.t().metas().len()
        &&& self.blk_idx <= self.blk_num
        &&& ((self.blk_idx as int) < self.blk_num ==> self.blk_iter.wf()
            && self.blk_iter.block.entries() == self.t().block_entries_at(self.blk_idx as int)
            && self.blk_iter.remaining().len() > 0)
    }

    open spec fn entries(&self) -> Seq<EntryV> {
        if (self.blk_idx as int) < self.blk_num {
            self.blk_iter.remaining() + self.from_block(self.blk_idx as int + 1)
        } else {
            Seq::empty()
        }
    }

    open spec fn infallible(&self) -> bool {
        true
    }

    proof fn lemma_entries_sorted(&self) {
        if (self.blk_idx as int) < self.blk_num {
            let bytes = self.t().file_bytes@;
            let ms = self.t().metas();
            let mo = self.t().block_meta_offset as int;
            let idx = self.blk_idx as int;
            let bi = sst_block_entries_at(bytes, ms, mo, idx);
            assert(sst_block_wf_at(bytes, ms, mo, idx));
            lemma_sorted_skip(bi, self.blk_iter.idx as int);
            lemma_sst_from_sorted(bytes, ms, mo, idx + 1);
            assert forall|i: int, j: int|
                0 <= i < self.blk_iter.remaining().len() && 0 <= j < self.from_block(
                    idx + 1,
                ).len() implies key_lt(
                (#[trigger] self.blk_iter.remaining()[i]).0,
                (#[trigger] self.from_block(idx + 1)[j]).0,
            ) by {
                assert(self.blk_iter.remaining()[i] == bi[self.blk_iter.idx + i]);
                crate::table::lemma_sst_block_keys(bytes, ms, mo, idx, self.blk_iter.idx + i);
                lemma_within_suffix(bytes, ms, mo, idx + 1, j);
                lemma_key_le_trans(
                    self.blk_iter.remaining()[i].0,
                    ms[idx].2,
                    self.from_block(idx + 1)[j].0,
                );
            }
            lemma_sorted_concat(self.blk_iter.remaining(), self.from_block(idx + 1));
        }
    }

    fn is_valid(&self) -> (r: bool) {
        self.blk_idx < self.blk_num
    }

    fn key(&self) -> (k: &Vec<u8>) {
        proof {
            assert(self.entries()[0] == self.blk_iter.remaining()[0]);
        }
        self.blk_iter.key()
    }

    fn value(&self) -> (v: &Vec<u8>) {
        proof {
            assert(self.entries()[0] == self.blk_iter.remaining()[0]);
        }
        self.blk_iter.value()
    }

    fn next(&mut self) -> (r: Result<(), LsmError>) {
        let ghost orem = self.blk_iter.remaining();
        let ghost otail = self.from_block(self.blk_idx as int + 1);
        self.blk_iter.next();
        if !self.blk_iter.is_valid() {
            self.blk_idx = self.blk_idx + 1;
            if self.blk_idx < self.blk_num {
                proof {
                    assert(sst_block_wf_at(
                        self.t().file_bytes@,
                        self.t().metas(),
                        self.t().block_meta_offset as int,
                        self.blk_idx as int,
                    ));
                }
                let block = match self.table.read_block(self.blk_idx) {
                    Ok(b) => b,
                    Err(e) => {
                        return Err(e);
                    },
                };
                self.blk_iter = BlockIterator::create_and_seek_to_first(block);
            }
            proof {
                assert(orem.len() == 1);
                assert((orem + otail).skip(1) =~= otail);
                if (self.blk_idx as int) < self.blk_num {
                    assert(self.entries() =~= otail);
                } else {
                    assert(self.entries() =~= otail);
                }
            }
        } else {
            proof {
                assert(self.blk_iter.remaining() == orem.skip(1));
                assert((orem + otail).skip(1) =~= orem.skip(1) + otail);
            }
        }
        Ok(())
    }
}

} // verus!
