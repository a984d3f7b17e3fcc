//! Builds an SSTable from key-value pairs: streams entries into blocks,
//! emitting each full block into the file buffer and recording its
//! directory entry.

use vstd::prelude::*;

use crate::block::{
    append_bytes, block_encoding, copy_bytes, lemma_block_round_trip, BlockBuilder,
};
use crate::byte_order::{key_lt, lemma_key_le_trans};
use crate::entries::{entries_sorted, EntryV};
use crate::errors::LsmError;
use crate::iterators::StorageIterator;
use crate::num_codec::push_u32_be;
use crate::table::{
    block_end_at, block_region, lemma_sst_from_sorted, meta_fits, metas_view, sst_block_wf_at,
    sst_block_entries_at, sst_entries_from_v, sst_entries_v, sst_wf_v, BlockCache, BlockMeta,
    SsTable,
};

verus! {

/// The bytes a sequence of entries can occupy in the file at most: for
/// each entry its four-byte header, its payload, its two-byte offset slot
/// and a two-byte share of its block's trailing count.
pub open spec fn entries_enc_size(es: Seq<EntryV>) -> int
    decreases es.len(),
{
    if es.len() == 0 {
        0
    } else {
        8 + es[0].0.len() + es[0].1.len() + entries_enc_size(es.skip(1))
    }
}

proof fn lemma_enc_size_concat(a: Seq<EntryV>, b: Seq<EntryV>)
    ensures
        entries_enc_size(a + b) == entries_enc_size(a) + entries_enc_size(b),
    decreases a.len(),
{
    if a.len() == 0 {
        assert(a + b =~= b);
    } else {
        assert((a + b).skip(1) =~= a.skip(1) + b);
        lemma_enc_size_concat(a.skip(1), b);
        assert((a + b)[0] == a[0]);
    }
}

proof fn lemma_enc_size_push(es: Seq<EntryV>, e: EntryV)
    ensures
        entries_enc_size(es.push(e)) == entries_enc_size(es) + 8 + e.0.len() + e.1.len(),
{
    assert(es.push(e) =~= es + seq![e]);
    lemma_enc_size_concat(es, seq![e]);
    assert(seq![e].skip(1) =~= Seq::<EntryV>::empty());
    assert(entries_enc_size(Seq::<EntryV>::empty()) == 0);
    assert(seq![e][0] == e);
    assert(entries_enc_size(seq![e]) == 8 + e.0.len() + e.1.len() + entries_enc_size(
        seq![e].skip(1),
    ));
}

proof fn lemma_enc_size_nonneg(es: Seq<EntryV>)
    ensures
        entries_enc_size(es) >= 8 * es.len(),
    decreases es.len(),
{
    if es.len() > 0 {
        lemma_enc_size_nonneg(es.skip(1));
    }
}

/// Sum of all recorded block offsets.
pub open spec fn offsets_sum(ms: Seq<crate::table::MetaV>) -> int
    decreases ms.len(),
{
    if ms.len() == 0 {
        0
    } else {
        ms[0].0 + offsets_sum(ms.skip(1))
    }
}

proof fn lemma_offsets_sum_nonneg(ms: Seq<crate::table::MetaV>)
    requires
        forall|i: int| 0 <= i < ms.len() ==> (#[trigger] ms[i]).0 >= 0,
    ensures
        offsets_sum(ms) >= 0,
    decreases ms.len(),
{
    if ms.len() > 0 {
        assert forall|i: int| 0 <= i < ms.skip(1).len() implies (#[trigger] ms.skip(1)[i]).0
            >= 0 by {
            assert(ms.skip(1)[i] == ms[i + 1]);
        }
        lemma_offsets_sum_nonneg(ms.skip(1));
    }
}

proof fn lemma_offsets_sum_split(ms: Seq<crate::table::MetaV>, j: int)
    requires
        0 <= j <= ms.len(),
    ensures
        offsets_sum(ms) == offsets_sum(ms.take(j)) + offsets_sum(ms.skip(j)),
    decreases j,
{
    if j == 0 {
        assert(ms.take(0) =~= Seq::<crate::table::MetaV>::empty());
        assert(ms.skip(0) =~= ms);
    } else {
        lemma_offsets_sum_split(ms.skip(1), j - 1);
        assert(ms.skip(1).take(j - 1) =~= ms.take(j).skip(1));
        assert(ms.skip(1).skip(j - 1) =~= ms.skip(j));
        assert(ms.take(j)[0] == ms[0]);
        assert(offsets_sum(ms.take(j)) == ms[0].0 + offsets_sum(ms.take(j).skip(1)));
    }
}

proof fn lemma_offsets_sum_snoc(ms: Seq<crate::table::MetaV>, m: crate::table::MetaV)
    ensures
        offsets_sum(ms.push(m)) == offsets_sum(ms) + m.0,
    decreases ms.len(),
{
    if ms.len() == 0 {
        assert(ms.push(m)[0] == m);
        assert(ms.push(m).skip(1) =~= Seq::<crate::table::MetaV>::empty());
        assert(offsets_sum(ms.push(m)) == m.0 + offsets_sum(Seq::<crate::table::MetaV>::empty()));
        assert(offsets_sum(Seq::<crate::table::MetaV>::empty()) == 0);
        assert(offsets_sum(ms) == 0);
    } else {
        assert(ms.push(m).skip(1) =~= ms.skip(1).push(m));
        lemma_offsets_sum_snoc(ms.skip(1), m);
        assert(ms.push(m)[0] == ms[0]);
        assert(offsets_sum(ms.push(m)) == ms[0].0 + offsets_sum(ms.skip(1).push(m)));
        assert(offsets_sum(ms) == ms[0].0 + offsets_sum(ms.skip(1)));
    }
}

/// Builds an SSTable from key-value pairs.
pub struct SsTableBuilder {
    /// The block under construction.
    pub builder: BlockBuilder,
    /// First key of the run; empty until the first add.
    pub first_key: Vec<u8>,
    /// Last key added so far; empty until the first add.
    pub last_key: Vec<u8>,
    /// Encodings of all finished blocks, in file order.
    pub data: Vec<u8>,
    /// One directory record per finished block.
    pub meta: Vec<BlockMeta>,
    /// The per-block size budget.
    pub block_size: usize,
}

impl SsTableBuilder {
    /// The records of the finished blocks, as spec values.
    pub open spec fn metas(&self) -> Seq<crate::table::MetaV> {
        metas_view(self.meta@)
    }

    /// Entries already sealed into finished blocks.
    pub open spec fn sealed_entries(&self) -> Seq<EntryV> {
        sst_entries_v(self.data@, self.metas(), self.data@.len() as int)
    }

    /// All entries accepted so far, in key order.
    pub open spec fn entries(&self) -> Seq<EntryV> {
        self.sealed_entries() + self.builder.entries()
    }

    /// The builder's bytes stay within the size budget of its entries;
    /// established at creation and preserved by every add.
    pub open spec fn size_tracked(&self) -> bool {
        self.data@.len() + self.builder.current_size_spec() <= entries_enc_size(self.entries())
            + 2
    }

    /// The invariant: the finished region is a well-formed run prefix, the
    /// open block continues it, and the cached first and last keys track
    /// the entries.
    pub open spec fn wf(&self) -> bool {
        &&& self.builder.wf()
        &&& self.builder.block_size == self.block_size
        &&& self.data@.len() <= 0xFFFF_FFFF
        &&& (self.meta@.len() == 0 ==> self.data@.len() == 0)
        &&& (self.meta@.len() > 0 ==> sst_wf_v(self.data@, self.metas(), self.data@.len() as int))
        &&& (self.meta@.len() > 0 && self.builder.entries().len() > 0 ==> key_lt(
            self.metas().last().2,
            self.builder.entries()[0].0,
        ))
        &&& (self.entries().len() == 0 ==> self.first_key@.len() == 0 && self.last_key@.len() == 0)
        &&& (self.entries().len() > 0 ==> self.first_key@ == self.entries()[0].0
            && self.last_key@ == self.entries().last().0)
        &&& (forall|i: int|
            0 <= i < self.entries().len() ==> 0 < (#[trigger] self.entries()[i]).0.len() <= 0xFFFF
                && self.entries()[i].1.len() <= 0xFFFF)
        &&& entries_sorted(self.entries())
    }

    /// Create a builder based on a target block size.
    pub fn new(block_size: usize) -> (r: Self)
        ensures
            r.wf(),
            r.entries().len() == 0,
            r.block_size == block_size,
            r.size_tracked(),
    {
        let r = SsTableBuilder {
            builder: BlockBuilder::new(block_size),
            first_key: Vec::new(),
            last_key: Vec::new(),
            data: Vec::new(),
            meta: Vec::new(),
            block_size,
        };
        proof {
            assert(r.metas() =~= Seq::<crate::table::MetaV>::empty());
            assert(r.entries() =~= Seq::<EntryV>::empty());
            assert(entries_enc_size(r.entries()) == 0);
        }
        r
    }

    /// Get the estimated size of the SSTable: the sum of the recorded
    /// block offsets, a cheap heuristic over the sealed blocks.
    pub fn estimated_size(&self) -> (r: usize)
        requires
            offsets_sum(self.metas()) <= usize::MAX,
        ensures
            r == offsets_sum(self.metas()),
    {
        let n: usize = self.meta.len();
        let mut sum: usize = 0;
        let mut i: usize = 0;
        proof {
            assert forall|k: int| 0 <= k < n implies (#[trigger] self.metas()[k]).0 >= 0 by {
                assert(self.metas()[k] == self.meta@[k].mv());
            }
        }
        while i < n
            invariant
                i <= n,
                n == self.meta@.len(),
                forall|k: int| 0 <= k < n ==> (#[trigger] self.metas()[k]).0 >= 0,
                offsets_sum(self.metas()) <= usize::MAX,
                sum == offsets_sum(self.metas().take(i as int)),
            decreases n - i,
        {
            proof {
                assert(self.metas()[i as int] == self.meta@[i as int].mv());
                lemma_offsets_sum_snoc(self.metas().take(i as int), self.metas()[i as int]);
                assert(self.metas().take(i as int).push(self.metas()[i as int])
                    =~= self.metas().take(i + 1));
                lemma_offsets_sum_split(self.metas(), i + 1);
                assert forall|k: int| 0 <= k < self.metas().skip(i + 1).len() implies (
                #[trigger] self.metas().skip(i + 1)[k]).0 >= 0 by {
                    assert(self.metas().skip(i + 1)[k] == self.metas()[k + i + 1]);
                }
                lemma_offsets_sum_nonneg(self.metas().skip(i + 1));
            }
            sum = sum + self.meta[i].offset;
            i = i + 1;
        }
        proof {
            assert(self.metas().take(n as int) =~= self.metas());
        }
        sum
    }

    /// Seal the open block: encode it, append it to the file buffer, and
    /// record its directory entry. The caller checks capacity first.
    #[verifier::rlimit(100)]
    fn seal_block(&mut self)
        requires
            old(self).wf(),
            old(self).builder.entries().len() > 0,
            old(self).meta@.len() < 0xFFFF,
            old(self).data@.len() + old(self).builder.current_size_spec() <= 0xFFFF_FFFF,
        ensures
            final(self).wf(),
            final(self).builder.entries().len() == 0,
            final(self).entries() == old(self).entries(),
            final(self).sealed_entries() == old(self).entries(),
            final(self).block_size == old(self).block_size,
            final(self).first_key == old(self).first_key,
            final(self).last_key == old(self).last_key,
            final(self).metas().len() == old(self).metas().len() + 1,
            final(self).data@.len() <= old(self).data@.len() + old(
                self,
            ).builder.current_size_spec(),
            final(self).builder.current_size_spec() == 2,
    {
        let mut ob = BlockBuilder::new(self.block_size);
        core::mem::swap(&mut ob, &mut self.builder);
        let offset: usize = self.data.len();
        let bfk = copy_bytes(ob.first_key.as_slice());
        let blk = copy_bytes(self.last_key.as_slice());
        let ghost obe = ob.entries();
        let block = ob.build();
        let enc = block.encode();
        proof {
            lemma_block_round_trip(block.data@, block.offsets@);
            crate::block::lemma_offsets_bytes(block.offsets@);
        }
        let nm = BlockMeta { offset, first_key: bfk, last_key: blk };
        let ghost oms = self.metas();
        let ghost odata = self.data@;
        self.meta.push(nm);
        append_bytes(&mut self.data, enc.as_slice());
        proof {
            let ms2 = self.metas();
            let d2 = self.data@;
            let mo2 = d2.len() as int;
            assert(ms2 =~= oms.push(nm.mv()));
            assert(enc@ == block_encoding(block.data@, block.offsets@));
            assert(enc@.len() == old(self).builder.current_size_spec());
            // the new block's region decodes back to the block
            assert(d2.subrange(offset as int, mo2) =~= enc@);
            assert(d2.subrange(0, odata.len() as int) =~= odata);
            lemma_builder_seal(odata, oms, d2, ms2, nm.mv(), block.data@, block.offsets@, obe);
            assert(self.entries() =~= old(self).entries());
        }
    }

    /// Adds a key-value pair. Fails only when sealing the full open block
    /// would overflow the 32-bit offsets or the 16-bit block count of the
    /// file format; the builder is then unchanged.
    pub fn add(&mut self, key: &[u8], value: &[u8]) -> (r: Result<(), LsmError>)
        requires
            old(self).wf(),
            0 < key@.len() <= 0xFFFF,
            value@.len() <= 0xFFFF,
            old(self).entries().len() > 0 ==> key_lt(old(self).entries().last().0, key@),
        ensures
            final(self).wf(),
            final(self).block_size == old(self).block_size,
            r is Ok ==> final(self).entries() == old(self).entries().push((key@, value@)),
            r is Err ==> *final(self) == *old(self) && r == Err::<(), LsmError>(
                LsmError::CorruptFormat,
            ),
            old(self).builder.accepts(key@.len() as int, value@.len() as int) ==> r is Ok,
            old(self).meta@.len() < 0xFFFF && old(self).data@.len() + old(
                self,
            ).builder.current_size_spec() <= 0xFFFF_FFFF ==> r is Ok,
            old(self).size_tracked() ==> final(self).size_tracked(),
            old(self).size_tracked() && old(self).entries().len() < 0xFFFF && entries_enc_size(
                old(self).entries(),
            ) + 2 <= 0xFFFF_FFFF ==> r is Ok,
    {
        proof {
            if self.entries().len() > 0 && self.builder.entries().len() > 0 {
                assert(self.builder.entries().last() == self.entries().last());
            }
            if self.meta@.len() > 0 {
                // the block count never exceeds the sealed entry count
                crate::table::lemma_sst_entries_count(
                    self.data@,
                    self.metas(),
                    self.data@.len() as int,
                    0,
                );
            }
            lemma_enc_size_push(self.entries(), (key@, value@));
        }
        let ghost oldself = *old(self);
        proof {
            if self.meta@.len() > 0 {
                lemma_last_entry(self.data@, self.metas(), self.data@.len() as int, 0);
            }
        }
        let first = self.builder.is_empty() && self.meta.len() == 0;
        let ok = self.builder.add(key, value);
        if ok {
            if first {
                self.first_key = copy_bytes(key);
            }
            self.last_key = copy_bytes(key);
            proof {
                lemma_builder_add_entries(oldself, *self, key@, value@, false);
                assert(self.entries() =~= oldself.entries().push((key@, value@)));
            }
            return Ok(());
        }
        // the open block is full: seal it, then retry in a fresh block
        if self.meta.len() >= 0xFFFF {
            return Err(LsmError::CorruptFormat);
        }
        let head: usize = 2 + self.builder.offsets.len() * 2;
        if self.builder.data.len() > 0xFFFF_FFFFusize - head {
            return Err(LsmError::CorruptFormat);
        }
        let cur: usize = head + self.builder.data.len();
        if self.data.len() > 0xFFFF_FFFFusize - cur {
            return Err(LsmError::CorruptFormat);
        }
        proof {
            // a rejected add means the open block was not empty
            assert(self.builder.entries().len() > 0);
        }
        self.seal_block();
        let ok2 = self.builder.add(key, value);
        proof {
            assert(ok2);
        }
        self.last_key = copy_bytes(key);
        proof {
            assert(self.builder.entries() =~= Seq::<EntryV>::empty().push((key@, value@)));
            lemma_builder_add_entries(oldself, *self, key@, value@, true);
            assert(self.entries() =~= oldself.entries().push((key@, value@)));
        }
        Ok(())
    }

    /// Drain a whole iterator of sorted entries into the builder. On a
    /// failure the entries already read remain in the builder, and the
    /// iterator's own error is passed through unchanged; with an
    /// infallible iterator only the format capacity can fail.
    #[verifier::rlimit(100)]
    pub fn add_iter<I: StorageIterator>(&mut self, iter: I) -> (r: Result<(), LsmError>)
        requires
            old(self).wf(),
            iter.inv(),
            forall|i: int|
                0 <= i < iter.entries().len() ==> 0 < (#[trigger] iter.entries()[i]).0.len()
                    <= 0xFFFF && iter.entries()[i].1.len() <= 0xFFFF,
            old(self).entries().len() > 0 && iter.entries().len() > 0 ==> key_lt(
                old(self).entries().last().0,
                iter.entries()[0].0,
            ),
        ensures
            final(self).wf(),
            final(self).block_size == old(self).block_size,
            r is Ok ==> final(self).entries() == old(self).entries() + iter.entries(),
            r is Err ==> exists|n: int|
                0 <= n <= iter.entries().len() && final(self).entries() == old(self).entries()
                    + #[trigger] iter.entries().take(n),
            iter.infallible() && r is Err ==> r == Err::<(), LsmError>(LsmError::CorruptFormat),
            old(self).size_tracked() ==> final(self).size_tracked(),
            old(self).size_tracked() && iter.infallible() && (old(self).entries()
                + iter.entries()).len() < 0xFFFF && entries_enc_size(
                old(self).entries() + iter.entries(),
            ) + 2 <= 0xFFFF_FFFF ==> r is Ok,
    {
        let mut it = iter;
        let ghost all = iter.entries();
        let ghost mut done: int = 0;
        proof {
            it.lemma_entries_sorted();
            assert(all.skip(0) =~= all);
            assert(self.entries() + all.take(0) =~= self.entries());
        }
        let mut valid = it.is_valid();
        while valid
            invariant
                self.wf(),
                it.inv(),
                it.infallible() == iter.infallible(),
                self.block_size == old(self).block_size,
                0 <= done <= all.len(),
                all == iter.entries(),
                old(self).size_tracked() ==> self.size_tracked(),
                it.entries() == all.skip(done),
                valid == (it.entries().len() > 0),
                entries_sorted(all),
                self.entries() == old(self).entries() + all.take(done),
                forall|i: int|
                    0 <= i < all.len() ==> 0 < (#[trigger] all[i]).0.len() <= 0xFFFF
                        && all[i].1.len() <= 0xFFFF,
                self.entries().len() > 0 && done < all.len() ==> key_lt(
                    self.entries().last().0,
                    all[done].0,
                ),
            decreases all.len() - done,
        {
            let k = copy_bytes(it.key().as_slice());
            let v = copy_bytes(it.value().as_slice());
            proof {
                assert(all.skip(done)[0] == all[done]);
                assert(k@ == all[done].0 && v@ == all[done].1);
            }
            proof {
                if old(self).size_tracked() && (old(self).entries() + all).len() < 0xFFFF
                    && entries_enc_size(old(self).entries() + all) + 2 <= 0xFFFF_FFFF {
                    // the entries so far are a prefix of the final total,
                    // so they fit whenever the total fits
                    assert((old(self).entries() + all.take(done)) + all.skip(done) =~= old(
                        self,
                    ).entries() + all);
                    lemma_enc_size_concat(old(self).entries() + all.take(done), all.skip(done));
                    lemma_enc_size_nonneg(all.skip(done));
                    assert(entries_enc_size(self.entries()) + 2 <= 0xFFFF_FFFF);
                    assert(self.entries().len() < 0xFFFF);
                }
            }
            let res = self.add(k.as_slice(), v.as_slice());
            if let Err(e) = res {
                proof {
                    assert(0 <= done <= iter.entries().len() && self.entries() == old(
                        self,
                    ).entries() + iter.entries().take(done));
                }
                return Err(e);
            }
            match it.next() {
                Ok(_) => {},
                Err(e) => {
                    proof {
                        assert(!iter.infallible());
                        assert(all.take(done).push(all[done]) =~= all.take(done + 1));
                        assert(old(self).entries() + all.take(done).push(all[done]) =~= old(
                            self,
                        ).entries() + all.take(done + 1));
                        assert(0 <= done + 1 <= iter.entries().len() && self.entries() == old(
                            self,
                        ).entries() + iter.entries().take(done + 1));
                    }
                    return Err(e);
                },
            }
            proof {
                done = done + 1;
                assert(all.skip(done - 1).skip(1) =~= all.skip(done));
                assert(old(self).entries() + all.take(done - 1).push(all[done - 1]) =~= old(
                    self,
                ).entries() + all.take(done));
                if self.entries().len() > 0 && done < all.len() {
                    assert(self.entries().last() == all[done - 1]);
                    assert(key_lt(all[done - 1].0, all[done].0));
                }
            }
            valid = it.is_valid();
        }
        proof {
            assert(done == all.len());
            assert(all.take(done) =~= all);
        }
        Ok(())
    }

    /// Builds the SSTable: seals the open block, appends the directory and
    /// its offset, and assembles the run. Fails only when the final seal
    /// or the directory offset would overflow the 32-bit format fields.
    #[verifier::rlimit(100)]
    pub fn build(self, id: usize, block_cache: Option<BlockCache>) -> (r: Result<
        SsTable,
        LsmError,
    >)
        requires
            self.wf(),
            self.entries().len() > 0,
        ensures
            r matches Ok(t) ==> t.wf() && t.entries() == self.entries() && t.id == id
                && t.first_key@ == self.entries()[0].0 && t.last_key@ == self.entries().last().0,
            self.builder.entries().len() == 0 ==> r is Ok,
            self.meta@.len() < 0xFFFF && self.data@.len() + self.builder.current_size_spec()
                <= 0xFFFF_FFFF ==> r is Ok,
            self.size_tracked() && self.entries().len() < 0xFFFF && entries_enc_size(
                self.entries(),
            ) + 2 <= 0xFFFF_FFFF ==> r is Ok,
            r matches Ok(t) ==> crate::table::sst_bytes_wf(t.file_bytes@)
                && crate::table::sst_bytes_metas(t.file_bytes@) == t.metas()
                && crate::table::sst_bytes_mo(t.file_bytes@) == t.block_meta_offset as int
                && t.file_bytes@ == t.file_bytes@.subrange(0, t.block_meta_offset as int)
                + crate::table::meta_region_enc(t.metas()) + crate::num_codec::u32_be(
                t.block_meta_offset as u32,
            ),
            r is Err ==> r == Err::<SsTable, LsmError>(LsmError::CorruptFormat),
    {
        proof {
            if self.meta@.len() > 0 {
                crate::table::lemma_sst_entries_count(
                    self.data@,
                    self.metas(),
                    self.data@.len() as int,
                    0,
                );
            }
        }
        let mut s = self;
        if !s.builder.is_empty() {
            if s.meta.len() >= 0xFFFF {
                return Err(LsmError::CorruptFormat);
            }
            let head: usize = 2 + s.builder.offsets.len() * 2;
            if s.builder.data.len() > 0xFFFF_FFFFusize - head {
                return Err(LsmError::CorruptFormat);
            }
            let cur: usize = head + s.builder.data.len();
            if s.data.len() > 0xFFFF_FFFFusize - cur {
                return Err(LsmError::CorruptFormat);
            }
            s.seal_block();
        }
        let ghost entries = s.entries();
        let mo: usize = s.data.len();
        proof {
            assert(s.meta@.len() > 0);
            assert forall|i: int| 0 <= i < s.meta@.len() implies meta_fits(
                #[trigger] metas_view(s.meta@)[i],
            ) by {
                assert(sst_block_wf_at(s.data@, s.metas(), s.data@.len() as int, i));
                let es = sst_block_entries_at(s.data@, s.metas(), s.data@.len() as int, i);
                assert(s.metas()[i].1 == es[0].0);
                assert(s.metas()[i].2 == es.last().0);
                lemma_block_keys_fit(s.data@, s.metas(), s.data@.len() as int, i);
            }
        }
        let ghost oms = s.metas();
        let ghost odata = s.data@;
        let mut file_bytes = s.data;
        BlockMeta::encode_block_meta(&s.meta, &mut file_bytes);
        push_u32_be(&mut file_bytes, mo as u32);
        let first_key = s.first_key;
        let last_key = s.last_key;
        let t = SsTable {
            file_bytes,
            block_meta: s.meta,
            block_meta_offset: mo,
            id,
            block_cache,
            first_key,
            last_key,
            max_ts: 0,
        };
        proof {
            assert(t.file_bytes@.subrange(0, odata.len() as int) =~= odata);
            lemma_sst_extend_bytes(odata, oms, t.file_bytes@);
            assert(entries =~= sst_entries_v(odata, oms, mo as int));
            lemma_last_entry(odata, oms, mo as int, 0);
            lemma_sealed_last_key_of(odata, oms, entries);
            assert(sst_block_wf_at(odata, oms, mo as int, 0));
            assert(entries[0] == sst_block_entries_at(odata, oms, mo as int, 0)[0]);
            assert(t.first_key@ == oms[0].1);
            assert(t.last_key@ == oms[oms.len() - 1].2);
            assert(t.wf());
            assert(t.entries() =~= entries);
            // the assembled bytes are a well-formed run image
            let bytes2 = t.file_bytes@;
            let region = crate::table::meta_region_enc(oms);
            crate::table::lemma_meta_region_round(oms);
            crate::num_codec::lemma_u32_be_round(mo as u32);
            assert(bytes2 == odata + region + crate::num_codec::u32_be(mo as u32));
            assert(bytes2.len() == odata.len() + region.len() + 4);
            assert(crate::table::sst_bytes_mo(bytes2) == mo as int) by {
                assert(bytes2[bytes2.len() - 4] == crate::num_codec::u32_be(mo as u32)[0]);
                assert(bytes2[bytes2.len() - 3] == crate::num_codec::u32_be(mo as u32)[1]);
                assert(bytes2[bytes2.len() - 2] == crate::num_codec::u32_be(mo as u32)[2]);
                assert(bytes2[bytes2.len() - 1] == crate::num_codec::u32_be(mo as u32)[3]);
            }
            assert(bytes2.subrange(mo as int, bytes2.len() - 4) =~= region);
            assert(crate::table::sst_bytes_metas(bytes2) == oms);
            assert(crate::table::sst_bytes_wf(bytes2));
            assert(bytes2.subrange(0, mo as int) =~= odata);
        }
        Ok(t)
    }
}

/// Keys recorded in a well-formed run's directory fit the wire format.
proof fn lemma_block_keys_fit(bytes: Seq<u8>, ms: Seq<crate::table::MetaV>, mo: int, i: int)
    requires
        sst_wf_v(bytes, ms, mo),
        mo <= 0xFFFF_FFFF,
        0 <= i < ms.len(),
    ensures
        meta_fits(ms[i]),
{
    assert(sst_block_wf_at(bytes, ms, mo, i));
    let r = block_region(bytes, ms, mo, i);
    let d = crate::block::parsed_data(r);
    let o = crate::block::parsed_offsets(r);
    let es = sst_block_entries_at(bytes, ms, mo, i);
    assert(crate::block::entry_parses_at(d, o, 0));
    assert(crate::block::entry_parses_at(d, o, es.len() - 1));
    assert(es[0].0 == crate::block::key_at(d, o, 0));
    assert(es.last() == es[es.len() - 1]);
    assert(es[es.len() - 1].0 == crate::block::key_at(d, o, es.len() - 1));
    if i < ms.len() - 1 {
        assert(ms[i].0 < ms[ms.len() - 1].0);
    }
}

/// Sealing a block extends the finished region by exactly that block's
/// entries and preserves well-formedness.
#[verifier::rlimit(100)]
proof fn lemma_builder_seal(
    odata: Seq<u8>,
    oms: Seq<crate::table::MetaV>,
    d2: Seq<u8>,
    ms2: Seq<crate::table::MetaV>,
    nm: crate::table::MetaV,
    bd: Seq<u8>,
    bo: Seq<u16>,
    obe: Seq<EntryV>,
)
    requires
        oms.len() == 0 ==> odata.len() == 0,
        oms.len() > 0 ==> sst_wf_v(odata, oms, odata.len() as int),
        oms.len() < 0xFFFF,
        ms2 == oms.push(nm),
        nm.0 == odata.len() as int,
        d2.len() <= 0xFFFF_FFFF,
        d2.subrange(0, odata.len() as int) == odata,
        d2.subrange(odata.len() as int, d2.len() as int) == block_encoding(bd, bo),
        d2.len() > odata.len(),
        bo.len() <= 0xFFFF,
        crate::block::parsed_data(block_encoding(bd, bo)) == bd,
        crate::block::parsed_offsets(block_encoding(bd, bo)) == bo,
        crate::block::block_decodable(block_encoding(bd, bo)),
        crate::block::block_parses(bd, bo),
        obe == crate::block::block_entries(bd, bo),
        entries_sorted(obe),
        obe.len() > 0,
        nm.1 == obe[0].0,
        nm.2 == obe.last().0,
        oms.len() > 0 ==> key_lt(oms.last().2, obe[0].0),
    ensures
        sst_wf_v(d2, ms2, d2.len() as int),
        sst_entries_v(d2, ms2, d2.len() as int) == sst_entries_v(odata, oms, odata.len() as int)
            + obe,
{
    let mo1 = odata.len() as int;
    let mo2 = d2.len() as int;
    let n = oms.len() as int;
    // each old block keeps its region byte for byte
    assert forall|a: int| 0 <= a < n implies block_region(d2, ms2, mo2, a) == block_region(
        odata,
        oms,
        mo1,
        a,
    ) && sst_block_wf_at(d2, ms2, mo2, a) by {
        assert(ms2[a] == oms[a]);
        assert(block_end_at(ms2, mo2, a) == block_end_at(oms, mo1, a)) by {
            if a + 1 < ms2.len() {
                if a + 1 < n {
                    assert(ms2[a + 1] == oms[a + 1]);
                } else {
                    assert(ms2[a + 1] == nm);
                }
            }
        }
        assert(sst_block_wf_at(odata, oms, mo1, a));
        assert(block_region(d2, ms2, mo2, a) =~= block_region(odata, oms, mo1, a)) by {
            assert forall|j: int|
                0 <= j < block_end_at(oms, mo1, a) - oms[a].0 implies block_region(
                d2,
                ms2,
                mo2,
                a,
            )[j] == block_region(odata, oms, mo1, a)[j] by {
                assert(d2[oms[a].0 + j] == d2.subrange(0, mo1)[oms[a].0 + j]);
            }
        }
    }
    // the new block's region is its encoding
    assert(block_region(d2, ms2, mo2, n) == block_encoding(bd, bo)) by {
        assert(block_end_at(ms2, mo2, n) == mo2);
        assert(block_region(d2, ms2, mo2, n) == d2.subrange(mo1, mo2));
    }
    assert(sst_block_entries_at(d2, ms2, mo2, n) == obe);
    assert(sst_block_wf_at(d2, ms2, mo2, n));
    // well-formedness of the extended run
    assert(sst_wf_v(d2, ms2, mo2)) by {
        assert(ms2[0].0 == 0) by {
            if n > 0 {
                assert(ms2[0] == oms[0]);
            } else {
                assert(ms2[0] == nm);
                assert(odata.len() == 0);
            }
        }
        assert forall|x: int, y: int|
            0 <= x < y < ms2.len() implies (#[trigger] ms2[x]).0 < (#[trigger] ms2[y]).0 by {
            if y < n {
                assert(ms2[x] == oms[x]);
                assert(ms2[y] == oms[y]);
            } else {
                assert(ms2[y] == nm);
                assert(ms2[x] == oms[x]);
                if x < n - 1 {
                    assert(oms[x].0 < oms[n - 1].0);
                    assert(oms[n - 1].0 < mo1);
                } else {
                    assert(oms[x].0 < mo1);
                }
            }
        }
        assert forall|i: int| 0 <= i < ms2.len() - 1 implies key_lt(
            (#[trigger] ms2[i]).2,
            ms2[i + 1].1,
        ) by {
            if i < n - 1 {
                assert(ms2[i] == oms[i]);
                assert(ms2[i + 1] == oms[i + 1]);
            } else {
                assert(ms2[i] == oms[n - 1]);
                assert(ms2[i + 1] == nm);
                assert(oms.last() == oms[n - 1]);
            }
        }
    }
    // entry streams concatenate
    lemma_sst_append_entries(odata, oms, mo1, d2, ms2, mo2, 0, obe);
}

/// With regions preserved and one block appended, the entry stream from
/// any block position gains exactly the new block's entries at the end.
proof fn lemma_sst_append_entries(
    odata: Seq<u8>,
    oms: Seq<crate::table::MetaV>,
    mo1: int,
    d2: Seq<u8>,
    ms2: Seq<crate::table::MetaV>,
    mo2: int,
    i: int,
    obe: Seq<EntryV>,
)
    requires
        ms2.len() == oms.len() + 1,
        0 <= i <= oms.len(),
        forall|a: int|
            0 <= a < oms.len() ==> sst_block_entries_at(d2, ms2, mo2, a)
                == sst_block_entries_at(odata, oms, mo1, a),
        sst_block_entries_at(d2, ms2, mo2, oms.len() as int) == obe,
    ensures
        sst_entries_from_v(d2, ms2, mo2, i) == sst_entries_from_v(odata, oms, mo1, i) + obe,
    decreases oms.len() - i,
{
    if i == oms.len() {
        assert(sst_entries_from_v(odata, oms, mo1, i) =~= Seq::<EntryV>::empty());
        assert(sst_entries_from_v(d2, ms2, mo2, i + 1) =~= Seq::<EntryV>::empty());
        assert(sst_entries_from_v(d2, ms2, mo2, i) =~= obe);
        assert(sst_entries_from_v(d2, ms2, mo2, i) =~= sst_entries_from_v(odata, oms, mo1, i)
            + obe);
    } else {
        lemma_sst_append_entries(odata, oms, mo1, d2, ms2, mo2, i + 1, obe);
        assert(sst_entries_from_v(d2, ms2, mo2, i) =~= sst_entries_from_v(odata, oms, mo1, i)
            + obe);
    }
}

/// Extending the file bytes beyond the meta offset does not change any
/// block region, hence neither well-formedness nor the entry stream.
#[verifier::rlimit(60)]
proof fn lemma_sst_extend_bytes(odata: Seq<u8>, oms: Seq<crate::table::MetaV>, bytes2: Seq<u8>)
    requires
        oms.len() > 0,
        sst_wf_v(odata, oms, odata.len() as int),
        bytes2.len() >= odata.len(),
        bytes2.subrange(0, odata.len() as int) == odata,
    ensures
        sst_wf_v(bytes2, oms, odata.len() as int),
        sst_entries_v(bytes2, oms, odata.len() as int) == sst_entries_v(
            odata,
            oms,
            odata.len() as int,
        ),
{
    let mo = odata.len() as int;
    assert forall|a: int| 0 <= a < oms.len() implies block_region(bytes2, oms, mo, a)
        == block_region(odata, oms, mo, a) && sst_block_wf_at(bytes2, oms, mo, a) by {
        assert(sst_block_wf_at(odata, oms, mo, a));
        assert(block_region(bytes2, oms, mo, a) =~= block_region(odata, oms, mo, a)) by {
            assert forall|j: int|
                0 <= j < block_end_at(oms, mo, a) - oms[a].0 implies block_region(
                bytes2,
                oms,
                mo,
                a,
            )[j] == block_region(odata, oms, mo, a)[j] by {
                assert(bytes2[oms[a].0 + j] == bytes2.subrange(0, mo)[oms[a].0 + j]);
            }
        }
    }
    lemma_sst_entries_congruent(odata, bytes2, oms, mo, 0);
}

proof fn lemma_sst_entries_congruent(
    odata: Seq<u8>,
    bytes2: Seq<u8>,
    oms: Seq<crate::table::MetaV>,
    mo: int,
    i: int,
)
    requires
        0 <= i,
        forall|a: int|
            0 <= a < oms.len() ==> sst_block_entries_at(bytes2, oms, mo, a)
                == sst_block_entries_at(odata, oms, mo, a),
    ensures
        sst_entries_from_v(bytes2, oms, mo, i) == sst_entries_from_v(odata, oms, mo, i),
    decreases oms.len() - i,
{
    if i < oms.len() {
        lemma_sst_entries_congruent(odata, bytes2, oms, mo, i + 1);
        assert(sst_entries_from_v(bytes2, oms, mo, i) =~= sst_entries_from_v(odata, oms, mo, i));
    } else {
        assert(sst_entries_from_v(bytes2, oms, mo, i) =~= sst_entries_from_v(odata, oms, mo, i));
    }
}

/// One accepted add appends one entry and keeps the builder well-formed.
proof fn lemma_builder_add_entries(
    o: SsTableBuilder,
    s: SsTableBuilder,
    k: Seq<u8>,
    v: Seq<u8>,
    sealed: bool,
)
    requires
        o.wf(),
        0 < k.len() <= 0xFFFF,
        v.len() <= 0xFFFF,
        o.entries().len() > 0 ==> key_lt(o.entries().last().0, k),
        !sealed ==> s.data@ == o.data@ && s.meta@ == o.meta@ && s.builder.entries()
            == o.builder.entries().push((k, v)),
        sealed ==> s.sealed_entries() == o.entries() && s.builder.entries()
            == Seq::<EntryV>::empty().push((k, v)) && s.meta@.len() > 0,
        s.builder.wf(),
        s.builder.block_size == s.block_size,
        s.block_size == o.block_size,
        s.data@.len() <= 0xFFFF_FFFF,
        s.meta@.len() == 0 ==> s.data@.len() == 0,
        s.meta@.len() > 0 ==> sst_wf_v(s.data@, s.metas(), s.data@.len() as int),
        s.first_key@ == if o.entries().len() == 0 {
            k
        } else {
            o.entries()[0].0
        },
        s.last_key@ == k,
    ensures
        s.wf(),
        s.entries() == o.entries().push((k, v)),
{
    if o.meta@.len() > 0 {
        lemma_last_entry(o.data@, o.metas(), o.data@.len() as int, 0);
    }
    if !sealed {
        assert(s.metas() =~= o.metas());
        assert(s.sealed_entries() =~= o.sealed_entries());
        assert(s.entries() =~= o.entries().push((k, v)));
    } else {
        assert(s.entries() =~= o.entries().push((k, v)));
    }
    let es = s.entries();
    let oes = o.entries();
    assert(es.last() == (k, v));
    crate::entries::lemma_sorted_push(oes, (k, v));
    assert forall|i: int| 0 <= i < es.len() implies 0 < (#[trigger] es[i]).0.len() <= 0xFFFF
        && es[i].1.len() <= 0xFFFF by {
        if i < oes.len() {
            assert(es[i] == oes[i]);
        }
    }
    if s.meta@.len() > 0 && s.builder.entries().len() > 0 {
        // order between the sealed region and the open block
        assert(key_lt(s.metas().last().2, s.builder.entries()[0].0)) by {
            if !sealed {
                if o.builder.entries().len() > 0 {
                    assert(s.builder.entries()[0] == o.builder.entries()[0]);
                    assert(s.metas().last() == o.metas().last());
                } else {
                    // the new entry opens the block; the sealed region holds
                    // all previous entries, whose last key is below k
                    assert(s.builder.entries()[0] == (k, v));
                    assert(o.sealed_entries() == oes);
                    lemma_sealed_last_key(o);
                }
            } else {
                assert(s.builder.entries()[0] == (k, v));
                lemma_last_entry(s.data@, s.metas(), s.data@.len() as int, 0);
                lemma_sealed_last_key_of(s.data@, s.metas(), o.entries());
            }
        }
    }
    if es.len() > 0 {
        assert(s.first_key@ == es[0].0) by {
            if oes.len() > 0 {
                assert(es[0] == oes[0]);
            } else {
                assert(es[0] == (k, v));
            }
        }
    }
}

/// In a builder whose open block is empty, the sealed region's last
/// record key is the last entry's key.
proof fn lemma_sealed_last_key(o: SsTableBuilder)
    requires
        o.wf(),
        o.meta@.len() > 0,
        o.builder.entries().len() == 0,
    ensures
        o.entries().len() > 0,
        o.metas().last().2 == o.entries().last().0,
{
    lemma_last_entry(o.data@, o.metas(), o.data@.len() as int, 0);
    assert(o.entries() =~= o.sealed_entries());
    lemma_sealed_last_key_of(o.data@, o.metas(), o.entries());
}

/// The last record key of a well-formed sealed region equals the last
/// entry's key.
proof fn lemma_sealed_last_key_of(data: Seq<u8>, ms: Seq<crate::table::MetaV>, es: Seq<EntryV>)
    requires
        ms.len() > 0,
        sst_wf_v(data, ms, data.len() as int),
        es == sst_entries_v(data, ms, data.len() as int),
        es.len() > 0,
    ensures
        ms.last().2 == es.last().0,
{
    lemma_last_entry(data, ms, data.len() as int, 0);
}

/// From any block position, the suffix stream ends with the last block's
/// last entry.
proof fn lemma_last_entry(data: Seq<u8>, ms: Seq<crate::table::MetaV>, mo: int, i: int)
    requires
        sst_wf_v(data, ms, mo),
        0 <= i < ms.len(),
    ensures
        sst_entries_from_v(data, ms, mo, i).len() > 0,
        sst_entries_from_v(data, ms, mo, i).last().0 == ms.last().2,
    decreases ms.len() - i,
{
    let bi = sst_block_entries_at(data, ms, mo, i);
    let rest = sst_entries_from_v(data, ms, mo, i + 1);
    assert(sst_block_wf_at(data, ms, mo, i));
    if i == ms.len() - 1 {
        assert(rest =~= Seq::<EntryV>::empty());
        assert(sst_entries_from_v(data, ms, mo, i) =~= bi);
        assert(bi.last().0 == ms[i].2);
        assert(ms.last() == ms[ms.len() - 1]);
    } else {
        lemma_last_entry(data, ms, mo, i + 1);
        assert(sst_entries_from_v(data, ms, mo, i).last() == rest.last());
    }
}

} // verus!
