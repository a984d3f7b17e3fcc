//! Sorted runs: an encoded sequence of blocks plus a trailing directory of
//! per-block metadata records.
//!
//! File layout: `block_0 .. block_{M-1} || meta_region || meta_offset:u32`,
//! where `meta_region = N:u16 || record x N` and each record is
//! `offset:u32 | first_key_len:u32 | first_key | last_key_len:u32 | last_key`.
//! All integers big-endian.

mod builder;
mod iterator;

pub use builder::{entries_enc_size, offsets_sum, SsTableBuilder};
pub use iterator::SsTableIterator;

use vstd::prelude::*;

use crate::block::{append_bytes, copy_bytes};
use crate::byte_order::{key_le, key_lt, lemma_cmp_basics, lemma_key_le_trans};
use crate::entries::{entries_sorted, lemma_sorted_ge_head, EntryV};
use crate::num_codec::{
    lemma_u32_be_round, push_u16_be, push_u32_be, read_u16_at, read_u32_at, u16_be, u16_from_be,
    u32_be, u32_from_be, lemma_u16_be_round,
};

verus! {

/// Spec view of one metadata record: block offset, first key, last key.
pub type MetaV = (int, Seq<u8>, Seq<u8>);

/// Per-block directory record.
pub struct BlockMeta {
    /// Offset of this data block in the file.
    pub offset: usize,
    /// The first key of the data block.
    pub first_key: Vec<u8>,
    /// The last key of the data block.
    pub last_key: Vec<u8>,
}

impl BlockMeta {
    /// The record as a spec value.
    pub open spec fn mv(&self) -> MetaV {
        (self.offset as int, self.first_key@, self.last_key@)
    }
}

/// The spec views of a vector of records.
pub open spec fn metas_view(ms: Seq<BlockMeta>) -> Seq<MetaV> {
    Seq::new(ms.len(), |i: int| ms[i].mv())
}

/// The record's fields fit their 32-bit wire format.
pub open spec fn meta_fits(m: MetaV) -> bool {
    &&& 0 <= m.0 <= 0xFFFF_FFFF
    &&& m.1.len() <= 0xFFFF_FFFF
    &&& m.2.len() <= 0xFFFF_FFFF
}

/// The byte encoding of one record.
pub open spec fn meta_record_enc(m: MetaV) -> Seq<u8> {
    u32_be(m.0 as u32) + u32_be(m.1.len() as u32) + m.1 + u32_be(m.2.len() as u32) + m.2
}

/// The byte encoding of a list of records.
pub open spec fn metas_enc(ms: Seq<MetaV>) -> Seq<u8>
    decreases ms.len(),
{
    if ms.len() == 0 {
        Seq::empty()
    } else {
        meta_record_enc(ms[0]) + metas_enc(ms.skip(1))
    }
}

/// The byte encoding of the whole meta region: count, then records.
pub open spec fn meta_region_enc(ms: Seq<MetaV>) -> Seq<u8> {
    u16_be(ms.len() as u16) + metas_enc(ms)
}

/// The 32-bit big-endian integer at position `p`.
pub open spec fn u32_at(buf: Seq<u8>, p: int) -> int {
    u32_from_be(buf[p], buf[p + 1], buf[p + 2], buf[p + 3])
}

/// The records starting at `pos` parse and consume the buffer exactly.
pub open spec fn metas_decodable_from(buf: Seq<u8>, pos: int, n: int) -> bool
    decreases n,
{
    if n <= 0 {
        pos == buf.len()
    } else {
        let flen = u32_at(buf, pos + 4);
        let llen = u32_at(buf, pos + 8 + flen);
        &&& pos + 12 <= buf.len()
        &&& pos + 8 + flen + 4 <= buf.len()
        &&& pos + 12 + flen + llen <= buf.len()
        &&& metas_decodable_from(buf, pos + 12 + flen + llen, n - 1)
    }
}

/// The records parsed from `pos` on.
pub open spec fn metas_parsed_from(buf: Seq<u8>, pos: int, n: int) -> Seq<MetaV>
    decreases n,
{
    if n <= 0 {
        Seq::empty()
    } else {
        let flen = u32_at(buf, pos + 4);
        let llen = u32_at(buf, pos + 8 + flen);
        let rec = (
            u32_at(buf, pos),
            buf.subrange(pos + 8, pos + 8 + flen),
            buf.subrange(pos + 12 + flen, pos + 12 + flen + llen),
        );
        seq![rec] + metas_parsed_from(buf, pos + 12 + flen + llen, n - 1)
    }
}

/// The whole buffer is a well-formed meta region.
pub open spec fn meta_region_decodable(buf: Seq<u8>) -> bool {
    &&& buf.len() >= 2
    &&& metas_decodable_from(buf, 2, u16_from_be(buf[0], buf[1]))
}

/// The records of a well-formed meta region.
pub open spec fn meta_region_parsed(buf: Seq<u8>) -> Seq<MetaV> {
    metas_parsed_from(buf, 2, u16_from_be(buf[0], buf[1]))
}

/// Record lists decode to themselves: parsing the encoding of `ms` after
/// any prefix recovers `ms` and stops at the end.
pub proof fn lemma_metas_enc_round(buf: Seq<u8>, pos: int, ms: Seq<MetaV>)
    requires
        0 <= pos <= buf.len(),
        buf.subrange(pos, buf.len() as int) == metas_enc(ms),
        forall|i: int| 0 <= i < ms.len() ==> meta_fits(#[trigger] ms[i]),
    ensures
        metas_decodable_from(buf, pos, ms.len() as int),
        metas_parsed_from(buf, pos, ms.len() as int) == ms,
    decreases ms.len(),
{
    assert(buf.subrange(pos, buf.len() as int).len() == buf.len() - pos);
    if ms.len() == 0 {
        assert(metas_enc(ms).len() == 0);
        assert(buf.len() - pos == 0);
    } else {
        let m = ms[0];
        let rec = meta_record_enc(m);
        let flen = m.1.len() as int;
        let llen = m.2.len() as int;
        lemma_u32_be_round(m.0 as u32);
        lemma_u32_be_round(m.1.len() as u32);
        lemma_u32_be_round(m.2.len() as u32);
        assert(rec.len() == 12 + flen + llen);
        assert(metas_enc(ms) == meta_record_enc(ms[0]) + metas_enc(ms.skip(1)));
        assert(buf.len() - pos == rec.len() + metas_enc(ms.skip(1)).len());
        // lay out the bytes of the head record inside buf
        assert forall|j: int| 0 <= j < rec.len() implies buf[pos + j] == rec[j] by {
            assert(buf.subrange(pos, buf.len() as int)[j] == buf[pos + j]);
            assert(metas_enc(ms)[j] == rec[j]);
        }
        let p1 = u32_be(m.0 as u32);
        let p2 = u32_be(m.1.len() as u32);
        let p4 = u32_be(m.2.len() as u32);
        assert forall|j: int| 0 <= j < 4 implies rec[j] == p1[j] && rec[4 + j] == p2[j] && rec[8
            + flen + j] == p4[j] by {
            assert(rec[j] == (p1 + p2 + m.1 + p4 + m.2)[j]);
        }
        assert(u32_at(buf, pos) == m.0) by {
            assert(buf[pos + 0] == rec[0] && buf[pos + 1] == rec[1] && buf[pos + 2] == rec[2]
                && buf[pos + 3] == rec[3]);
        }
        assert(u32_at(buf, pos + 4) == flen) by {
            assert(buf[pos + 4] == rec[4] && buf[pos + 5] == rec[5] && buf[pos + 6] == rec[6]
                && buf[pos + 7] == rec[7]);
        }
        assert(buf.subrange(pos + 8, pos + 8 + flen) =~= m.1) by {
            assert forall|j: int| 0 <= j < flen implies buf.subrange(pos + 8, pos + 8 + flen)[j]
                == m.1[j] by {
                assert(buf[pos + 8 + j] == rec[8 + j]);
                assert(rec[8 + j] == m.1[j]);
            }
        }
        assert(u32_at(buf, pos + 8 + flen) == llen) by {
            assert(buf[pos + 8 + flen + 0] == rec[8 + flen + 0] && buf[pos + 8 + flen + 1] == rec[8
                + flen + 1] && buf[pos + 8 + flen + 2] == rec[8 + flen + 2] && buf[pos + 8 + flen
                + 3] == rec[8 + flen + 3]);
            assert(rec[8 + flen + 2] == p4[2] && rec[8 + flen + 3] == p4[3]) by {
                assert(rec[8 + flen + 2] == (p1 + p2 + m.1 + p4 + m.2)[8 + flen + 2]);
                assert(rec[8 + flen + 3] == (p1 + p2 + m.1 + p4 + m.2)[8 + flen + 3]);
            }
        }
        assert(buf.subrange(pos + 12 + flen, pos + 12 + flen + llen) =~= m.2) by {
            assert forall|j: int| 0 <= j < llen implies buf.subrange(
                pos + 12 + flen,
                pos + 12 + flen + llen,
            )[j] == m.2[j] by {
                assert(buf[pos + 12 + flen + j] == rec[12 + flen + j]);
                assert(rec[12 + flen + j] == (p1 + p2 + m.1 + p4 + m.2)[12 + flen + j]);
                assert(rec[12 + flen + j] == m.2[j]);
            }
        }
        let pos2 = pos + 12 + flen + llen;
        assert(buf.subrange(pos2, buf.len() as int) =~= metas_enc(ms.skip(1))) by {
            assert forall|j: int| 0 <= j < buf.len() - pos2 implies buf.subrange(
                pos2,
                buf.len() as int,
            )[j] == metas_enc(ms.skip(1))[j] by {
                assert(buf.subrange(pos, buf.len() as int)[rec.len() + j] == buf[pos2 + j]);
                assert(metas_enc(ms)[rec.len() + j] == metas_enc(ms.skip(1))[j]);
            }
        }
        assert forall|i: int| 0 <= i < ms.skip(1).len() implies meta_fits(
            #[trigger] ms.skip(1)[i],
        ) by {
            assert(ms.skip(1)[i] == ms[i + 1]);
        }
        lemma_metas_enc_round(buf, pos2, ms.skip(1));
        assert(metas_parsed_from(buf, pos, ms.len() as int) =~= ms) by {
            assert(metas_parsed_from(buf, pos, ms.len() as int) == seq![
                (m.0, m.1, m.2),
            ] + metas_parsed_from(buf, pos2, ms.len() - 1));
            assert((m.0, m.1, m.2) == m);
        }
    }
}

/// The meta region round trip: decoding the encoding of at most 65535
/// records recovers them.
pub proof fn lemma_meta_region_round(ms: Seq<MetaV>)
    requires
        ms.len() <= 0xFFFF,
        forall|i: int| 0 <= i < ms.len() ==> meta_fits(#[trigger] ms[i]),
    ensures
        meta_region_decodable(meta_region_enc(ms)),
        meta_region_parsed(meta_region_enc(ms)) == ms,
{
    let buf = meta_region_enc(ms);
    lemma_u16_be_round(ms.len() as u16);
    assert(buf[0] == u16_be(ms.len() as u16)[0]);
    assert(buf[1] == u16_be(ms.len() as u16)[1]);
    assert(u16_from_be(buf[0], buf[1]) == ms.len() as int);
    assert(buf.subrange(2, buf.len() as int) =~= metas_enc(ms));
    lemma_metas_enc_round(buf, 2, ms);
}

impl BlockMeta {
    /// Encode the records to `buf`: a 16-bit count, then each record.
    pub fn encode_block_meta(block_meta: &Vec<BlockMeta>, buf: &mut Vec<u8>)
        requires
            block_meta@.len() <= 0xFFFF,
            forall|i: int| 0 <= i < block_meta@.len() ==> meta_fits(metas_view(block_meta@)[i]),
        ensures
            final(buf)@ == old(buf)@ + meta_region_enc(metas_view(block_meta@)),
    {
        let ghost ms = metas_view(block_meta@);
        let n: usize = block_meta.len();
        push_u16_be(buf, n as u16);
        let mut i: usize = 0;
        proof {
            assert(metas_enc(ms.take(0)) == Seq::<u8>::empty());
            assert(buf@ =~= old(buf)@ + u16_be(n as u16) + metas_enc(ms.take(0)));
        }
        while i < n
            invariant
                i <= n,
                n == block_meta@.len(),
                n <= 0xFFFF,
                ms == metas_view(block_meta@),
                forall|k: int| 0 <= k < n ==> meta_fits(#[trigger] ms[k]),
                buf@ == old(buf)@ + u16_be(n as u16) + metas_enc(ms.take(i as int)),
            decreases n - i,
        {
            let m = &block_meta[i];
            proof {
                assert(ms[i as int] == m.mv());
                assert(meta_fits(ms[i as int]));
            }
            push_u32_be(buf, m.offset as u32);
            push_u32_be(buf, m.first_key.len() as u32);
            append_bytes(buf, m.first_key.as_slice());
            push_u32_be(buf, m.last_key.len() as u32);
            append_bytes(buf, m.last_key.as_slice());
            proof {
                lemma_metas_enc_snoc(ms.take(i as int), ms[i as int]);
                assert(ms.take(i as int).push(ms[i as int]) =~= ms.take(i + 1));
                assert(buf@ =~= old(buf)@ + u16_be(n as u16) + metas_enc(ms.take(i + 1)));
            }
            i = i + 1;
        }
        proof {
            assert(ms.take(n as int) =~= ms);
            assert(buf@ =~= old(buf)@ + meta_region_enc(ms));
        }
    }

    /// Decode a meta region. Succeeds exactly when the buffer is a
    /// well-formed region consumed in full; else the format is corrupt.
    pub fn decode_block_meta(buf: &[u8]) -> (r: Result<Vec<BlockMeta>, crate::errors::LsmError>)
        ensures
            r matches Ok(ms) ==> meta_region_decodable(buf@) && metas_view(ms@)
                == meta_region_parsed(buf@),
            r is Err ==> !meta_region_decodable(buf@),
            r is Err ==> r == Err::<Vec<BlockMeta>, crate::errors::LsmError>(
                crate::errors::LsmError::CorruptFormat,
            ),
    {
        let len: usize = buf.len();
        if len < 2 {
            return Err(crate::errors::LsmError::CorruptFormat);
        }
        let n: usize = read_u16_at(buf, 0) as usize;
        let mut metas: Vec<BlockMeta> = Vec::new();
        let mut pos: usize = 2;
        let mut i: usize = 0;
        while i < n
            invariant
                i <= n,
                len == buf@.len(),
                2 <= pos <= len,
                n == u16_from_be(buf@[0], buf@[1]),
                metas@.len() == i as int,
                metas_decodable_from(buf@, pos as int, (n - i) as int) ==> metas_decodable_from(
                    buf@,
                    2,
                    n as int,
                ),
                metas_decodable_from(buf@, 2, n as int) ==> metas_decodable_from(
                    buf@,
                    pos as int,
                    (n - i) as int,
                ),
                metas_decodable_from(buf@, 2, n as int) ==> metas_view(metas@)
                    + metas_parsed_from(buf@, pos as int, (n - i) as int) == metas_parsed_from(
                    buf@,
                    2,
                    n as int,
                ),
            decreases n - i,
        {
            if len < 12 || pos > len - 12 {
                return Err(crate::errors::LsmError::CorruptFormat);
            }
            let offset: usize = read_u32_at(buf, pos) as usize;
            let flen: usize = read_u32_at(buf, pos + 4) as usize;
            if flen > len - (pos + 12) {
                return Err(crate::errors::LsmError::CorruptFormat);
            }
            let first_key: Vec<u8> = copy_bytes(
                vstd::slice::slice_subrange(buf, pos + 8, pos + 8 + flen),
            );
            let llen: usize = read_u32_at(buf, pos + 8 + flen) as usize;
            if llen > len - (pos + 12 + flen) {
                return Err(crate::errors::LsmError::CorruptFormat);
            }
            let last_key: Vec<u8> = copy_bytes(
                vstd::slice::slice_subrange(buf, pos + 12 + flen, pos + 12 + flen + llen),
            );
            let ghost old_metas = metas@;
            let ghost old_pos = pos as int;
            metas.push(BlockMeta { offset, first_key, last_key });
            pos = pos + 12 + flen + llen;
            proof {
                assert(u32_at(buf@, old_pos + 4) == flen as int);
                assert(u32_at(buf@, old_pos + 8 + flen) == llen as int);
                if metas_decodable_from(buf@, pos as int, (n - i - 1) as int) {
                    assert(metas_decodable_from(buf@, old_pos, (n - i) as int));
                }
                assert(metas_view(metas@) =~= metas_view(old_metas).push(
                    metas@[metas@.len() - 1].mv(),
                ));
                if metas_decodable_from(buf@, 2, n as int) {
                    assert(metas_decodable_from(buf@, old_pos, (n - i) as int));
                    assert(metas_parsed_from(buf@, old_pos, (n - i) as int) == seq![
                        metas@[metas@.len() - 1].mv(),
                    ] + metas_parsed_from(buf@, pos as int, (n - i - 1) as int));
                    assert(metas_view(metas@) + metas_parsed_from(
                        buf@,
                        pos as int,
                        (n - i - 1) as int,
                    ) =~= metas_view(old_metas) + metas_parsed_from(
                        buf@,
                        old_pos,
                        (n - i) as int,
                    ));
                }
            }
            i = i + 1;
        }
        if pos != len {
            return Err(crate::errors::LsmError::CorruptFormat);
        }
        proof {
            assert(metas_decodable_from(buf@, pos as int, 0));
            assert(metas_view(metas@) + metas_parsed_from(buf@, pos as int, 0) =~= metas_view(
                metas@,
            ));
        }
        Ok(metas)
    }
}

// ---------------------------------------------------------------------
// The sorted run itself
// ---------------------------------------------------------------------

/// Declares `moka::sync::Cache` to the verifier; values of it are opaque,
/// and every block taken out of a cache is re-validated before use.
#[verifier::external_type_specification]
#[verifier::external_body]
#[verifier::reject_recursive_types(K)]
#[verifier::reject_recursive_types(V)]
#[verifier::reject_recursive_types(S)]
pub struct ExMokaCache<K, V, S>(moka::sync::Cache<K, V, S>);

/// The block cache: a keyed memoizer from (run id, block index) to blocks.
pub type BlockCache = moka::sync::Cache<(usize, usize), std::sync::Arc<crate::block::Block>>;

/// Relies on `moka::sync::Cache::new`.
#[verifier::external_body]
pub fn cache_new(max_capacity: u64) -> (r: BlockCache) {
    moka::sync::Cache::new(max_capacity)
}

/// Relies on `std::sync::Arc::clone`: the clone is the same reference.
#[verifier::external_body]
pub fn arc_clone_table(v: &std::sync::Arc<SsTable>) -> (r: std::sync::Arc<SsTable>)
    ensures
        r == *v,
{
    std::sync::Arc::clone(v)
}

/// Relies on `moka::sync::Cache::clone`: the clone shares the same cache.
/// Nothing is claimed of the result; every cached block is re-validated.
#[verifier::external_body]
pub fn cache_clone(c: &BlockCache) -> (r: BlockCache) {
    c.clone()
}

/// Relies on `moka::sync::Cache::try_get_with`: the memoized block for
/// the key, loading and inserting it on a miss; concurrent misses on one
/// key coalesce into a single load. Nothing is claimed of the result; the
/// caller re-validates whatever comes back.
#[verifier::external_body]
fn cache_get_or_load(c: &BlockCache, id: usize, idx: usize, t: &SsTable) -> (r: Option<
    std::sync::Arc<crate::block::Block>,
>) {
    c.try_get_with((id, idx), || t.read_block(idx).map(std::sync::Arc::new)).ok()
}

/// End of block `i` in the file: the next block's offset, or the start of
/// the meta region for the last block.
pub open spec fn block_end_at(ms: Seq<MetaV>, mo: int, i: int) -> int {
    if i + 1 < ms.len() {
        ms[i + 1].0
    } else {
        mo
    }
}

/// The file bytes of block `i`.
pub open spec fn block_region(bytes: Seq<u8>, ms: Seq<MetaV>, mo: int, i: int) -> Seq<u8> {
    bytes.subrange(ms[i].0, block_end_at(ms, mo, i))
}

/// The entries of block `i`, decoded from its file region.
pub open spec fn sst_block_entries_at(bytes: Seq<u8>, ms: Seq<MetaV>, mo: int, i: int) -> Seq<
    EntryV,
> {
    let r = block_region(bytes, ms, mo, i);
    crate::block::block_entries(
        crate::block::parsed_data(r),
        crate::block::parsed_offsets(r),
    )
}

/// Block `i` is in bounds, decodes to a sorted non-empty block, and its
/// directory record carries its true first and last keys.
pub open spec fn sst_block_wf_at(bytes: Seq<u8>, ms: Seq<MetaV>, mo: int, i: int) -> bool {
    let r = block_region(bytes, ms, mo, i);
    let es = sst_block_entries_at(bytes, ms, mo, i);
    &&& 0 <= ms[i].0
    &&& ms[i].0 < block_end_at(ms, mo, i)
    &&& block_end_at(ms, mo, i) <= bytes.len()
    &&& crate::block::block_decodable(r)
    &&& crate::block::block_parses(
        crate::block::parsed_data(r),
        crate::block::parsed_offsets(r),
    )
    &&& entries_sorted(es)
    &&& es.len() > 0
    &&& ms[i].1 == es[0].0
    &&& ms[i].2 == es.last().0
}

/// Well-formedness of a sorted run over its views: at least one block,
/// blocks tile the file in offset order below the meta region, each block
/// is well formed, and key ranges of consecutive blocks do not touch.
pub open spec fn sst_wf_v(bytes: Seq<u8>, ms: Seq<MetaV>, mo: int) -> bool {
    &&& 1 <= ms.len() <= 0xFFFF
    &&& 0 <= mo <= bytes.len()
    &&& ms[0].0 == 0
    &&& forall|i: int, j: int| 0 <= i < j < ms.len() ==> (#[trigger] ms[i]).0 < (#[trigger] ms[j]).0
    &&& ms[ms.len() - 1].0 < mo
    &&& forall|i: int| 0 <= i < ms.len() ==> sst_block_wf_at(bytes, ms, mo, i)
    &&& forall|i: int| 0 <= i < ms.len() - 1 ==> key_lt((#[trigger] ms[i]).2, ms[i + 1].1)
}

/// All entries from block `i` to the end of the run.
pub open spec fn sst_entries_from_v(bytes: Seq<u8>, ms: Seq<MetaV>, mo: int, i: int) -> Seq<EntryV>
    decreases ms.len() - i,
{
    if i < 0 || i >= ms.len() {
        Seq::empty()
    } else {
        sst_block_entries_at(bytes, ms, mo, i) + sst_entries_from_v(bytes, ms, mo, i + 1)
    }
}

/// All entries of the run, in file order.
pub open spec fn sst_entries_v(bytes: Seq<u8>, ms: Seq<MetaV>, mo: int) -> Seq<EntryV> {
    sst_entries_from_v(bytes, ms, mo, 0)
}

/// Key facts of a well-formed run: within a block the record keys bracket
/// the entries, and across blocks every key of a later block sits strictly
/// above every record key of an earlier one.
pub proof fn lemma_sst_block_keys(bytes: Seq<u8>, ms: Seq<MetaV>, mo: int, i: int, j: int)
    requires
        sst_wf_v(bytes, ms, mo),
        0 <= i < ms.len(),
        0 <= j < sst_block_entries_at(bytes, ms, mo, i).len(),
    ensures
        key_le(ms[i].1, sst_block_entries_at(bytes, ms, mo, i)[j].0),
        key_le(sst_block_entries_at(bytes, ms, mo, i)[j].0, ms[i].2),
{
    let es = sst_block_entries_at(bytes, ms, mo, i);
    assert(sst_block_wf_at(bytes, ms, mo, i));
    lemma_sorted_ge_head(es, j);
    if j == es.len() - 1 {
        lemma_cmp_basics(es[j].0, es[j].0);
    } else {
        assert(key_lt(es[j].0, es[es.len() - 1].0));
    }
}

/// Entry streams of later blocks sit strictly above an earlier record's
/// last key.
pub proof fn lemma_sst_cross_block(bytes: Seq<u8>, ms: Seq<MetaV>, mo: int, i: int, j: int, e: int)
    requires
        sst_wf_v(bytes, ms, mo),
        0 <= i < j < ms.len(),
        0 <= e < sst_block_entries_at(bytes, ms, mo, j).len(),
    ensures
        key_lt(ms[i].2, sst_block_entries_at(bytes, ms, mo, j)[e].0),
    decreases j - i,
{
    lemma_sst_block_keys(bytes, ms, mo, j, e);
    if i + 1 == j {
        assert(key_lt(ms[i].2, ms[j].1));
        lemma_key_le_trans(ms[i].2, ms[j].1, sst_block_entries_at(bytes, ms, mo, j)[e].0);
    } else {
        lemma_sst_cross_block(bytes, ms, mo, i + 1, j, e);
        assert(key_lt(ms[i].2, ms[i + 1].1));
        assert(sst_block_wf_at(bytes, ms, mo, i + 1));
        let es1 = sst_block_entries_at(bytes, ms, mo, i + 1);
        lemma_sst_block_keys(bytes, ms, mo, i + 1, 0);
        // ms[i].2 < ms[i+1].1 <= ms[i+1].2 < target
        lemma_key_le_trans(ms[i + 1].1, es1[0].0, ms[i + 1].2);
        lemma_key_le_trans(ms[i].2, ms[i + 1].1, ms[i + 1].2);
        lemma_key_le_trans(ms[i].2, ms[i + 1].2, sst_block_entries_at(bytes, ms, mo, j)[e].0);
    }
}

/// The whole run reads out sorted, and every key of the suffix from block
/// `i` is bracketed by block `i`'s first record key and the run's end.
pub proof fn lemma_sst_from_sorted(bytes: Seq<u8>, ms: Seq<MetaV>, mo: int, i: int)
    requires
        sst_wf_v(bytes, ms, mo),
        0 <= i,
    ensures
        entries_sorted(sst_entries_from_v(bytes, ms, mo, i)),
        i < ms.len() ==> forall|j: int|
            0 <= j < sst_entries_from_v(bytes, ms, mo, i).len() ==> key_le(
                ms[i].1,
                (#[trigger] sst_entries_from_v(bytes, ms, mo, i)[j]).0,
            ),
    decreases ms.len() - i,
{
    if i >= ms.len() {
    } else {
        lemma_sst_from_sorted(bytes, ms, mo, i + 1);
        let bi = sst_block_entries_at(bytes, ms, mo, i);
        let rest = sst_entries_from_v(bytes, ms, mo, i + 1);
        let whole = sst_entries_from_v(bytes, ms, mo, i);
        assert(sst_block_wf_at(bytes, ms, mo, i));
        assert(whole == bi + rest);
        assert forall|a: int, b: int| 0 <= a < b < whole.len() implies key_lt(
            whole[a].0,
            whole[b].0,
        ) by {
            if b < bi.len() {
                assert(whole[a] == bi[a]);
                assert(whole[b] == bi[b]);
            } else if a >= bi.len() {
                assert(whole[a] == rest[a - bi.len()]);
                assert(whole[b] == rest[b - bi.len()]);
            } else {
                assert(whole[a] == bi[a]);
                assert(whole[b] == rest[b - bi.len()]);
                // bi[a].0 <= ms[i].2 < rest key
                lemma_sst_block_keys(bytes, ms, mo, i, a);
                assert(i + 1 < ms.len());
                lemma_within_suffix(bytes, ms, mo, i + 1, b - bi.len());
                let t = rest[b - bi.len()].0;
                assert(key_lt(ms[i].2, t));
                lemma_key_le_trans(bi[a].0, ms[i].2, t);
            }
        }
        assert forall|j: int| 0 <= j < whole.len() implies key_le(
            ms[i].1,
            (#[trigger] whole[j]).0,
        ) by {
            if j < bi.len() {
                assert(whole[j] == bi[j]);
                lemma_sst_block_keys(bytes, ms, mo, i, j);
            } else {
                assert(whole[j] == rest[j - bi.len()]);
                lemma_within_suffix(bytes, ms, mo, i + 1, j - bi.len());
                assert(key_lt(ms[i].2, rest[j - bi.len()].0));
                lemma_sst_block_keys(bytes, ms, mo, i, 0);
                lemma_key_le_trans(ms[i].1, ms[i].2, rest[j - bi.len()].0);
            }
        }
    }
}

/// Every entry of the suffix starting at block `b` belongs to some block
/// at or after `b`, so its key sits strictly above `ms[b - 1].2`.
pub proof fn lemma_within_suffix(bytes: Seq<u8>, ms: Seq<MetaV>, mo: int, b: int, j: int)
    requires
        sst_wf_v(bytes, ms, mo),
        1 <= b,
        0 <= j < sst_entries_from_v(bytes, ms, mo, b).len(),
    ensures
        key_lt(ms[b - 1].2, sst_entries_from_v(bytes, ms, mo, b)[j].0),
    decreases ms.len() - b,
{
    if b >= ms.len() {
    } else {
        let bi = sst_block_entries_at(bytes, ms, mo, b);
        let rest = sst_entries_from_v(bytes, ms, mo, b + 1);
        if j < bi.len() {
            assert(sst_entries_from_v(bytes, ms, mo, b)[j] == bi[j]);
            lemma_sst_cross_block(bytes, ms, mo, b - 1, b, j);
        } else {
            assert(sst_entries_from_v(bytes, ms, mo, b)[j] == rest[j - bi.len()]);
            lemma_within_suffix(bytes, ms, mo, b + 1, j - bi.len());
            assert(key_lt(ms[b].2, rest[j - bi.len()].0));
            assert(key_lt(ms[b - 1].2, ms[b].1));
            assert(sst_block_wf_at(bytes, ms, mo, b));
            lemma_sst_block_keys(bytes, ms, mo, b, 0);
            lemma_key_le_trans(ms[b].1, bi[0].0, ms[b].2);
            lemma_key_le_trans(ms[b - 1].2, ms[b].1, ms[b].2);
            lemma_key_le_trans(ms[b - 1].2, ms[b].2, rest[j - bi.len()].0);
        }
    }
}

/// A well-formed run holds at least one entry per block.
pub proof fn lemma_sst_entries_count(bytes: Seq<u8>, ms: Seq<MetaV>, mo: int, i: int)
    requires
        sst_wf_v(bytes, ms, mo),
        0 <= i,
    ensures
        sst_entries_from_v(bytes, ms, mo, i).len() >= ms.len() - i,
    decreases ms.len() - i,
{
    if i < ms.len() {
        assert(sst_block_wf_at(bytes, ms, mo, i));
        lemma_sst_entries_count(bytes, ms, mo, i + 1);
    }
}

/// An SSTable: one sorted run, held with its file bytes and directory.
pub struct SsTable {
    /// The encoded file, blocks first, then the meta region and trailing
    /// meta offset.
    pub file_bytes: Vec<u8>,
    /// The meta blocks that hold info for data blocks.
    pub block_meta: Vec<BlockMeta>,
    /// Where the meta region begins in `file_bytes`.
    pub block_meta_offset: usize,
    /// Run identifier.
    pub id: usize,
    /// Shared cache of decoded blocks, if one is attached.
    pub block_cache: Option<BlockCache>,
    /// First key of the run.
    pub first_key: Vec<u8>,
    /// Last key of the run.
    pub last_key: Vec<u8>,
    /// Maximum timestamp; unused at this tier.
    pub max_ts: u64,
}

impl SsTable {
    /// The directory records as spec values.
    pub open spec fn metas(&self) -> Seq<MetaV> {
        metas_view(self.block_meta@)
    }

    /// Well-formedness of the run plus its cached first and last keys.
    pub open spec fn wf(&self) -> bool {
        &&& sst_wf_v(self.file_bytes@, self.metas(), self.block_meta_offset as int)
        &&& self.first_key@ == self.metas()[0].1
        &&& self.last_key@ == self.metas()[self.metas().len() - 1].2
    }

    /// All entries of the run, in key order.
    pub open spec fn entries(&self) -> Seq<EntryV> {
        sst_entries_v(self.file_bytes@, self.metas(), self.block_meta_offset as int)
    }

    /// The entries of block `i`.
    pub open spec fn block_entries_at(&self, i: int) -> Seq<EntryV> {
        sst_block_entries_at(self.file_bytes@, self.metas(), self.block_meta_offset as int, i)
    }

    /// Get number of data blocks.
    pub fn num_of_blocks(&self) -> (r: usize)
        ensures
            r == self.metas().len(),
    {
        self.block_meta.len()
    }

    /// The first key of the run.
    pub fn first_key(&self) -> (r: &Vec<u8>)
        ensures
            r == self.first_key,
    {
        &self.first_key
    }

    /// The last key of the run.
    pub fn last_key(&self) -> (r: &Vec<u8>)
        ensures
            r == self.last_key,
    {
        &self.last_key
    }

    /// The file size in bytes.
    pub fn table_size(&self) -> (r: u64)
        ensures
            r == self.file_bytes@.len(),
    {
        self.file_bytes.len() as u64
    }

    /// The run identifier.
    pub fn sst_id(&self) -> (r: usize)
        ensures
            r == self.id,
    {
        self.id
    }

    /// The maximum timestamp stored in this run.
    pub fn max_ts(&self) -> (r: u64)
        ensures
            r == self.max_ts,
    {
        self.max_ts
    }

    /// Read and decode block `block_idx` from the file bytes. Succeeds
    /// exactly on indexes below the block count.
    pub fn read_block(&self, block_idx: usize) -> (r: Result<
        crate::block::Block,
        crate::errors::LsmError,
    >)
        requires
            self.wf(),
        ensures
            r is Ok <==> (block_idx as int) < self.metas().len(),
            r matches Ok(b) ==> b.wf() && b.entries() == self.block_entries_at(block_idx as int),
            r is Err ==> r == Err::<crate::block::Block, crate::errors::LsmError>(
                crate::errors::LsmError::OutOfRange,
            ),
    {
        let n: usize = self.block_meta.len();
        if block_idx >= n {
            return Err(crate::errors::LsmError::OutOfRange);
        }
        proof {
            assert(sst_block_wf_at(
                self.file_bytes@,
                self.metas(),
                self.block_meta_offset as int,
                block_idx as int,
            ));
            assert(self.metas()[block_idx as int] == self.block_meta@[block_idx as int].mv());
            if block_idx + 1 < n {
                assert(self.metas()[block_idx as int + 1] == self.block_meta@[block_idx as int
                    + 1].mv());
            }
        }
        let start: usize = self.block_meta[block_idx].offset;
        let end: usize = if block_idx + 1 < n {
            self.block_meta[block_idx + 1].offset
        } else {
            self.block_meta_offset
        };
        let region: &[u8] = vstd::slice::slice_subrange(self.file_bytes.as_slice(), start, end);
        let b = crate::block::Block::decode(region);
        Ok(b)
    }

    /// A block re-encodes byte for byte to block `block_idx`'s file
    /// region, which pins its entries to that block.
    fn block_matches_region(&self, b: &crate::block::Block, block_idx: usize) -> (r: bool)
        requires
            self.wf(),
            (block_idx as int) < self.metas().len(),
        ensures
            r ==> b.wf() && b.entries() == self.block_entries_at(block_idx as int),
    {
        proof {
            assert(sst_block_wf_at(
                self.file_bytes@,
                self.metas(),
                self.block_meta_offset as int,
                block_idx as int,
            ));
            assert(self.metas()[block_idx as int] == self.block_meta@[block_idx as int].mv());
            if block_idx + 1 < self.block_meta@.len() {
                assert(self.metas()[block_idx as int + 1] == self.block_meta@[block_idx as int
                    + 1].mv());
            }
        }
        if b.offsets.len() > 0xFFFF {
            return false;
        }
        let n: usize = self.block_meta.len();
        let start: usize = self.block_meta[block_idx].offset;
        let end: usize = if block_idx + 1 < n {
            self.block_meta[block_idx + 1].offset
        } else {
            self.block_meta_offset
        };
        let region: &[u8] = vstd::slice::slice_subrange(self.file_bytes.as_slice(), start, end);
        let enc = b.encode();
        let same = crate::byte_order::key_eq(enc.as_slice(), region);
        proof {
            if same {
                crate::block::lemma_block_round_trip(b.data@, b.offsets@);
                assert(block_region(
                    self.file_bytes@,
                    self.metas(),
                    self.block_meta_offset as int,
                    block_idx as int,
                ) == region@);
                assert(b.entries() == self.block_entries_at(block_idx as int));
            }
        }
        same
    }

    /// Read block `block_idx`, consulting the attached cache first.
    /// Whatever the cache returns is re-validated against the file bytes,
    /// so the result is always exactly block `block_idx`.
    pub fn read_block_cached(&self, block_idx: usize) -> (r: Result<
        crate::block::Block,
        crate::errors::LsmError,
    >)
        requires
            self.wf(),
        ensures
            r is Ok <==> (block_idx as int) < self.metas().len(),
            r matches Ok(b) ==> b.wf() && b.entries() == self.block_entries_at(block_idx as int),
            r is Err ==> r == Err::<crate::block::Block, crate::errors::LsmError>(
                crate::errors::LsmError::OutOfRange,
            ),
    {
        match &self.block_cache {
            Option::None => self.read_block(block_idx),
            Option::Some(c) => {
                if block_idx >= self.block_meta.len() {
                    return Err(crate::errors::LsmError::OutOfRange);
                }
                match cache_get_or_load(c, self.id, block_idx, self) {
                    Option::Some(cached) => {
                        let b = (&*cached).duplicate();
                        if self.block_matches_region(&b, block_idx) {
                            Ok(b)
                        } else {
                            self.read_block(block_idx)
                        }
                    },
                    Option::None => self.read_block(block_idx),
                }
            },
        }
    }

    /// The index of the first block whose last key is at or above `key`,
    /// or the block count when every block ends below `key`.
    pub fn find_block_idx(&self, key: &[u8]) -> (r: usize)
        requires
            self.wf(),
        ensures
            r <= self.metas().len(),
            forall|i: int| 0 <= i < r ==> key_lt((#[trigger] self.metas()[i]).2, key@),
            (r as int) < self.metas().len() ==> key_le(key@, self.metas()[r as int].2),
    {
        let ghost ms = self.metas();
        let mut lo: usize = 0;
        let mut hi: usize = self.block_meta.len();
        while lo < hi
            invariant
                self.wf(),
                ms == self.metas(),
                lo <= hi <= ms.len(),
                forall|i: int| 0 <= i < lo ==> key_lt((#[trigger] ms[i]).2, key@),
                forall|i: int| hi <= i < ms.len() ==> key_le(key@, (#[trigger] ms[i]).2),
            decreases hi - lo,
        {
            let mid: usize = lo + (hi - lo) / 2;
            proof {
                assert(ms[mid as int] == self.block_meta@[mid as int].mv());
            }
            let mid_last: &Vec<u8> = &self.block_meta[mid].last_key;
            if crate::byte_order::key_less(mid_last.as_slice(), key) {
                proof {
                    assert forall|i: int| 0 <= i < mid + 1 implies key_lt(
                        (#[trigger] ms[i]).2,
                        key@,
                    ) by {
                        if i < mid {
                            lemma_sst_last_keys_sorted(
                                self.file_bytes@,
                                ms,
                                self.block_meta_offset as int,
                                i,
                                mid as int,
                            );
                            lemma_key_le_trans(ms[i].2, ms[mid as int].2, key@);
                        }
                    }
                }
                lo = mid + 1;
            } else {
                proof {
                    lemma_cmp_basics(ms[mid as int].2, key@);
                    lemma_cmp_basics(key@, ms[mid as int].2);
                    assert forall|i: int| mid <= i < ms.len() implies key_le(
                        key@,
                        (#[trigger] ms[i]).2,
                    ) by {
                        if i > mid {
                            lemma_sst_last_keys_sorted(
                                self.file_bytes@,
                                ms,
                                self.block_meta_offset as int,
                                mid as int,
                                i,
                            );
                            lemma_key_le_trans(key@, ms[mid as int].2, ms[i].2);
                        }
                    }
                }
                hi = mid;
            }
        }
        lo
    }

    /// Assemble and validate a run from raw file bytes. Succeeds exactly
    /// when the bytes are a well-formed run; any defect is a corrupt
    /// format.
    pub fn open(id: usize, block_cache: Option<BlockCache>, file_bytes: Vec<u8>) -> (r: Result<
        SsTable,
        crate::errors::LsmError,
    >)
        ensures
            r is Ok <==> sst_bytes_wf(file_bytes@),
            r matches Ok(t) ==> t.wf() && t.file_bytes@ == file_bytes@ && t.id == id && t.metas()
                == sst_bytes_metas(file_bytes@) && t.block_meta_offset as int == sst_bytes_mo(
                file_bytes@,
            ),
            r is Err ==> r == Err::<SsTable, crate::errors::LsmError>(
                crate::errors::LsmError::CorruptFormat,
            ),
    {
        let len: usize = file_bytes.len();
        if len < 6 {
            return Err(crate::errors::LsmError::CorruptFormat);
        }
        let mo: usize = read_u32_at(file_bytes.as_slice(), len - 4) as usize;
        if mo > len - 4 {
            return Err(crate::errors::LsmError::CorruptFormat);
        }
        let region: &[u8] = vstd::slice::slice_subrange(file_bytes.as_slice(), mo, len - 4);
        let block_meta: Vec<BlockMeta> = match BlockMeta::decode_block_meta(region) {
            Ok(ms) => ms,
            Err(_) => {
                return Err(crate::errors::LsmError::CorruptFormat);
            },
        };
        let ghost ms = metas_view(block_meta@);
        proof {
            assert(mo as int == sst_bytes_mo(file_bytes@));
            assert(region@ == file_bytes@.subrange(sst_bytes_mo(file_bytes@), file_bytes@.len() - 4));
            assert(ms == sst_bytes_metas(file_bytes@));
        }
        let n: usize = block_meta.len();
        if n == 0 || n > 0xFFFF {
            return Err(crate::errors::LsmError::CorruptFormat);
        }
        if block_meta[0].offset != 0 {
            return Err(crate::errors::LsmError::CorruptFormat);
        }
        // offsets strictly ascend and stay below the meta region
        let mut i: usize = 0;
        while i < n
            invariant
                i <= n,
                n == block_meta@.len(),
                ms == metas_view(block_meta@),
                mo <= len - 4,
                len == file_bytes@.len(),
                mo as int == sst_bytes_mo(file_bytes@),
                ms == sst_bytes_metas(file_bytes@),
                forall|a: int| 0 <= a < i && a < n - 1 ==> (#[trigger] ms[a]).0 < ms[a + 1].0,
                forall|a: int| 0 <= a < i ==> (#[trigger] ms[a]).0 < mo,
            decreases n - i,
        {
            proof {
                assert(ms[i as int] == block_meta@[i as int].mv());
                if i + 1 < n {
                    assert(ms[i as int + 1] == block_meta@[i as int + 1].mv());
                }
            }
            if block_meta[i].offset >= mo {
                proof {
                    lemma_not_sst_wf_offset(file_bytes@, ms, mo as int, i as int);
                }
                return Err(crate::errors::LsmError::CorruptFormat);
            }
            if i + 1 < n {
                if block_meta[i + 1].offset <= block_meta[i].offset {
                    proof {
                        assert(!sst_wf_v(file_bytes@, ms, mo as int));
                    }
                    return Err(crate::errors::LsmError::CorruptFormat);
                }
            }
            i = i + 1;
        }
        proof {
            lemma_adjacent_offsets(ms);
        }
        // validate each block and its record
        let mut b: usize = 0;
        while b < n
            invariant
                b <= n,
                n == block_meta@.len(),
                1 <= n <= 0xFFFF,
                ms == metas_view(block_meta@),
                mo <= len - 4,
                len == file_bytes@.len(),
                mo as int == sst_bytes_mo(file_bytes@),
                ms == sst_bytes_metas(file_bytes@),
                ms[0].0 == 0,
                forall|x: int, y: int|
                    0 <= x < y < ms.len() ==> (#[trigger] ms[x]).0 < (#[trigger] ms[y]).0,
                forall|a: int| 0 <= a < n ==> (#[trigger] ms[a]).0 < mo,
                forall|a: int| 0 <= a < b ==> sst_block_wf_at(file_bytes@, ms, mo as int, a),
                forall|a: int| 0 <= a < b && a < n - 1 ==> key_lt((#[trigger] ms[a]).2, ms[a + 1].1),
            decreases n - b,
        {
            proof {
                assert(ms[b as int] == block_meta@[b as int].mv());
                if b + 1 < n {
                    assert(ms[b as int + 1] == block_meta@[b as int + 1].mv());
                }
            }
            let start: usize = block_meta[b].offset;
            let end: usize = if b + 1 < n {
                block_meta[b + 1].offset
            } else {
                mo
            };
            proof {
                assert(block_end_at(ms, mo as int, b as int) == end as int);
                assert(block_region(file_bytes@, ms, mo as int, b as int) == file_bytes@.subrange(
                    start as int,
                    end as int,
                ));
            }
            if end - start < 2 {
                proof {
                    assert(block_region(file_bytes@, ms, mo as int, b as int).len() < 2);
                    assert(!sst_block_wf_at(file_bytes@, ms, mo as int, b as int));
                }
                return Err(crate::errors::LsmError::CorruptFormat);
            }
            let region: &[u8] = vstd::slice::slice_subrange(file_bytes.as_slice(), start, end);
            proof {
                assert(block_region(file_bytes@, ms, mo as int, b as int) == region@);
            }
            let cnt: usize = read_u16_at(region, end - start - 2) as usize;
            if end - start < 2 + 2 * cnt {
                proof {
                    assert(cnt as int == crate::block::parsed_count(region@));
                    assert(!crate::block::block_decodable(region@));
                    assert(!sst_block_wf_at(file_bytes@, ms, mo as int, b as int));
                }
                return Err(crate::errors::LsmError::CorruptFormat);
            }
            let blk = crate::block::Block::decode(region);
            let ghost es = sst_block_entries_at(file_bytes@, ms, mo as int, b as int);
            proof {
                assert(blk.entries() == es);
            }
            if !blk.check_well_formed() {
                proof {
                    assert(!sst_block_wf_at(file_bytes@, ms, mo as int, b as int));
                }
                return Err(crate::errors::LsmError::CorruptFormat);
            }
            if blk.offsets.len() == 0 {
                proof {
                    assert(es.len() == 0);
                    assert(!sst_block_wf_at(file_bytes@, ms, mo as int, b as int));
                }
                return Err(crate::errors::LsmError::CorruptFormat);
            }
            let fk = crate::block::read_key_at(&blk, 0);
            let lk = crate::block::read_key_at(&blk, blk.offsets.len() - 1);
            proof {
                assert(fk@ == es[0].0);
                assert(lk@ == es[es.len() - 1].0);
                assert(es.last() == es[es.len() - 1]);
            }
            if !crate::byte_order::key_eq(fk.as_slice(), block_meta[b].first_key.as_slice()) {
                proof {
                    assert(block_meta@[b as int].first_key@ == ms[b as int].1);
                    assert(!sst_block_wf_at(file_bytes@, ms, mo as int, b as int));
                }
                return Err(crate::errors::LsmError::CorruptFormat);
            }
            if !crate::byte_order::key_eq(lk.as_slice(), block_meta[b].last_key.as_slice()) {
                proof {
                    assert(block_meta@[b as int].last_key@ == ms[b as int].2);
                    assert(!sst_block_wf_at(file_bytes@, ms, mo as int, b as int));
                }
                return Err(crate::errors::LsmError::CorruptFormat);
            }
            if b + 1 < n {
                if !crate::byte_order::key_less(
                    block_meta[b].last_key.as_slice(),
                    block_meta[b + 1].first_key.as_slice(),
                ) {
                    proof {
                        assert(!key_lt(ms[b as int].2, ms[b as int + 1].1));
                        assert(!sst_wf_v(file_bytes@, ms, mo as int));
                    }
                    return Err(crate::errors::LsmError::CorruptFormat);
                }
            }
            proof {
                assert(blk.entries().last() == blk.entries()[blk.entries().len() - 1]);
                assert(sst_block_wf_at(file_bytes@, ms, mo as int, b as int));
            }
            b = b + 1;
        }
        let first_key = copy_bytes(block_meta[0].first_key.as_slice());
        let last_key = copy_bytes(block_meta[n - 1].last_key.as_slice());
        let t = SsTable {
            file_bytes,
            block_meta,
            block_meta_offset: mo,
            id,
            block_cache,
            first_key,
            last_key,
            max_ts: 0,
        };
        proof {
            assert(t.wf());
            assert(sst_bytes_wf(t.file_bytes@));
        }
        Ok(t)
    }
}

/// Where the meta region starts, read from the trailing four bytes.
pub open spec fn sst_bytes_mo(bytes: Seq<u8>) -> int {
    u32_at(bytes, bytes.len() - 4)
}

/// The records parsed from the meta region of a run's file bytes.
pub open spec fn sst_bytes_metas(bytes: Seq<u8>) -> Seq<MetaV> {
    meta_region_parsed(bytes.subrange(sst_bytes_mo(bytes), bytes.len() - 4))
}

/// The file bytes describe a well-formed run.
pub open spec fn sst_bytes_wf(bytes: Seq<u8>) -> bool {
    &&& bytes.len() >= 6
    &&& 0 <= sst_bytes_mo(bytes) <= bytes.len() - 4
    &&& meta_region_decodable(bytes.subrange(sst_bytes_mo(bytes), bytes.len() - 4))
    &&& sst_wf_v(bytes, sst_bytes_metas(bytes), sst_bytes_mo(bytes))
}

/// Consecutive ascending offsets below `mo` give pairwise ascending ones.
proof fn lemma_adjacent_offsets(ms: Seq<MetaV>)
    requires
        forall|a: int| 0 <= a < ms.len() - 1 ==> (#[trigger] ms[a]).0 < ms[a + 1].0,
    ensures
        forall|x: int, y: int| 0 <= x < y < ms.len() ==> (#[trigger] ms[x]).0 < (#[trigger] ms[y]).0,
{
    assert forall|x: int, y: int| 0 <= x < y < ms.len() implies (#[trigger] ms[x]).0 < (
    #[trigger] ms[y]).0 by {
        lemma_adjacent_offsets_span(ms, x, y);
    }
}

proof fn lemma_adjacent_offsets_span(ms: Seq<MetaV>, x: int, y: int)
    requires
        forall|a: int| 0 <= a < ms.len() - 1 ==> (#[trigger] ms[a]).0 < ms[a + 1].0,
        0 <= x < y < ms.len(),
    ensures
        ms[x].0 < ms[y].0,
    decreases y - x,
{
    if x + 1 < y {
        lemma_adjacent_offsets_span(ms, x + 1, y);
    }
}

/// A record whose offset reaches the meta region breaks well-formedness.
proof fn lemma_not_sst_wf_offset(bytes: Seq<u8>, ms: Seq<MetaV>, mo: int, i: int)
    requires
        0 <= i < ms.len(),
        ms[i].0 >= mo,
    ensures
        !sst_wf_v(bytes, ms, mo),
{
    if sst_wf_v(bytes, ms, mo) {
        if i < ms.len() - 1 {
            assert(ms[i].0 < ms[ms.len() - 1].0);
        }
    }
}

/// In a well-formed run, record last keys ascend strictly.
pub proof fn lemma_sst_last_keys_sorted(bytes: Seq<u8>, ms: Seq<MetaV>, mo: int, i: int, j: int)
    requires
        sst_wf_v(bytes, ms, mo),
        0 <= i < j < ms.len(),
    ensures
        key_lt(ms[i].2, ms[j].2),
{
    assert(sst_block_wf_at(bytes, ms, mo, j));
    let es = sst_block_entries_at(bytes, ms, mo, j);
    lemma_sst_cross_block(bytes, ms, mo, i, j, es.len() - 1);
}

/// Appending one record appends its bytes.
pub proof fn lemma_metas_enc_snoc(ms: Seq<MetaV>, m: MetaV)
    ensures
        metas_enc(ms.push(m)) == metas_enc(ms) + meta_record_enc(m),
    decreases ms.len(),
{
    if ms.len() == 0 {
        assert(ms.push(m)[0] == m);
        assert(ms.push(m).skip(1) =~= Seq::<MetaV>::empty());
        assert(metas_enc(ms.push(m)) == meta_record_enc(m) + metas_enc(Seq::<MetaV>::empty()));
        assert(metas_enc(ms.push(m)) =~= metas_enc(ms) + meta_record_enc(m));
    } else {
        assert(ms.push(m).skip(1) =~= ms.skip(1).push(m));
        lemma_metas_enc_snoc(ms.skip(1), m);
        assert(ms.push(m)[0] == ms[0]);
        assert(metas_enc(ms.push(m)) == meta_record_enc(ms[0]) + metas_enc(ms.skip(1).push(m)));
        assert(metas_enc(ms.push(m)) =~= metas_enc(ms) + meta_record_enc(m));
    }
}

} // verus!
