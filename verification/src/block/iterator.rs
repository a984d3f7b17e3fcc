//! Forward and seek iteration over one block.

use vstd::prelude::*;

use crate::block::{copy_bytes, Block};
use crate::byte_order::{key_le, key_less, key_lt, lemma_key_total};
use crate::entries::{entries_sorted, lemma_lower_bound_index, lower_bound_index, EntryV};
use crate::num_codec::read_u16_at;

verus! {

/// Read the key of entry `i` out of a well-formed block.
pub fn read_key_at(block: &Block, i: usize) -> (out: Vec<u8>)
    requires
        block.wf(),
        (i as int) < block.entries().len(),
    ensures
        out@ == block.entries()[i as int].0,
{
    proof {
        assert(crate::block::entry_parses_at(block.data@, block.offsets@, i as int));
    }
    let s: usize = block.offsets[i] as usize;
    let klen: usize = read_u16_at(block.data.as_slice(), s) as usize;
    let ks: &[u8] = vstd::slice::slice_subrange(block.data.as_slice(), s + 2, s + 2 + klen);
    copy_bytes(ks)
}

/// Read the value of entry `i` out of a well-formed block.
pub fn read_val_at(block: &Block, i: usize) -> (out: Vec<u8>)
    requires
        block.wf(),
        (i as int) < block.entries().len(),
    ensures
        out@ == block.entries()[i as int].1,
{
    proof {
        assert(crate::block::entry_parses_at(block.data@, block.offsets@, i as int));
    }
    let s: usize = block.offsets[i] as usize;
    let klen: usize = read_u16_at(block.data.as_slice(), s) as usize;
    let vlen: usize = read_u16_at(block.data.as_slice(), s + 2 + klen) as usize;
    let vs: &[u8] = vstd::slice::slice_subrange(
        block.data.as_slice(),
        s + 4 + klen,
        s + 4 + klen + vlen,
    );
    copy_bytes(vs)
}

/// Binary search: the position of the first entry whose key is at or
/// after `key`, or the entry count if there is none.
pub fn seek_index(block: &Block, key: &[u8]) -> (r: usize)
    requires
        block.wf(),
    ensures
        r as int == lower_bound_index(block.entries(), key@),
{
    let ghost es = block.entries();
    let mut lo: usize = 0;
    let mut hi: usize = block.offsets.len();
    while lo < hi
        invariant
            block.wf(),
            es == block.entries(),
            lo <= hi,
            hi as int <= es.len(),
            forall|j: int| 0 <= j < lo ==> key_lt(#[trigger] es[j].0, key@),
            forall|j: int| hi <= j < es.len() ==> key_le(key@, #[trigger] es[j].0),
        decreases hi - lo,
    {
        let mid: usize = lo + (hi - lo) / 2;
        let mid_key: Vec<u8> = read_key_at(block, mid);
        if key_less(mid_key.as_slice(), key) {
            proof {
                assert forall|j: int| 0 <= j < mid + 1 implies key_lt(#[trigger] es[j].0, key@) by {
                    if j < mid {
                        assert(key_lt(es[j].0, es[mid as int].0));
                        crate::byte_order::lemma_key_lt_trans(es[j].0, es[mid as int].0, key@);
                    }
                }
            }
            lo = mid + 1;
        } else {
            proof {
                crate::byte_order::lemma_cmp_basics(es[mid as int].0, key@);
                crate::byte_order::lemma_cmp_basics(key@, es[mid as int].0);
                assert(key_le(key@, es[mid as int].0));
                assert forall|j: int| mid <= j < es.len() implies key_le(
                    key@,
                    #[trigger] es[j].0,
                ) by {
                    if j > mid {
                        assert(key_lt(es[mid as int].0, es[j].0));
                        crate::byte_order::lemma_cmp_le_trans(key@, es[mid as int].0, es[j].0);
                    }
                }
            }
            hi = mid;
        }
    }
    proof {
        lemma_lower_bound_index(es, key@);
        let l = lower_bound_index(es, key@);
        if l < lo {
            assert(key_lt(es[l].0, key@));
            assert(key_le(key@, es[l].0));
            lemma_key_total(es[l].0, key@);
        }
        if (lo as int) < l {
            assert(key_lt(es[lo as int].0, key@));
            assert(key_le(key@, es[lo as int].0));
            lemma_key_total(es[lo as int].0, key@);
        }
    }
    lo
}

/// Iterates on a block. `idx` walks the entries; the current key and value
/// are cached so that `key` and `value` are cheap.
pub struct BlockIterator {
    /// The block being iterated.
    pub block: Block,
    /// Cached key of the current entry; meaningful while valid.
    pub key: Vec<u8>,
    /// Cached value of the current entry; meaningful while valid.
    pub val: Vec<u8>,
    /// Current index into the entry list; equals the count when invalid.
    pub idx: usize,
    /// The first key in the block, cached at the first positioning.
    pub first_key: Vec<u8>,
}

impl BlockIterator {
    /// Positioned on a well-formed block, caches in line with `idx`.
    pub open spec fn wf(&self) -> bool {
        &&& self.block.wf()
        &&& self.idx as int <= self.block.entries().len()
        &&& ((self.idx as int) < self.block.entries().len() ==> self.key@
            == self.block.entries()[self.idx as int].0 && self.val@
            == self.block.entries()[self.idx as int].1)
    }

    /// The entries from the current position to the end of the block.
    pub open spec fn remaining(&self) -> Seq<EntryV> {
        self.block.entries().skip(self.idx as int)
    }

    fn load_current(&mut self)
        requires
            old(self).block.wf(),
            (old(self).idx as int) < old(self).block.entries().len(),
        ensures
            final(self).wf(),
            final(self).block == old(self).block,
            final(self).idx == old(self).idx,
            final(self).first_key == old(self).first_key,
    {
        self.key = read_key_at(&self.block, self.idx);
        self.val = read_val_at(&self.block, self.idx);
    }

    /// Creates a block iterator and seeks to the first entry.
    pub fn create_and_seek_to_first(block: Block) -> (r: Self)
        requires
            block.wf(),
        ensures
            r.wf(),
            r.block == block,
            r.remaining() == block.entries(),
    {
        let mut r = Self {
            block,
            key: Vec::new(),
            val: Vec::new(),
            idx: 0,
            first_key: Vec::new(),
        };
        if r.block.offsets.len() > 0 {
            r.load_current();
            let fk: Vec<u8> = copy_bytes(r.key.as_slice());
            r.first_key = fk;
        }
        proof {
            assert(r.remaining() =~= r.block.entries());
        }
        r
    }

    /// Creates a block iterator positioned at the first key at or after
    /// `key`; invalid if every key in the block is below `key`.
    pub fn create_and_seek_to_key(block: Block, key: &[u8]) -> (r: Self)
        requires
            block.wf(),
        ensures
            r.wf(),
            r.block == block,
            r.remaining() == block.entries().skip(lower_bound_index(block.entries(), key@)),
    {
        let idx: usize = seek_index(&block, key);
        let mut r = Self {
            block,
            key: Vec::new(),
            val: Vec::new(),
            idx,
            first_key: Vec::new(),
        };
        proof {
            lemma_lower_bound_index(r.block.entries(), key@);
        }
        if r.idx < r.block.offsets.len() {
            r.load_current();
        }
        r
    }

    /// Returns the key of the current entry.
    pub fn key(&self) -> (k: &Vec<u8>)
        requires
            self.wf(),
            self.remaining().len() > 0,
        ensures
            k@ == self.remaining()[0].0,
    {
        proof {
            assert(self.remaining()[0] == self.block.entries()[self.idx as int]);
        }
        &self.key
    }

    /// Returns the value of the current entry.
    pub fn value(&self) -> (v: &Vec<u8>)
        requires
            self.wf(),
            self.remaining().len() > 0,
        ensures
            v@ == self.remaining()[0].1,
    {
        proof {
            assert(self.remaining()[0] == self.block.entries()[self.idx as int]);
        }
        &self.val
    }

    /// True while the iterator is on an entry.
    pub fn is_valid(&self) -> (r: bool)
        requires
            self.wf(),
        ensures
            r == (self.remaining().len() > 0),
    {
        self.idx < self.block.offsets.len()
    }

    /// Seeks to the first key in the block.
    pub fn seek_to_first(&mut self)
        requires
            old(self).wf(),
        ensures
            final(self).wf(),
            final(self).block == old(self).block,
            final(self).remaining() == old(self).block.entries(),
    {
        self.idx = 0;
        if self.idx < self.block.offsets.len() {
            self.load_current();
            let fk: Vec<u8> = copy_bytes(self.key.as_slice());
            self.first_key = fk;
        }
        proof {
            assert(self.remaining() =~= self.block.entries());
        }
    }

    /// Move to the next entry; a no-op once past the end.
    pub fn next(&mut self)
        requires
            old(self).wf(),
        ensures
            final(self).wf(),
            final(self).block == old(self).block,
            old(self).remaining().len() > 0 ==> final(self).remaining() == old(
                self,
            ).remaining().skip(1),
            old(self).remaining().len() == 0 ==> final(self).remaining() == old(self).remaining(),
    {
        if self.idx < self.block.offsets.len() {
            self.idx = self.idx + 1;
            if self.idx < self.block.offsets.len() {
                self.load_current();
            }
            proof {
                assert(self.remaining() =~= old(self).remaining().skip(1));
            }
        }
    }

    /// Seek to the first key at or after `key`; invalid if there is none.
    pub fn seek_to_key(&mut self, key: &[u8])
        requires
            old(self).wf(),
        ensures
            final(self).wf(),
            final(self).block == old(self).block,
            final(self).remaining() == old(self).block.entries().skip(
                lower_bound_index(old(self).block.entries(), key@),
            ),
    {
        let idx: usize = seek_index(&self.block, key);
        self.idx = idx;
        proof {
            lemma_lower_bound_index(self.block.entries(), key@);
        }
        if self.idx < self.block.offsets.len() {
            self.load_current();
        }
    }
}

} // verus!
