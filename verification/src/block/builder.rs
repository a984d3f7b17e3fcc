//! Packs entries into a block until a size budget is reached.

use vstd::prelude::*;

use crate::block::{
    append_bytes, block_entries, block_parses, copy_bytes, entry_enc, lemma_block_append,
    lemma_block_nonempty_data, Block,
};
use crate::byte_order::key_lt;
use crate::entries::{entries_sorted, lemma_sorted_push, EntryV};
use crate::num_codec::push_u16_be;

verus! {

/// Builds a block.
pub struct BlockBuilder {
    /// Offsets of each key-value entry.
    pub offsets: Vec<u16>,
    /// All serialized key-value pairs in the block.
    pub data: Vec<u8>,
    /// The target block size in bytes.
    pub block_size: usize,
    /// The first key in the block.
    pub first_key: Vec<u8>,
}

impl BlockBuilder {
    /// The entries accepted so far.
    pub open spec fn entries(&self) -> Seq<EntryV> {
        block_entries(self.data@, self.offsets@)
    }

    /// The builder always holds a parseable, sorted prefix of a block.
    pub open spec fn wf(&self) -> bool {
        &&& block_parses(self.data@, self.offsets@)
        &&& entries_sorted(self.entries())
        &&& (self.offsets@.len() == 0 ==> self.first_key@.len() == 0)
        &&& (self.offsets@.len() > 0 ==> self.first_key@ == self.entries()[0].0)
    }

    /// The encoded size the block would have if built now: the trailing
    /// count, one offset slot per entry, and the data area.
    pub open spec fn current_size_spec(&self) -> int {
        2 + self.offsets@.len() * 2 + self.data@.len() as int
    }

    /// Whether an entry of the given key and value lengths is accepted.
    ///
    /// An empty builder accepts anything, so an oversized entry still makes
    /// progress. Otherwise the projected size (current size plus entry
    /// header, new offset slot and payload) must stay within `block_size`,
    /// and the 16-bit offset and count fields must still be representable.
    pub open spec fn accepts(&self, klen: int, vlen: int) -> bool {
        self.entries().len() == 0 || {
            &&& self.current_size_spec() + klen + vlen + 6 <= self.block_size
            &&& self.data@.len() <= 0xFFFF
            &&& self.offsets@.len() < 0xFFFF
        }
    }

    /// Creates a new block builder.
    pub fn new(block_size: usize) -> (r: Self)
        ensures
            r.wf(),
            r.entries().len() == 0,
            r.block_size == block_size,
    {
        let r = Self { offsets: Vec::new(), data: Vec::new(), block_size, first_key: Vec::new() };
        proof {
            assert(r.entries() =~= Seq::<EntryV>::empty());
        }
        r
    }

    /// Check if there is no key-value pair in the block.
    pub fn is_empty(&self) -> (r: bool)
        requires
            self.wf(),
        ensures
            r == (self.entries().len() == 0),
    {
        proof {
            lemma_block_nonempty_data(self.data@, self.offsets@);
        }
        self.data.is_empty()
    }

    /// Adds a key-value pair to the block. Returns false when the block is
    /// full: exactly when `accepts` refuses the entry.
    pub fn add(&mut self, key: &[u8], value: &[u8]) -> (r: bool)
        requires
            old(self).wf(),
            key@.len() > 0,
            key@.len() <= 0xFFFF,
            value@.len() <= 0xFFFF,
            old(self).entries().len() > 0 ==> key_lt(old(self).entries().last().0, key@),
        ensures
            final(self).wf(),
            final(self).block_size == old(self).block_size,
            r == old(self).accepts(key@.len() as int, value@.len() as int),
            r ==> final(self).entries() == old(self).entries().push((key@, value@)),
            r ==> final(self).data@.len() == old(self).data@.len() + 4 + key@.len() + value@.len()
                && final(self).offsets@.len() == old(self).offsets@.len() + 1,
            !r ==> *final(self) == *old(self),
    {
        proof {
            lemma_block_nonempty_data(self.data@, self.offsets@);
        }
        if !self.data.is_empty() {
            if self.offsets.len() >= 0xFFFF || self.data.len() > 0xFFFF {
                return false;
            }
            let projected: usize = 2 + self.offsets.len() * 2 + self.data.len() + key.len()
                + value.len() + 6;
            if projected > self.block_size {
                return false;
            }
        }
        proof {
            lemma_block_append(self.data@, self.offsets@, key@, value@);
            lemma_sorted_push(self.entries(), (key@, value@));
        }
        let off: u16 = self.data.len() as u16;
        if self.data.is_empty() {
            self.first_key = copy_bytes(key);
        }
        self.offsets.push(off);
        push_u16_be(&mut self.data, key.len() as u16);
        append_bytes(&mut self.data, key);
        push_u16_be(&mut self.data, value.len() as u16);
        append_bytes(&mut self.data, value);
        proof {
            assert(self.data@ =~= old(self).data@ + entry_enc(key@, value@));
            assert(self.entries() =~= old(self).entries().push((key@, value@)));
            assert(self.entries()[0] == self.entries().push((key@, value@))[0]);
        }
        true
    }

    /// Finalize the block.
    pub fn build(self) -> (b: Block)
        requires
            self.wf(),
        ensures
            b.wf(),
            b.entries() == self.entries(),
            b.offsets@.len() <= 0xFFFF,
            b.data@ == self.data@,
            b.offsets@ == self.offsets@,
    {
        Block { data: self.data, offsets: self.offsets }
    }
}

} // verus!
