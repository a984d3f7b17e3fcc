//! The block: the smallest unit of read and caching.
//!
//! A block is an immutable, sorted array of key/value entries plus an
//! offset index. Each entry is laid out as
//! `key_len:u16 | key | value_len:u16 | value`, all integers big-endian.
//! The on-wire encoding is `data || offsets (u16 each) || count:u16`.

mod builder;
mod iterator;

pub use builder::BlockBuilder;
pub use iterator::{read_key_at, read_val_at, seek_index, BlockIterator};

use vstd::prelude::*;

use crate::byte_order::key_lt;
use crate::entries::{entries_sorted, EntryV};
use crate::num_codec::{
    lemma_u16_be_round, push_u16_be, read_u16_at, u16_be, u16_from_be,
};

verus! {

/// Copy a byte slice into a fresh vector, verified element by element.
pub fn copy_bytes(src: &[u8]) -> (out: Vec<u8>)
    ensures
        out@ == src@,
{
    let mut out: Vec<u8> = Vec::new();
    let n: usize = src.len();
    let mut i: usize = 0;
    while i < n
        invariant
            i <= n,
            n == src@.len(),
            out@ == src@.subrange(0, i as int),
        decreases n - i,
    {
        out.push(src[i]);
        proof {
            assert(out@ =~= src@.subrange(0, i + 1));
        }
        i = i + 1;
    }
    proof {
        assert(out@ =~= src@);
    }
    out
}

/// Append a byte slice to a vector, verified element by element.
pub fn append_bytes(dst: &mut Vec<u8>, src: &[u8])
    ensures
        final(dst)@ == old(dst)@ + src@,
{
    let n: usize = src.len();
    let mut i: usize = 0;
    while i < n
        invariant
            i <= n,
            n == src@.len(),
            dst@ == old(dst)@ + src@.subrange(0, i as int),
        decreases n - i,
    {
        dst.push(src[i]);
        proof {
            assert(dst@ =~= old(dst)@ + src@.subrange(0, i + 1));
        }
        i = i + 1;
    }
    proof {
        assert(dst@ =~= old(dst)@ + src@);
    }
}

/// The byte encoding of one entry.
pub open spec fn entry_enc(k: Seq<u8>, v: Seq<u8>) -> Seq<u8> {
    u16_be(k.len() as u16) + k + u16_be(v.len() as u16) + v
}

/// Start position of entry `i` in the data area.
pub open spec fn entry_start(offsets: Seq<u16>, i: int) -> int {
    offsets[i] as int
}

/// End position of entry `i`: the next offset, or the end of the data.
pub open spec fn entry_end(data: Seq<u8>, offsets: Seq<u16>, i: int) -> int {
    if i + 1 < offsets.len() {
        offsets[i + 1] as int
    } else {
        data.len() as int
    }
}

/// Key length recorded at the head of entry `i`.
pub open spec fn key_len_at(data: Seq<u8>, offsets: Seq<u16>, i: int) -> int {
    u16_from_be(data[entry_start(offsets, i)], data[entry_start(offsets, i) + 1])
}

/// Key bytes of entry `i`.
pub open spec fn key_at(data: Seq<u8>, offsets: Seq<u16>, i: int) -> Seq<u8> {
    let s = entry_start(offsets, i);
    data.subrange(s + 2, s + 2 + key_len_at(data, offsets, i))
}

/// Value length recorded after the key of entry `i`.
pub open spec fn val_len_at(data: Seq<u8>, offsets: Seq<u16>, i: int) -> int {
    let s = entry_start(offsets, i);
    let kl = key_len_at(data, offsets, i);
    u16_from_be(data[s + 2 + kl], data[s + 3 + kl])
}

/// Value bytes of entry `i`.
pub open spec fn val_at(data: Seq<u8>, offsets: Seq<u16>, i: int) -> Seq<u8> {
    let s = entry_start(offsets, i);
    let kl = key_len_at(data, offsets, i);
    let vl = val_len_at(data, offsets, i);
    data.subrange(s + 4 + kl, s + 4 + kl + vl)
}

/// Entry `i` occupies exactly the region up to the next offset.
pub open spec fn entry_parses_at(data: Seq<u8>, offsets: Seq<u16>, i: int) -> bool {
    let s = entry_start(offsets, i);
    let e = entry_end(data, offsets, i);
    &&& 0 <= s
    &&& s + 4 <= e
    &&& e <= data.len()
    &&& s + 4 + key_len_at(data, offsets, i) <= e
    &&& e == s + 4 + key_len_at(data, offsets, i) + val_len_at(data, offsets, i)
}

/// Structural well-formedness: every entry parses and the entries tile the
/// data area exactly, starting at zero.
pub open spec fn block_parses(data: Seq<u8>, offsets: Seq<u16>) -> bool {
    &&& offsets.len() <= 0xFFFF
    &&& (offsets.len() == 0 ==> data.len() == 0)
    &&& (offsets.len() > 0 ==> offsets[0] == 0)
    &&& (forall|i: int| 0 <= i < offsets.len() ==> entry_parses_at(data, offsets, i))
}

/// The entries recorded in a block's data area.
pub open spec fn block_entries(data: Seq<u8>, offsets: Seq<u16>) -> Seq<EntryV> {
    Seq::new(offsets.len() as nat, |i: int| (key_at(data, offsets, i), val_at(data, offsets, i)))
}

/// The bytes of all offsets, two big-endian bytes each.
pub open spec fn offsets_bytes(offs: Seq<u16>) -> Seq<u8>
    decreases offs.len(),
{
    if offs.len() == 0 {
        Seq::empty()
    } else {
        u16_be(offs[0]) + offsets_bytes(offs.skip(1))
    }
}

/// The on-wire encoding of a block.
pub open spec fn block_encoding(data: Seq<u8>, offsets: Seq<u16>) -> Seq<u8> {
    data + offsets_bytes(offsets) + u16_be(offsets.len() as u16)
}

/// Length and per-index bytes of `offsets_bytes`.
pub proof fn lemma_offsets_bytes(offs: Seq<u16>)
    ensures
        offsets_bytes(offs).len() == 2 * offs.len(),
        forall|i: int|
            0 <= i < offs.len() ==> offsets_bytes(offs)[2 * i] == u16_be(#[trigger] offs[i])[0]
                && offsets_bytes(offs)[2 * i + 1] == u16_be(offs[i])[1],
    decreases offs.len(),
{
    if offs.len() > 0 {
        lemma_offsets_bytes(offs.skip(1));
        assert forall|i: int| 0 <= i < offs.len() implies offsets_bytes(offs)[2 * i] == u16_be(
            #[trigger] offs[i],
        )[0] && offsets_bytes(offs)[2 * i + 1] == u16_be(offs[i])[1] by {
            if i > 0 {
                assert(offs.skip(1)[i - 1] == offs[i]);
                assert(offsets_bytes(offs)[2 * i] == offsets_bytes(offs.skip(1))[2 * (i - 1)]);
                assert(offsets_bytes(offs)[2 * i + 1] == offsets_bytes(offs.skip(1))[2 * (i - 1)
                    + 1]);
            }
        }
    }
}

/// Appending one offset appends its two bytes.
pub proof fn lemma_offsets_bytes_push(offs: Seq<u16>, x: u16)
    ensures
        offsets_bytes(offs.push(x)) == offsets_bytes(offs) + u16_be(x),
    decreases offs.len(),
{
    if offs.len() == 0 {
        assert(offs.push(x).len() == 1);
        assert(offs.push(x)[0] == x);
        assert(offs.push(x).skip(1) =~= Seq::<u16>::empty());
        assert(offsets_bytes(Seq::<u16>::empty()) == Seq::<u8>::empty());
        assert(offsets_bytes(offs.push(x)) == u16_be(x) + Seq::<u8>::empty());
        assert(offsets_bytes(offs) == Seq::<u8>::empty());
        assert(offsets_bytes(offs.push(x)) =~= offsets_bytes(offs) + u16_be(x));
    } else {
        assert(offs.push(x).skip(1) =~= offs.skip(1).push(x));
        lemma_offsets_bytes_push(offs.skip(1), x);
        assert(offs.push(x)[0] == offs[0]);
        assert(offsets_bytes(offs.push(x)) == u16_be(offs[0]) + offsets_bytes(
            offs.skip(1).push(x),
        ));
        assert(offsets_bytes(offs.push(x)) =~= offsets_bytes(offs) + u16_be(x));
    }
}

/// Entry count read back from the trailing two bytes.
pub open spec fn parsed_count(s: Seq<u8>) -> int {
    u16_from_be(s[s.len() - 2], s[s.len() - 1])
}

/// The buffer is long enough for the offset array it announces.
pub open spec fn block_decodable(s: Seq<u8>) -> bool {
    s.len() >= 2 && s.len() >= 2 + 2 * parsed_count(s)
}

/// The offsets read back from the tail of the buffer.
pub open spec fn parsed_offsets(s: Seq<u8>) -> Seq<u16> {
    let n = parsed_count(s);
    let base = s.len() - 2 - 2 * n;
    Seq::new(n as nat, |i: int| u16_from_be(s[base + 2 * i], s[base + 2 * i + 1]) as u16)
}

/// The data area read back from the front of the buffer.
pub open spec fn parsed_data(s: Seq<u8>) -> Seq<u8> {
    s.subrange(0, s.len() - 2 - 2 * parsed_count(s))
}

/// Decoding inverts encoding, for any data and at most 65535 offsets.
pub proof fn lemma_block_round_trip(data: Seq<u8>, offsets: Seq<u16>)
    requires
        offsets.len() <= 0xFFFF,
    ensures
        block_decodable(block_encoding(data, offsets)),
        parsed_data(block_encoding(data, offsets)) == data,
        parsed_offsets(block_encoding(data, offsets)) == offsets,
{
    let s = block_encoding(data, offsets);
    let n = offsets.len() as int;
    lemma_offsets_bytes(offsets);
    lemma_u16_be_round(offsets.len() as u16);
    assert(s.len() == data.len() + 2 * n + 2);
    assert(s[s.len() - 2] == u16_be(offsets.len() as u16)[0]);
    assert(s[s.len() - 1] == u16_be(offsets.len() as u16)[1]);
    assert(parsed_count(s) == n);
    assert(parsed_offsets(s) =~= offsets) by {
        assert forall|i: int| 0 <= i < n implies #[trigger] parsed_offsets(s)[i] == offsets[i] by {
            assert(s[data.len() + 2 * i] == offsets_bytes(offsets)[2 * i]);
            assert(s[data.len() + 2 * i + 1] == offsets_bytes(offsets)[2 * i + 1]);
            lemma_u16_be_round(offsets[i]);
        }
    }
    assert(parsed_data(s) =~= data);
}

/// A parseable non-empty block has at least one four-byte entry.
pub proof fn lemma_block_nonempty_data(data: Seq<u8>, offsets: Seq<u16>)
    requires
        block_parses(data, offsets),
    ensures
        offsets.len() > 0 <==> data.len() > 0,
{
    if offsets.len() > 0 {
        assert(entry_parses_at(data, offsets, 0));
    }
}

/// Appending one encoded entry at the end of the data area appends exactly
/// one parsed entry, and leaves the existing entries untouched.
pub proof fn lemma_block_append(d: Seq<u8>, o: Seq<u16>, k: Seq<u8>, v: Seq<u8>)
    requires
        block_parses(d, o),
        d.len() <= 0xFFFF,
        o.len() < 0xFFFF,
        k.len() <= 0xFFFF,
        v.len() <= 0xFFFF,
    ensures
        block_parses(d + entry_enc(k, v), o.push(d.len() as u16)),
        block_entries(d + entry_enc(k, v), o.push(d.len() as u16)) == block_entries(d, o).push(
            (k, v),
        ),
{
    let d2 = d + entry_enc(k, v);
    let o2 = o.push(d.len() as u16);
    let n = o.len() as int;
    let s = d.len() as int;
    lemma_u16_be_round(k.len() as u16);
    lemma_u16_be_round(v.len() as u16);
    lemma_block_nonempty_data(d, o);
    assert(entry_enc(k, v).len() == 4 + k.len() + v.len());
    assert(d2.len() == s + 4 + k.len() + v.len());
    // bytes of the new entry, read through d2
    assert forall|j: int| 0 <= j < entry_enc(k, v).len() implies d2[s + j] == entry_enc(k, v)[j]
        by {}
    assert(entry_enc(k, v)[0] == u16_be(k.len() as u16)[0]);
    assert(entry_enc(k, v)[1] == u16_be(k.len() as u16)[1]);
    assert(key_len_at(d2, o2, n) == k.len()) by {
        assert(entry_start(o2, n) == s);
        assert(d2[s] == u16_be(k.len() as u16)[0]);
        assert(d2[s + 1] == u16_be(k.len() as u16)[1]);
    }
    assert forall|j: int| 0 <= j < k.len() implies d2[s + 2 + j] == k[j] by {
        assert(entry_enc(k, v)[2 + j] == k[j]);
    }
    assert(key_at(d2, o2, n) =~= k);
    assert(val_len_at(d2, o2, n) == v.len()) by {
        assert(entry_enc(k, v)[2 + k.len() as int] == u16_be(v.len() as u16)[0]);
        assert(entry_enc(k, v)[3 + k.len() as int] == u16_be(v.len() as u16)[1]);
    }
    assert forall|j: int| 0 <= j < v.len() implies d2[s + 4 + k.len() + j] == v[j] by {
        assert(entry_enc(k, v)[4 + k.len() + j] == v[j]);
    }
    assert(val_at(d2, o2, n) =~= v);
    assert(entry_parses_at(d2, o2, n));
    // existing entries are bit-for-bit unchanged
    assert forall|i: int| 0 <= i < n implies entry_parses_at(d2, o2, i) && key_at(d2, o2, i)
        == key_at(d, o, i) && val_at(d2, o2, i) == val_at(d, o, i) by {
        assert(entry_parses_at(d, o, i));
        assert(o2[i] == o[i]);
        let st = entry_start(o, i);
        let en = entry_end(d, o, i);
        assert(entry_start(o2, i) == st);
        if i + 1 < n {
            assert(o2[i + 1] == o[i + 1]);
            assert(entry_end(d2, o2, i) == en);
        } else {
            assert(o2[n] == d.len() as u16);
            assert(entry_end(d2, o2, i) == d.len() as int);
            assert(en == d.len() as int);
        }
        assert forall|j: int| 0 <= j < en implies d2[j] == d[j] by {}
        assert(key_len_at(d2, o2, i) == key_len_at(d, o, i));
        assert(key_at(d2, o2, i) =~= key_at(d, o, i));
        assert(val_len_at(d2, o2, i) == val_len_at(d, o, i));
        assert(val_at(d2, o2, i) =~= val_at(d, o, i));
    }
    assert(block_parses(d2, o2)) by {
        if o2.len() > 0 {
            if n > 0 {
                assert(o2[0] == o[0]);
            }
        }
    }
    assert(block_entries(d2, o2) =~= block_entries(d, o).push((k, v)));
}

/// The round trip at the entry level: a block's entries survive encoding
/// and decoding unchanged.
pub proof fn lemma_block_entries_round_trip(data: Seq<u8>, offsets: Seq<u16>)
    requires
        offsets.len() <= 0xFFFF,
    ensures
        block_decodable(block_encoding(data, offsets)),
        block_entries(
            parsed_data(block_encoding(data, offsets)),
            parsed_offsets(block_encoding(data, offsets)),
        ) == block_entries(data, offsets),
{
    lemma_block_round_trip(data, offsets);
}

/// A block: an immutable sorted array of entries with an offset index.
pub struct Block {
    /// Concatenated entry encodings.
    pub data: Vec<u8>,
    /// Byte offset of each entry in `data`, in entry order.
    pub offsets: Vec<u16>,
}

impl Block {
    /// The data area parses into exactly `offsets.len()` entries.
    pub open spec fn parses(&self) -> bool {
        block_parses(self.data@, self.offsets@)
    }

    /// The entries this block holds.
    pub open spec fn entries(&self) -> Seq<EntryV> {
        block_entries(self.data@, self.offsets@)
    }

    /// Structurally parseable with strictly ascending keys.
    pub open spec fn wf(&self) -> bool {
        self.parses() && entries_sorted(self.entries())
    }

    /// Encode to the on-wire layout: data, offsets, trailing count.
    pub fn encode(&self) -> (out: Vec<u8>)
        requires
            self.offsets@.len() <= 0xFFFF,
        ensures
            out@ == block_encoding(self.data@, self.offsets@),
    {
        let mut out: Vec<u8> = copy_bytes(self.data.as_slice());
        let n: usize = self.offsets.len();
        let mut i: usize = 0;
        proof {
            assert(self.offsets@.take(0) =~= Seq::<u16>::empty());
            assert(out@ =~= self.data@ + offsets_bytes(self.offsets@.take(0)));
        }
        while i < n
            invariant
                i <= n,
                n == self.offsets@.len(),
                n <= 0xFFFF,
                out@ == self.data@ + offsets_bytes(self.offsets@.take(i as int)),
            decreases n - i,
        {
            proof {
                lemma_offsets_bytes_push(self.offsets@.take(i as int), self.offsets@[i as int]);
                assert(self.offsets@.take(i as int).push(self.offsets@[i as int])
                    =~= self.offsets@.take(i + 1));
            }
            let o: u16 = self.offsets[i];
            push_u16_be(&mut out, o);
            proof {
                assert(out@ =~= self.data@ + offsets_bytes(self.offsets@.take(i + 1)));
            }
            i = i + 1;
        }
        proof {
            assert(self.offsets@.take(n as int) =~= self.offsets@);
        }
        push_u16_be(&mut out, n as u16);
        proof {
            assert(out@ =~= block_encoding(self.data@, self.offsets@));
        }
        out
    }

    /// Decode from the on-wire layout.
    ///
    /// The buffer must announce no more offsets than it holds; a caller with
    /// untrusted bytes validates first (see `SsTable::open`).
    pub fn decode(input: &[u8]) -> (b: Block)
        requires
            block_decodable(input@),
        ensures
            b.data@ == parsed_data(input@),
            b.offsets@ == parsed_offsets(input@),
    {
        let len: usize = input.len();
        let n16: u16 = read_u16_at(input, len - 2);
        let n: usize = n16 as usize;
        let off_base: usize = len - 2 - 2 * n;
        let mut offsets: Vec<u16> = Vec::new();
        let mut i: usize = 0;
        while i < n
            invariant
                i <= n,
                n <= 0xFFFF,
                len == input@.len(),
                n == parsed_count(input@),
                off_base == input@.len() - 2 - 2 * n,
                off_base + 2 * n + 2 == input@.len(),
                input@.len() >= 2 + 2 * n,
                offsets@.len() == i as int,
                forall|j: int| 0 <= j < i ==> offsets@[j] == parsed_offsets(input@)[j],
            decreases n - i,
        {
            let o: u16 = read_u16_at(input, off_base + 2 * i);
            offsets.push(o);
            i = i + 1;
        }
        let data_slice: &[u8] = vstd::slice::slice_subrange(input, 0, off_base);
        let data: Vec<u8> = copy_bytes(data_slice);
        proof {
            assert(offsets@ =~= parsed_offsets(input@));
            assert(data@ =~= parsed_data(input@));
        }
        Block { data, offsets }
    }
}

impl Block {
    /// An equal, independently owned copy.
    pub fn duplicate(&self) -> (b: Block)
        ensures
            b.data@ == self.data@,
            b.offsets@ == self.offsets@,
    {
        let data = copy_bytes(self.data.as_slice());
        let mut offsets: Vec<u16> = Vec::new();
        let n: usize = self.offsets.len();
        let mut i: usize = 0;
        while i < n
            invariant
                i <= n,
                n == self.offsets@.len(),
                offsets@ == self.offsets@.subrange(0, i as int),
            decreases n - i,
        {
            offsets.push(self.offsets[i]);
            proof {
                assert(offsets@ =~= self.offsets@.subrange(0, i + 1));
            }
            i = i + 1;
        }
        proof {
            assert(offsets@ =~= self.offsets@);
        }
        Block { data, offsets }
    }

    /// Decide well-formedness: every entry parses in place and the keys
    /// ascend strictly.
    pub fn check_well_formed(&self) -> (r: bool)
        ensures
            r == self.wf(),
    {
        let n: usize = self.offsets.len();
        let dlen: usize = self.data.len();
        if n > 0xFFFF {
            return false;
        }
        if n == 0 {
            proof {
                if self.data@.len() == 0 {
                    assert(self.entries() =~= Seq::<EntryV>::empty());
                    assert(self.wf());
                }
            }
            return dlen == 0;
        }
        if self.offsets[0] != 0 {
            return false;
        }
        let mut i: usize = 0;
        let mut prev_key: Vec<u8> = Vec::new();
        while i < n
            invariant
                i <= n,
                0 < n <= 0xFFFF,
                n == self.offsets@.len(),
                dlen == self.data@.len(),
                self.offsets@[0] == 0,
                forall|j: int| 0 <= j < i ==> entry_parses_at(self.data@, self.offsets@, j),
                forall|j: int|
                    0 <= j < i - 1 ==> key_lt(
                        #[trigger] block_entries(self.data@, self.offsets@)[j].0,
                        block_entries(self.data@, self.offsets@)[j + 1].0,
                    ),
                i > 0 ==> prev_key@ == key_at(self.data@, self.offsets@, i - 1),
            decreases n - i,
        {
            let s: usize = self.offsets[i] as usize;
            let e: usize = if i + 1 < n {
                self.offsets[i + 1] as usize
            } else {
                dlen
            };
            if s + 4 > e || e > dlen {
                proof {
                    assert(!entry_parses_at(self.data@, self.offsets@, i as int));
                    assert(!self.parses());
                }
                return false;
            }
            let klen: usize = read_u16_at(self.data.as_slice(), s) as usize;
            if s + 4 + klen > e {
                proof {
                    assert(klen as int == key_len_at(self.data@, self.offsets@, i as int));
                    assert(!entry_parses_at(self.data@, self.offsets@, i as int));
                    assert(!self.parses());
                }
                return false;
            }
            let vlen: usize = read_u16_at(self.data.as_slice(), s + 2 + klen) as usize;
            if e != s + 4 + klen + vlen {
                proof {
                    assert(klen as int == key_len_at(self.data@, self.offsets@, i as int));
                    assert(vlen as int == val_len_at(self.data@, self.offsets@, i as int));
                    assert(!entry_parses_at(self.data@, self.offsets@, i as int));
                    assert(!self.parses());
                }
                return false;
            }
            proof {
                assert(entry_parses_at(self.data@, self.offsets@, i as int));
            }
            let key_slice: &[u8] = vstd::slice::slice_subrange(
                self.data.as_slice(),
                s + 2,
                s + 2 + klen,
            );
            if i > 0 {
                if !crate::byte_order::key_less(prev_key.as_slice(), key_slice) {
                    proof {
                        assert(block_entries(self.data@, self.offsets@)[i - 1].0 == prev_key@);
                        assert(block_entries(self.data@, self.offsets@)[i as int].0 == key_slice@);
                        assert(!self.wf());
                    }
                    return false;
                }
            }
            prev_key = copy_bytes(key_slice);
            proof {
                assert(block_entries(self.data@, self.offsets@)[i as int].0 == key_at(
                    self.data@,
                    self.offsets@,
                    i as int,
                ));
            }
            i = i + 1;
        }
        proof {
            assert(self.parses());
            crate::entries::lemma_adjacent_implies_sorted(self.entries());
        }
        true
    }
}

} // verus!
