//! Block format and block iteration.

use mini_lsm::block::{Block, BlockBuilder, BlockIterator};

fn build_block(entries: &[(&[u8], &[u8])], block_size: usize) -> Block {
    let mut b = BlockBuilder::new(block_size);
    for (k, v) in entries {
        assert!(b.add(k, v));
    }
    b.build()
}

#[test]
fn block_round_trip() {
    let block = build_block(&[(b"alpha", b"1"), (b"beta", b"22"), (b"gamma", b"333")], 4096);
    let encoded = block.encode();
    let decoded = Block::decode(encoded.as_slice());
    assert_eq!(decoded.data, block.data);
    assert_eq!(decoded.offsets, block.offsets);
}

#[test]
fn single_entry_block_round_trip() {
    let block = build_block(&[(b"only", b"value")], 4096);
    let encoded = block.encode();
    let decoded = Block::decode(encoded.as_slice());
    assert_eq!(decoded.data, block.data);
    assert_eq!(decoded.offsets, block.offsets);
    let mut it = BlockIterator::create_and_seek_to_first(decoded);
    assert!(it.is_valid());
    assert_eq!(it.key().as_slice(), b"only");
    assert_eq!(it.value().as_slice(), b"value");
    it.next();
    assert!(!it.is_valid());
}

#[test]
fn empty_block_round_trip() {
    let b = BlockBuilder::new(16);
    let block = b.build();
    let encoded = block.encode();
    assert_eq!(encoded.len(), 2);
    let decoded = Block::decode(encoded.as_slice());
    assert!(decoded.data.is_empty());
    assert!(decoded.offsets.is_empty());
}

#[test]
fn oversized_entry_accepted_into_empty_block() {
    // an entry far larger than the budget still goes into an empty block
    let mut b = BlockBuilder::new(16);
    let big_value = vec![7u8; 100];
    assert!(b.add(b"huge", &big_value));
    // but the next entry is rejected: the block is over budget
    assert!(!b.add(b"tail", b"x"));
    let block = b.build();
    assert_eq!(block.offsets.len(), 1);
}

#[test]
fn builder_size_budget_formula() {
    // entry: 2 + 3 + 2 + 3 = 10 bytes of data; plus offset slot and count
    // the projected size of one entry is 10 + 2 + 2 = 14
    let mut exact = BlockBuilder::new(14);
    assert!(exact.add(b"abc", b"xyz"));
    assert!(exact.is_empty() == false);
    let mut too_small = BlockBuilder::new(14);
    assert!(too_small.add(b"abc", b"xyz"));
    // a second identical entry needs 14 more bytes: rejected
    assert!(!too_small.add(b"bcd", b"xyz"));
}

#[test]
fn seek_to_key_lands_on_equal_key() {
    let block = build_block(&[(b"b", b"1"), (b"d", b"2"), (b"f", b"3")], 4096);
    let it = BlockIterator::create_and_seek_to_key(block, b"d");
    assert!(it.is_valid());
    assert_eq!(it.key().as_slice(), b"d");
    assert_eq!(it.value().as_slice(), b"2");
}

#[test]
fn seek_to_key_lands_on_next_greater_key() {
    let block = build_block(&[(b"b", b"1"), (b"d", b"2"), (b"f", b"3")], 4096);
    let it = BlockIterator::create_and_seek_to_key(block, b"c");
    assert!(it.is_valid());
    assert_eq!(it.key().as_slice(), b"d");
}

#[test]
fn seek_past_every_key_is_invalid() {
    let block = build_block(&[(b"b", b"1"), (b"d", b"2"), (b"f", b"3")], 4096);
    let it = BlockIterator::create_and_seek_to_key(block, b"g");
    assert!(!it.is_valid());
}

#[test]
fn block_iteration_returns_all_entries_in_order() {
    let block = build_block(&[(b"a", b"1"), (b"b", b"2"), (b"c", b"3")], 4096);
    let mut it = BlockIterator::create_and_seek_to_first(block);
    let mut seen: Vec<(Vec<u8>, Vec<u8>)> = Vec::new();
    while it.is_valid() {
        seen.push((it.key().clone(), it.value().clone()));
        it.next();
    }
    assert_eq!(
        seen,
        vec![
            (b"a".to_vec(), b"1".to_vec()),
            (b"b".to_vec(), b"2".to_vec()),
            (b"c".to_vec(), b"3".to_vec()),
        ]
    );
}

#[test]
fn check_well_formed_accepts_built_and_rejects_garbage() {
    let block = build_block(&[(b"a", b"1")], 4096);
    assert!(block.check_well_formed());
    let garbage = Block { data: vec![9, 9, 9], offsets: vec![0] };
    assert!(!garbage.check_well_formed());
    // unsorted keys are rejected too
    let mut b1 = BlockBuilder::new(4096);
    assert!(b1.add(b"a", b"1"));
    let mut b2 = BlockBuilder::new(4096);
    assert!(b2.add(b"z", b"1"));
    let blk1 = b1.build();
    let blk2 = b2.build();
    // splice two single-entry blocks into one out-of-order block
    let mut data = blk2.data.clone();
    let off = data.len() as u16;
    data.extend_from_slice(&blk1.data);
    let spliced = Block { data, offsets: vec![0, off] };
    assert!(!spliced.check_well_formed());
}

#[test]
fn block_encoding_exact_bytes() {
    let mut b = BlockBuilder::new(4096);
    assert!(b.add(b"ab", b"c"));
    let block = b.build();
    // entry: key_len=2 | "ab" | value_len=1 | "c"; one offset 0; count 1
    assert_eq!(block.data, vec![0, 2, b'a', b'b', 0, 1, b'c']);
    assert_eq!(block.offsets, vec![0u16]);
    let encoded = block.encode();
    assert_eq!(
        encoded,
        vec![0, 2, b'a', b'b', 0, 1, b'c', 0, 0, 0, 1]
    );
}

#[test]
fn two_entry_block_offsets() {
    let mut b = BlockBuilder::new(4096);
    assert!(b.add(b"a", b"x"));
    assert!(b.add(b"b", b"yy"));
    let block = b.build();
    // first entry takes 2 + 1 + 2 + 1 = 6 bytes
    assert_eq!(block.offsets, vec![0u16, 6u16]);
    let encoded = block.encode();
    // trailing: offsets 0 and 6 big-endian, then the count 2
    let n = encoded.len();
    assert_eq!(&encoded[n - 6..], &[0, 0, 0, 6, 0, 2]);
}
