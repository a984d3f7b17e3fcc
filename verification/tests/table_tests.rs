//! Sorted-run format, iteration and the block cache path.

use std::sync::Arc;

use mini_lsm::errors::LsmError;
use mini_lsm::iterators::StorageIterator;
use mini_lsm::table::{cache_new, BlockMeta, SsTable, SsTableBuilder, SsTableIterator};

fn sample_entries(n: usize) -> Vec<(Vec<u8>, Vec<u8>)> {
    let mut out = Vec::new();
    for i in 0..n {
        out.push((
            format!("key{:05}", i).into_bytes(),
            format!("value{:05}", i).into_bytes(),
        ));
    }
    out
}

fn build_run(entries: &[(Vec<u8>, Vec<u8>)], block_size: usize, id: usize) -> SsTable {
    let mut b = SsTableBuilder::new(block_size);
    for (k, v) in entries {
        b.add(k, v).unwrap();
    }
    b.build(id, None).unwrap()
}

#[test]
fn run_iteration_yields_input_in_order() {
    let entries = sample_entries(100);
    // a small block size so the run spans many blocks
    let run = build_run(&entries, 64, 1);
    assert!(run.num_of_blocks() > 1);
    let mut it = SsTableIterator::create_and_seek_to_first(Arc::new(run)).unwrap();
    let mut seen = Vec::new();
    while it.is_valid() {
        seen.push((it.key().clone(), it.value().clone()));
        it.next().unwrap();
    }
    assert_eq!(seen, entries);
}

#[test]
fn run_seek_lands_on_equal_key() {
    let entries = sample_entries(50);
    let run = Arc::new(build_run(&entries, 64, 1));
    let it = SsTableIterator::create_and_seek_to_key(run, b"key00031").unwrap();
    assert!(it.is_valid());
    assert_eq!(it.key().as_slice(), b"key00031");
    assert_eq!(it.value().as_slice(), b"value00031");
}

#[test]
fn run_seek_past_every_key_is_invalid() {
    let entries = sample_entries(10);
    let run = Arc::new(build_run(&entries, 64, 1));
    let it = SsTableIterator::create_and_seek_to_key(run, b"zzz").unwrap();
    assert!(!it.is_valid());
}

#[test]
fn run_first_and_last_keys() {
    let entries = sample_entries(10);
    let run = build_run(&entries, 64, 7);
    assert_eq!(run.first_key().as_slice(), b"key00000");
    assert_eq!(run.last_key().as_slice(), b"key00009");
    assert_eq!(run.sst_id(), 7);
}

#[test]
fn run_file_bytes_reopen_round_trip() {
    let entries = sample_entries(30);
    let run = build_run(&entries, 64, 3);
    let bytes = run.file_bytes.clone();
    let reopened = SsTable::open(3, None, bytes).unwrap();
    let mut it = SsTableIterator::create_and_seek_to_first(Arc::new(reopened)).unwrap();
    let mut seen = Vec::new();
    while it.is_valid() {
        seen.push((it.key().clone(), it.value().clone()));
        it.next().unwrap();
    }
    assert_eq!(seen, entries);
}

#[test]
fn open_rejects_corrupt_bytes() {
    assert!(matches!(SsTable::open(0, None, vec![]), Err(LsmError::CorruptFormat)));
    // meta offset beyond the buffer
    assert!(matches!(
        SsTable::open(0, None, vec![0, 0, 0, 0, 0, 9]),
        Err(LsmError::CorruptFormat)
    ));
    // a valid run with one flipped meta byte
    let entries = sample_entries(5);
    let run = build_run(&entries, 64, 1);
    let mut bytes = run.file_bytes.clone();
    let n = bytes.len();
    bytes[n - 5] ^= 0xFF;
    assert!(matches!(SsTable::open(1, None, bytes), Err(LsmError::CorruptFormat)));
}

#[test]
fn read_block_out_of_range() {
    let entries = sample_entries(5);
    let run = build_run(&entries, 4096, 1);
    assert_eq!(run.num_of_blocks(), 1);
    assert!(run.read_block(0).is_ok());
    match run.read_block(1) {
        Err(LsmError::OutOfRange) => {}
        _ => panic!("expected an out-of-range error"),
    }
}

#[test]
fn read_block_cached_matches_uncached() {
    let entries = sample_entries(40);
    let mut b = SsTableBuilder::new(64);
    for (k, v) in &entries {
        b.add(k, v).unwrap();
    }
    let run = b.build(1, Some(cache_new(128))).unwrap();
    for i in 0..run.num_of_blocks() {
        let direct = run.read_block(i).unwrap();
        let cached_miss = run.read_block_cached(i).unwrap();
        // the second read is served from the cache
        let cached_hit = run.read_block_cached(i).unwrap();
        assert_eq!(direct.data, cached_miss.data);
        assert_eq!(direct.offsets, cached_miss.offsets);
        assert_eq!(direct.data, cached_hit.data);
        assert_eq!(direct.offsets, cached_hit.offsets);
    }
}

#[test]
fn meta_codec_round_trip() {
    let metas = vec![
        BlockMeta { offset: 0, first_key: b"a".to_vec(), last_key: b"d".to_vec() },
        BlockMeta { offset: 40, first_key: b"e".to_vec(), last_key: b"k".to_vec() },
    ];
    let mut buf = Vec::new();
    BlockMeta::encode_block_meta(&metas, &mut buf);
    let decoded = BlockMeta::decode_block_meta(buf.as_slice()).unwrap();
    assert_eq!(decoded.len(), 2);
    assert_eq!(decoded[0].offset, 0);
    assert_eq!(decoded[0].first_key, b"a".to_vec());
    assert_eq!(decoded[1].last_key, b"k".to_vec());
    // truncated buffers are rejected
    let short = &buf[..buf.len() - 1];
    assert!(matches!(
        BlockMeta::decode_block_meta(short),
        Err(LsmError::CorruptFormat)
    ));
    assert!(matches!(
        BlockMeta::decode_block_meta(&[0]),
        Err(LsmError::CorruptFormat)
    ));
}
