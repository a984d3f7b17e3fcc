//! End-to-end engine scenarios and the surface iterators.

use mini_lsm::bounds::KeyBound;
use mini_lsm::errors::LsmError;
use mini_lsm::iterators::merge_iterator::MergeIterator;
use mini_lsm::iterators::StorageIterator;
use mini_lsm::lsm_iterator::FusedIterator;
use mini_lsm::lsm_storage::{CompactionOptions, LsmStorageInner, LsmStorageOptions};
use mini_lsm::mem_table::MemTable;

fn small_options(target_sst_size: usize) -> LsmStorageOptions {
    LsmStorageOptions {
        block_size: 4096,
        target_sst_size,
        num_memtable_limit: 50,
        compaction_options: CompactionOptions::NoCompaction,
        enable_wal: false,
        serializable: false,
    }
}

fn collect(engine: &LsmStorageInner, lower: KeyBound, upper: KeyBound) -> Vec<(Vec<u8>, Vec<u8>)> {
    let mut it = engine.scan(&lower, upper).unwrap();
    let mut out = Vec::new();
    while it.is_valid() {
        out.push((it.key().clone(), it.value().clone()));
        it.next().unwrap();
    }
    out
}

#[test]
fn put_get_round_trip() {
    let mut engine = LsmStorageInner::open(LsmStorageOptions::default_for_week1_test());
    engine.put(b"a", b"1").unwrap();
    engine.put(b"b", b"2").unwrap();
    assert_eq!(engine.get(b"a").unwrap(), Some(b"1".to_vec()));
    assert_eq!(engine.get(b"b").unwrap(), Some(b"2".to_vec()));
    assert_eq!(engine.get(b"c").unwrap(), None);
}

#[test]
fn tombstone_hides_prior_value() {
    let mut engine = LsmStorageInner::open(LsmStorageOptions::default_for_week1_test());
    engine.put(b"k", b"v1").unwrap();
    engine.delete(b"k").unwrap();
    assert_eq!(engine.get(b"k").unwrap(), None);
    let all = collect(&engine, KeyBound::Unbounded, KeyBound::Unbounded);
    assert!(all.is_empty());
}

#[test]
fn layered_precedence_memtable_over_run() {
    let mut engine = LsmStorageInner::open(LsmStorageOptions::default_for_week1_test());
    // an L0 run holding the old binding
    engine.put(b"k", b"old").unwrap();
    engine.force_freeze_memtable().unwrap();
    engine.force_flush_next_imm_memtable().unwrap();
    assert!(!engine.state.l0_sstables.is_empty());
    // the mem-table holds the new binding
    engine.put(b"k", b"new").unwrap();
    assert_eq!(engine.get(b"k").unwrap(), Some(b"new".to_vec()));
    let all = collect(&engine, KeyBound::Unbounded, KeyBound::Unbounded);
    assert_eq!(all, vec![(b"k".to_vec(), b"new".to_vec())]);
}

#[test]
fn freeze_and_flush_many_entries() {
    let mut engine = LsmStorageInner::open(small_options(64));
    let mut expected = Vec::new();
    for i in 0..16u32 {
        let key = format!("key{:05}", i).into_bytes();
        let value = format!("val{:05}", i).into_bytes();
        assert_eq!(key.len(), 8);
        assert_eq!(value.len(), 8);
        engine.put(&key, &value).unwrap();
        expected.push((key, value));
    }
    if !engine.state.memtable.is_empty() {
        engine.force_freeze_memtable().unwrap();
    }
    while !engine.state.imm_memtables.is_empty() {
        engine.force_flush_next_imm_memtable().unwrap();
    }
    assert!(!engine.state.l0_sstables.is_empty());
    let all = collect(&engine, KeyBound::Unbounded, KeyBound::Unbounded);
    assert_eq!(all, expected);
}

#[test]
fn range_scan_bounds() {
    let mut engine = LsmStorageInner::open(LsmStorageOptions::default_for_week1_test());
    for (k, v) in [
        (b"a", b"va"),
        (b"b", b"vb"),
        (b"c", b"vc"),
        (b"d", b"vd"),
        (b"e", b"ve"),
    ] {
        engine.put(k, v).unwrap();
    }
    let got = collect(
        &engine,
        KeyBound::Included(b"b".to_vec()),
        KeyBound::Excluded(b"d".to_vec()),
    );
    assert_eq!(
        got,
        vec![(b"b".to_vec(), b"vb".to_vec()), (b"c".to_vec(), b"vc".to_vec())]
    );
}

#[test]
fn range_scan_bounds_across_run_and_memtable() {
    let mut engine = LsmStorageInner::open(LsmStorageOptions::default_for_week1_test());
    engine.put(b"a", b"va").unwrap();
    engine.put(b"c", b"vc").unwrap();
    engine.put(b"e", b"ve").unwrap();
    engine.force_freeze_memtable().unwrap();
    engine.force_flush_next_imm_memtable().unwrap();
    engine.put(b"b", b"vb").unwrap();
    engine.put(b"d", b"vd").unwrap();
    let got = collect(
        &engine,
        KeyBound::Excluded(b"a".to_vec()),
        KeyBound::Included(b"d".to_vec()),
    );
    assert_eq!(
        got,
        vec![
            (b"b".to_vec(), b"vb".to_vec()),
            (b"c".to_vec(), b"vc".to_vec()),
            (b"d".to_vec(), b"vd".to_vec()),
        ]
    );
}

#[test]
fn merge_order_stability_smallest_index_wins() {
    let mut m0 = MemTable::create(0);
    let mut m1 = MemTable::create(1);
    let mut m2 = MemTable::create(2);
    m0.put(b"k", b"v0").unwrap();
    m1.put(b"k", b"v1").unwrap();
    m2.put(b"k", b"v2").unwrap();
    let iters = vec![
        m0.scan(&KeyBound::Unbounded, &KeyBound::Unbounded),
        m1.scan(&KeyBound::Unbounded, &KeyBound::Unbounded),
        m2.scan(&KeyBound::Unbounded, &KeyBound::Unbounded),
    ];
    let mut merged = MergeIterator::create(iters);
    assert!(merged.is_valid());
    assert_eq!(merged.key().as_slice(), b"k");
    assert_eq!(merged.value().as_slice(), b"v0");
    merged.next().unwrap();
    assert!(!merged.is_valid());
}

#[test]
fn merge_emits_sorted_without_duplicates() {
    let mut m0 = MemTable::create(0);
    let mut m1 = MemTable::create(1);
    m0.put(b"b", b"b0").unwrap();
    m0.put(b"d", b"d0").unwrap();
    m1.put(b"a", b"a1").unwrap();
    m1.put(b"b", b"b1").unwrap();
    m1.put(b"c", b"c1").unwrap();
    let iters = vec![
        m0.scan(&KeyBound::Unbounded, &KeyBound::Unbounded),
        m1.scan(&KeyBound::Unbounded, &KeyBound::Unbounded),
    ];
    let mut merged = MergeIterator::create(iters);
    let mut seen = Vec::new();
    while merged.is_valid() {
        seen.push((merged.key().clone(), merged.value().clone()));
        merged.next().unwrap();
    }
    assert_eq!(
        seen,
        vec![
            (b"a".to_vec(), b"a1".to_vec()),
            (b"b".to_vec(), b"b0".to_vec()),
            (b"c".to_vec(), b"c1".to_vec()),
            (b"d".to_vec(), b"d0".to_vec()),
        ]
    );
}

#[test]
fn memtable_basic_operations() {
    let mut m = MemTable::create(9);
    assert!(m.is_empty());
    m.for_testing_put_slice(b"x", b"1").unwrap();
    m.for_testing_put_slice(b"x", b"2").unwrap();
    assert!(!m.is_empty());
    assert_eq!(m.for_testing_get_slice(b"x"), Some(b"2".to_vec()));
    assert_eq!(m.for_testing_get_slice(b"y"), None);
    assert_eq!(m.id(), 9);
    let mut it = m.for_testing_scan_slice(&KeyBound::Unbounded, &KeyBound::Unbounded);
    assert!(it.is_valid());
    assert_eq!(it.key().as_slice(), b"x");
    assert_eq!(it.value().as_slice(), b"2");
    it.next().unwrap();
    assert!(!it.is_valid());
}

#[test]
fn fused_iterator_is_sticky_on_exhaustion() {
    let mut engine = LsmStorageInner::open(LsmStorageOptions::default_for_week1_test());
    engine.put(b"a", b"1").unwrap();
    let mut it = engine.scan(&KeyBound::Unbounded, KeyBound::Unbounded).unwrap();
    assert!(it.is_valid());
    it.next().unwrap();
    assert!(!it.is_valid());
    // next on an exhausted iterator stays a successful no-op
    it.next().unwrap();
    it.next().unwrap();
    assert!(!it.is_valid());
}

#[test]
fn fused_iterator_is_sticky_on_error() {
    let mut engine = LsmStorageInner::open(LsmStorageOptions::default_for_week1_test());
    engine.put(b"a", b"1").unwrap();
    let inner = engine.scan(&KeyBound::Unbounded, KeyBound::Unbounded).unwrap();
    // a fused wrapper whose error flag is latched refuses every next
    let mut it = FusedIterator { iter: inner.iter, has_errored: true };
    assert!(!it.is_valid());
    assert!(matches!(it.next(), Err(LsmError::IteratorTainted)));
    assert!(matches!(it.next(), Err(LsmError::IteratorTainted)));
}

#[test]
fn upper_bound_is_loss_of_validity_not_error() {
    let mut engine = LsmStorageInner::open(LsmStorageOptions::default_for_week1_test());
    engine.put(b"a", b"1").unwrap();
    engine.put(b"b", b"2").unwrap();
    engine.put(b"c", b"3").unwrap();
    let mut it = engine
        .scan(&KeyBound::Unbounded, KeyBound::Excluded(b"b".to_vec()))
        .unwrap();
    assert!(it.is_valid());
    assert_eq!(it.key().as_slice(), b"a");
    it.next().unwrap();
    // the first out-of-range key is never reported
    assert!(!it.is_valid());
}

#[test]
fn tombstone_hides_flushed_value() {
    let mut engine = LsmStorageInner::open(LsmStorageOptions::default_for_week1_test());
    engine.put(b"k", b"old").unwrap();
    engine.put(b"stay", b"s").unwrap();
    engine.force_freeze_memtable().unwrap();
    engine.force_flush_next_imm_memtable().unwrap();
    engine.delete(b"k").unwrap();
    assert_eq!(engine.get(b"k").unwrap(), None);
    assert_eq!(engine.get(b"stay").unwrap(), Some(b"s".to_vec()));
    let all = collect(&engine, KeyBound::Unbounded, KeyBound::Unbounded);
    assert_eq!(all, vec![(b"stay".to_vec(), b"s".to_vec())]);
}
