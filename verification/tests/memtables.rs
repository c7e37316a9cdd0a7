use mini_mito::memtable::columnar::{series_hash, ColumnarMemtable};
use mini_mito::memtable::recovery::merge_orphan;
use mini_mito::memtable::skiptable::SkipList;
use mini_mito::memtable::traits::{ImmutableMemtable, Memtable};
use mini_mito::memtable::version::Version;
use mini_mito::schema::TableSchema;
use mini_mito::types::{Key, Value};

fn k(tag: u8, ts: i64) -> Key {
    (vec![tag], ts)
}

fn v(s: &str) -> Value {
    s.as_bytes().to_vec()
}

fn schema() -> TableSchema {
    TableSchema::default_table()
}

fn fresh() -> ColumnarMemtable {
    ColumnarMemtable::with_default_config("wal_000.log".to_string(), &[])
}

fn write(m: &mut ColumnarMemtable, key: Key, seq: u64, value: Option<Value>) -> Option<Value> {
    let pending = m.write(key, seq, value);
    m.finish_write(pending)
}

#[test]
fn write_get_unsorted_timestamps() {
    let mut m = fresh();
    assert_eq!(write(&mut m, k(1, 30), 1, Some(v("c"))), None);
    assert_eq!(write(&mut m, k(1, 10), 2, Some(v("a"))), None);
    assert_eq!(write(&mut m, k(1, 20), 3, Some(v("b"))), None);
    assert_eq!(m.get(&k(1, 10)), Some((2, Some(v("a")))));
    assert_eq!(m.get(&k(1, 99)), None);
    assert_eq!(m.len(), 3);
    let batches = m.to_batches(&schema()).unwrap();
    assert_eq!(batches.len(), 1);
    assert_eq!(batches[0].num_rows(), 3);
}

#[test]
fn duplicate_key_newest_wins() {
    let mut m = fresh();
    write(&mut m, k(5, 0), 1, Some(v("old")));
    assert_eq!(write(&mut m, k(5, 0), 2, Some(v("new"))), Some(v("old")));
    assert_eq!(write(&mut m, k(5, 0), 1, Some(v("late"))), Some(v("new")));
    assert_eq!(m.get(&k(5, 0)), Some((2, Some(v("new")))));
    assert_eq!(m.len(), 3);
}

#[test]
fn tombstone_and_reput() {
    let mut m = fresh();
    write(&mut m, k(7, 1), 1, Some(v("x")));
    assert_eq!(write(&mut m, k(7, 1), 2, None), Some(v("x")));
    assert_eq!(m.get(&k(7, 1)), Some((2, None)));
    assert_eq!(write(&mut m, k(7, 1), 3, Some(v("y"))), None);
    assert_eq!(m.get(&k(7, 1)), Some((3, Some(v("y")))));
}

#[test]
fn freeze_roundtrip_multi_series() {
    let mut m = ColumnarMemtable::new(4, "wal_000.log".to_string(), &[]);
    write(&mut m, k(1, 10), 1, Some(v("a")));
    write(&mut m, k(2, 20), 2, Some(v("b")));
    write(&mut m, k(1, 11), 3, None);
    let frozen = m.freeze();
    assert_eq!(frozen.get(&k(1, 10)), Some((1, Some(v("a")))));
    assert_eq!(frozen.get(&k(1, 11)), Some((3, None)));
    assert_eq!(frozen.max_seq(), 3);
    assert_eq!(frozen.len(), 3);
    let batches = frozen.to_batches(&schema()).unwrap();
    assert_eq!(batches.len(), 2);
    assert_eq!(batches.iter().map(|b| b.num_rows()).sum::<usize>(), 3);
    let again = frozen.to_batches(&schema()).unwrap();
    assert_eq!(again.len(), batches.len());
}

#[test]
fn persistence_reopen() {
    let mut log = Vec::new();
    {
        let mut m = fresh();
        let pending = m.write(k(9, 100), 1, Some(v("kept")));
        log.extend(&pending.append.bytes);
        m.finish_write(pending);
        let pending = m.write(k(9, 101), 2, None);
        log.extend(&pending.append.bytes);
        m.finish_write(pending);
    }
    let m2 = ColumnarMemtable::with_default_config("wal_000.log".to_string(), &log);
    assert_eq!(m2.get(&k(9, 100)), Some((1, Some(v("kept")))));
    assert_eq!(m2.get(&k(9, 101)), Some((2, None)));
    assert_eq!(m2.max_seq(), 2);
}

#[test]
fn fork_creates_fresh_writable() {
    let mut m = fresh();
    write(&mut m, k(1, 1), 1, Some(v("x")));
    let mut f = m.fork(&[]).unwrap();
    assert_eq!(f.get(&k(1, 1)), None);
    write(&mut f, k(2, 5), 1, Some(v("fresh")));
    assert_eq!(f.get(&k(2, 5)).map(|(_, v)| v), Some(Some(v("fresh"))));
    assert_eq!(f.freeze().wal_path(), "wal_001.log");
}

#[test]
fn estimated_size_tracks_payload() {
    let mut m = fresh();
    write(&mut m, k(1, 1), 1, Some(vec![0u8; 16]));
    let small = m.estimated_size();
    write(&mut m, k(1, 2), 2, Some(vec![0u8; 4096]));
    assert!(m.estimated_size() - small >= 4096);
    assert_eq!(small, 33);
    assert_eq!(m.estimated_size(), 33 + 17 + 4096);
}

#[test]
fn write_takes_place_when_it_is_finished() {
    let mut m = fresh();
    let pending = m.write(k(1, 1), 1, Some(v("x")));
    assert_eq!(m.get(&k(1, 1)), None);
    m.finish_write(pending);
    assert_eq!(m.get(&k(1, 1)), Some((1, Some(v("x")))));
    let pending = m.write_batch(vec![(k(1, 1), 2, None), (k(3, 1), 3, Some(v("y")))]);
    assert_eq!(m.len(), 1);
    m.finish_batch(pending);
    assert_eq!(m.get(&k(1, 1)), Some((2, None)));
    assert_eq!(m.max_seq(), 3);
}

#[test]
fn batches_come_in_the_order_of_their_series() {
    let mut m = fresh();
    for tag in [9u8, 1, 200, 4] {
        write(&mut m, k(tag, 2), tag as u64, Some(v("b")));
        write(&mut m, k(tag, 1), tag as u64, Some(v("a")));
    }
    let batches = m.to_batches(&schema()).unwrap();
    let tags: Vec<u8> = batches
        .iter()
        .map(|b| b.cell(0, 0).unwrap()[0])
        .collect();
    assert_eq!(tags, vec![1, 4, 9, 200]);
    for b in &batches {
        assert_eq!(b.ts_value(1, 0), 1);
        assert_eq!(b.ts_value(1, 1), 2);
    }
}

#[test]
fn series_are_hashed_with_fnv() {
    assert_eq!(series_hash(&vec![]), 0xcbf29ce484222325);
    assert_eq!(series_hash(&vec![b'a']), 0xaf63dc4c8601ec8c);
}

#[test]
fn insert_multiple_reverse() {
    let mut list = SkipList::new();
    list.insert(k(3, 0), 1, Some(v("c")));
    list.insert(k(2, 0), 2, Some(v("b")));
    list.insert(k(1, 0), 3, Some(v("a")));
    let keys: Vec<Key> = list.iter().into_iter().map(|e| e.0).collect();
    assert_eq!(keys, vec![k(1, 0), k(2, 0), k(3, 0)]);
}

#[test]
fn insert_update() {
    let mut list = SkipList::new();
    let old = list.insert(k(5, 0), 1, Some(v("old")));
    assert_eq!(old, None);
    let old = list.insert(k(5, 0), 2, Some(v("new")));
    assert_eq!(old, Some(v("old")));
}

#[test]
fn insert_keeps_higher_seq() {
    let mut list = SkipList::new();
    list.insert(k(5, 0), 5, Some(v("five")));
    let old = list.insert(k(5, 0), 1, Some(v("one")));
    assert_eq!(old, Some(v("five")));
    assert_eq!(list.get(&k(5, 0)).unwrap().0, 5);
    assert_eq!(list.get(&k(5, 0)).unwrap().1, Some(v("five")));
}

#[test]
fn test_get() {
    let mut list = SkipList::new();
    list.insert(k(5, 0), 1, Some(v("hello")));
    assert_eq!(list.get(&k(5, 0)), Some((1, Some(v("hello")))));
    assert_eq!(list.get(&k(6, 0)), None);
}

#[test]
fn test_tombstone() {
    let mut list = SkipList::new();
    list.insert(k(5, 0), 1, Some(v("hello")));
    assert_eq!(list.insert(k(5, 0), 2, None), Some(v("hello")));
    assert_eq!(list.get(&k(5, 0)), Some((2, None)));
    assert_eq!(list.len(), 1);
}

#[test]
fn skip_list_counts_and_tops() {
    let mut list = SkipList::default();
    assert!(list.is_empty());
    assert_eq!(list.max_seq(), 0);
    list.insert(k(1, 5), 9, None);
    list.insert(k(1, -5), 4, Some(v("x")));
    assert!(!list.is_empty());
    assert_eq!(list.max_seq(), 9);
    assert_eq!(
        list.iter(),
        vec![(k(1, -5), 4, Some(v("x"))), (k(1, 5), 9, None)]
    );
}

#[test]
fn frozen_rows_stay_readable_in_a_version() {
    let mut active = fresh();
    write(&mut active, k(1, 10), 1, Some(v("a")));
    let mut version = Version::new(active, Vec::new(), 1).with_frozen(fresh());
    assert_eq!(version.immutables.len(), 1);
    assert_eq!(version.active.get(&k(1, 10)), None);
    assert_eq!(version.get_in_memory(&k(1, 10)), Some((1, Some(v("a")))));
    write(&mut version.active, k(1, 10), 2, None);
    assert_eq!(version.get_in_memory(&k(1, 10)), Some((2, None)));
}

#[test]
fn every_hundredth_write_is_synced() {
    let mut m = fresh();
    for round in 0..2u64 {
        for i in 0..100u64 {
            let pending = m.write(k(1, i as i64), round * 100 + i + 1, None);
            assert_eq!(pending.append.sync, i == 99);
            m.finish_write(pending);
        }
    }
    let rows = |n: i64| (0..n).map(|i| (k(2, i), 500, Some(v("x")))).collect();
    let pending = m.write_batch(rows(99));
    assert!(!pending.append.sync);
    m.finish_batch(pending);
    let pending = m.write_batch(rows(1));
    assert!(pending.append.sync);
    m.finish_batch(pending);
    assert!(!m.write_batch(Vec::new()).append.sync);
}

#[test]
fn batches_stay_the_same_when_the_memtable_is_frozen() {
    let mut m = fresh();
    for i in 0..20u8 {
        write(&mut m, k(i % 4, i as i64), i as u64 + 1, Some(v("x")));
    }
    let before = m.to_batches(&schema()).unwrap();
    assert_eq!(before.len(), 4);
    for batch in &before {
        let tags = &batch.cols[0];
        assert!(tags.iter().all(|t| *t == tags[0]));
    }
    let frozen = m.freeze();
    for _ in 0..2 {
        let after = frozen.to_batches(&schema()).unwrap();
        assert_eq!(after.len(), before.len());
        for (a, b) in after.iter().zip(&before) {
            assert_eq!((&a.cols, &a.seqs, &a.ops), (&b.cols, &b.seqs, &b.ops));
        }
    }
}

#[test]
fn only_what_is_newer_is_taken_over_from_an_orphaned_log() {
    let mut orphan = fresh();
    let mut log = Vec::new();
    for (key, seq, value) in [
        (k(1, 1), 3, Some(v("old"))),
        (k(1, 2), 4, Some(v("first"))),
        (k(1, 2), 9, None),
        (k(2, 1), 5, Some(v("same"))),
        (k(3, 1), 6, Some(v("only"))),
    ] {
        let pending = orphan.write(key, seq, value);
        log.extend_from_slice(&pending.append.bytes);
        orphan.finish_write(pending);
    }
    let mut active = fresh();
    write(&mut active, k(1, 1), 7, Some(v("new")));
    write(&mut active, k(1, 2), 8, Some(v("kept until now")));
    write(&mut active, k(2, 1), 5, Some(v("same")));
    let appends = merge_orphan(&mut active, &log);
    assert_eq!(appends.len(), 2);
    assert_eq!(active.len(), 5);
    assert_eq!(active.get(&k(1, 1)), Some((7, Some(v("new")))));
    assert_eq!(active.get(&k(1, 2)), Some((9, None)));
    assert_eq!(active.get(&k(2, 1)), Some((5, Some(v("same")))));
    assert_eq!(active.get(&k(3, 1)), Some((6, Some(v("only")))));
    assert!(merge_orphan(&mut active, &log).is_empty());
}
