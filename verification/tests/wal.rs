use mini_mito::memtable::wal::{
    accept_frame, decode_ops, encode_kv, encode_ops, frame_bytes, Operation, SyncPolicy, Wal,
};
use mini_mito::types::{Key, Value};

fn k(tag: u8, ts: i64) -> Key {
    (vec![tag], ts)
}

fn v(s: &str) -> Value {
    s.as_bytes().to_vec()
}

fn insert(key: Key, seq: u64, value: &str) -> Operation {
    Operation::Insert {
        key,
        seq,
        value: v(value),
    }
}

#[derive(Default)]
struct Rows(Vec<(Key, u64, Option<Value>)>);

impl Rows {
    fn recovered(log: &[u8]) -> Rows {
        let mut rows = Rows::default();
        for op in Wal::recover(log) {
            match op {
                Operation::Insert { key, seq, value } | Operation::Update { key, seq, value } => {
                    rows.0.push((key, seq, Some(value)));
                }
                Operation::Delete { key, seq } => rows.0.push((key, seq, None)),
            }
        }
        rows
    }

    fn get(&self, key: &Key) -> Option<(u64, Option<Value>)> {
        self.0
            .iter()
            .rev()
            .find(|(k, _, _)| k == key)
            .map(|(_, s, v)| (*s, v.clone()))
    }

    fn len(&self) -> usize {
        self.0.len()
    }
}

fn log_of(ops: &[Operation]) -> Vec<u8> {
    Wal::new("test.log".to_string()).append_batch(ops).bytes
}

#[test]
fn test_wal_insert_and_recover() {
    let log = log_of(&[insert(k(1, 0), 1, "one"), insert(k(2, 0), 2, "two")]);
    let rows = Rows::recovered(&log);
    assert_eq!(rows.get(&k(1, 0)), Some((1, Some(v("one")))));
    assert_eq!(rows.get(&k(2, 0)), Some((2, Some(v("two")))));
    assert_eq!(rows.len(), 2);
}

#[test]
fn test_wal_update_and_delete() {
    let log = log_of(&[
        insert(k(10, 0), 1, "old"),
        Operation::Update {
            key: k(10, 0),
            seq: 2,
            value: v("new"),
        },
        Operation::Delete {
            key: k(10, 0),
            seq: 3,
        },
    ]);
    let rows = Rows::recovered(&log);
    assert_eq!(rows.get(&k(10, 0)), Some((3, None)));
    assert_eq!(rows.len(), 3);
}

#[test]
fn test_wal_empty_recover() {
    let rows = Rows::recovered(&[]);
    assert_eq!(rows.len(), 0);
}

#[test]
fn test_wal_roundtrip_preserves_seq() {
    let log = log_of(&[
        insert(k(1, 0), 42, "x"),
        Operation::Delete {
            key: k(1, 0),
            seq: 43,
        },
    ]);
    let rows = Rows::recovered(&log);
    assert_eq!(rows.get(&k(1, 0)), Some((43, None)));
    assert_eq!(
        rows.get(&k(1, 0))
            .unwrap()
            .0
            .max(rows.0.iter().map(|r| r.1).max().unwrap()),
        43
    );
}

#[test]
fn test_wal_torn_tail_recovered_gracefully() {
    let mut log = log_of(&[insert(k(1, 0), 1, "a")]);
    let mut frame = Vec::new();
    encode_ops(&[insert(k(2, 0), 2, "b")], &mut frame);
    log.extend((frame.len() as u32).to_le_bytes());
    log.extend(crc32fast::hash(&frame).to_le_bytes());
    log.extend(&frame);
    log.extend((frame.len() as u32).to_le_bytes());
    log.extend(crc32fast::hash(&frame).to_le_bytes());
    log.extend(&frame[..frame.len() / 2]);

    let rows = Rows::recovered(&log);
    assert_eq!(rows.len(), 2);
    assert_eq!(rows.get(&k(2, 0)), Some((2, Some(v("b")))));
}

#[test]
fn test_wal_corrupt_length_prefix_stops_cleanly() {
    let mut log = log_of(&[insert(k(1, 0), 1, "a")]);
    log.extend(u32::MAX.to_le_bytes());
    let rows = Rows::recovered(&log);
    assert_eq!(rows.len(), 1);
}

#[test]
fn test_wal_sync_policy_smoke() {
    let mut wal = Wal::with_sync_policy("sync.log".to_string(), SyncPolicy::Interval(2));
    let mut synced = Vec::new();
    for i in 0..5u64 {
        synced.push(wal.append(&insert(k(1, i as i64), i, "x")).sync);
    }
    assert_eq!(synced, vec![false, true, false, true, false]);

    let mut always = Wal::with_sync_policy("always.log".to_string(), SyncPolicy::Always);
    let op = Operation::Delete {
        key: k(1, 0),
        seq: 9,
    };
    assert!(always.append(&op).sync);
    assert_eq!(always.path(), "always.log");
}

fn frame_payload_ranges(bytes: &[u8]) -> Vec<(usize, usize)> {
    let mut out = Vec::new();
    let mut pos = 0usize;
    while pos + 8 <= bytes.len() {
        let len = u32::from_le_bytes(bytes[pos..pos + 4].try_into().unwrap()) as usize;
        if len == 0 || pos + 8 + len > bytes.len() {
            break;
        }
        out.push((pos + 8, len));
        pos += 8 + len;
    }
    out
}

fn two_frames() -> Vec<u8> {
    let mut wal = Wal::new("crc.log".to_string());
    let mut bytes = wal.append(&insert(k(1, 0), 1, "a")).bytes;
    bytes.extend(wal.append(&insert(k(2, 0), 2, "b")).bytes);
    bytes
}

#[test]
fn test_wal_bit_flip_in_payload_detected_by_crc() {
    let mut bytes = two_frames();
    let ranges = frame_payload_ranges(&bytes);
    assert_eq!(ranges.len(), 2);
    let (start, len) = ranges[1];
    bytes[start + len - 1] ^= 0x01;

    let rows = Rows::recovered(&bytes);
    assert_eq!(rows.get(&k(1, 0)), Some((1, Some(v("a")))));
    assert_eq!(rows.get(&k(2, 0)), None, "corrupted frame must be dropped");
}

#[test]
fn test_wal_crc_field_flip_detected() {
    let mut bytes = two_frames();
    let ranges = frame_payload_ranges(&bytes);
    assert_eq!(ranges.len(), 2);
    let (start, _) = ranges[1];
    bytes[start - 4] ^= 0x80;

    let rows = Rows::recovered(&bytes);
    assert_eq!(rows.get(&k(1, 0)), Some((1, Some(v("a")))));
    assert_eq!(rows.get(&k(2, 0)), None);
}

#[test]
fn operation_has_its_exact_bytes() {
    let mut buf = Vec::new();
    encode_kv(&(vec![7, 8], 1), 2, Some(&vec![9]), &mut buf);
    let mut want = vec![2, 0, 7, 8];
    want.extend(1i64.to_le_bytes());
    want.extend(2u64.to_le_bytes());
    want.extend([1, 0, 0, 0, 9]);
    assert_eq!(buf, want);

    let mut buf = Vec::new();
    encode_ops(
        &[Operation::Delete {
            key: (vec![], -1),
            seq: 3,
        }],
        &mut buf,
    );
    let mut want = vec![1, 0, 0, 0, 2, 0, 0];
    want.extend((-1i64).to_le_bytes());
    want.extend(3u64.to_le_bytes());
    assert_eq!(buf, want);
}

#[test]
fn frame_carries_length_and_checksum() {
    let bytes = log_of(&[insert(k(1, 0), 1, "a")]);
    let payload = bytes[8..].to_vec();
    assert_eq!(bytes[..4], (payload.len() as u32).to_le_bytes());
    assert_eq!(bytes[4..8], crc32fast::hash(&payload).to_le_bytes());
    assert_eq!(frame_bytes(&payload, crc32fast::hash(&payload)), bytes);
}

#[test]
fn frame_is_accepted_by_its_checksum_alone() {
    let mut payload = Vec::new();
    encode_ops(&[insert(k(1, 0), 1, "a")], &mut payload);
    assert_eq!(accept_frame(&payload, 5, 5).unwrap().len(), 1);
    assert!(accept_frame(&payload, 5, 6).is_none());
}

#[test]
fn payload_that_ends_early_gives_what_is_whole() {
    let mut payload = Vec::new();
    encode_ops(
        &[insert(k(1, 0), 1, "a"), insert(k(2, 0), 2, "b")],
        &mut payload,
    );
    assert_eq!(decode_ops(&payload).len(), 2);
    assert_eq!(decode_ops(&payload[..payload.len() - 1]).len(), 1);
    assert_eq!(decode_ops(&payload[..3]).len(), 0);
}

#[test]
fn every_cut_of_a_log_is_a_prefix() {
    let log = two_frames();
    let mut seen = 0;
    for n in 0..=log.len() {
        let ops = Wal::recover(&log[..n]);
        assert!(ops.len() >= seen && ops.len() <= 2);
        seen = ops.len();
    }
    assert_eq!(seen, 2);
}

#[test]
fn default_policy_syncs_every_hundred_operations() {
    assert!(matches!(SyncPolicy::default(), SyncPolicy::Interval(100)));
    let mut wal = Wal::new("d.log".to_string());
    let ops: Vec<Operation> = (0..99).map(|i| insert(k(1, i), i as u64, "x")).collect();
    assert!(!wal.append_batch(&ops).sync);
    assert!(wal.append(&insert(k(1, 99), 99, "x")).sync);
    assert!(!wal.append(&insert(k(1, 100), 100, "x")).sync);
    assert!(!wal.append_batch(&[]).sync);
}

#[test]
fn every_policy_syncs_as_it_says() {
    let op = |i: u64| Operation::Delete { key: (vec![1], 0), seq: i };
    let flags = |policy: SyncPolicy| -> Vec<bool> {
        let mut wal = Wal::with_sync_policy("p.log".to_string(), policy);
        (0..7).map(|i| wal.append(&op(i)).sync).collect()
    };
    assert_eq!(flags(SyncPolicy::Always), vec![true; 7]);
    assert_eq!(flags(SyncPolicy::Never), vec![false; 7]);
    assert_eq!(flags(SyncPolicy::Interval(0)), vec![false; 7]);
    assert_eq!(
        flags(SyncPolicy::Interval(3)),
        vec![false, false, true, false, false, true, false]
    );
}
