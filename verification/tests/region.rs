//! A region over a disk in memory: logs are byte vectors, and tables are
//! lists of row groups with the stored form of their index.

use std::collections::HashMap;
use std::time::{SystemTime, UNIX_EPOCH};

use mini_mito::batch::{entries_of, key_at, Batch};
use mini_mito::memtable::columnar::ColumnarMemtable;
use mini_mito::memtable::memtable::{watermark, EncodeError, Region};
use mini_mito::memtable::recovery::{
    choose_logs, manifest_of, merge_orphan, sort_entries, ManifestEntry, Registry,
};
use mini_mito::memtable::traits::{ImmutableMemtable, Memtable};
use mini_mito::memtable::transaction::{Transaction, TxError};
use mini_mito::memtable::version::Lookup;
use mini_mito::memtable::wal::Wal;
use mini_mito::query::merge::{MergeBatchIter, MergeStep};
use mini_mito::query::predicate::TimeRange;
use mini_mito::query::stream::{LSMStream, UserBatch};
use mini_mito::schema::{ColumnDef, DataType, SemanticType, TableSchema};
use mini_mito::sstable::index::{IndexDto, SstableIndex, CHUNK_ROWS};
use mini_mito::sstable::sstable::{select_times, SSTable};
use mini_mito::types::{Key, Value};

fn k(tag: u8, ts: i64) -> Key {
    (vec![tag], ts)
}

fn v(s: &str) -> Value {
    s.as_bytes().to_vec()
}

fn now_nanos() -> i64 {
    SystemTime::now()
        .duration_since(UNIX_EPOCH)
        .unwrap_or_default()
        .as_nanos() as i64
}

fn bloom_size(n: usize) -> (u64, u32) {
    let p: f64 = 0.01;
    let ln2 = std::f64::consts::LN_2;
    let m = ((-(n as f64) * p.ln()) / (ln2 * ln2)).ceil() as u64;
    let m = m.max(1024);
    let k = ((m as f64 / n.max(1) as f64) * ln2).ceil() as u32;
    (m, k.clamp(1, 64))
}

fn copy_batch(b: &Batch) -> Batch {
    Batch {
        cols: b.cols.clone(),
        seqs: b.seqs.clone(),
        ops: b.ops.clone(),
    }
}

fn row_groups(batches: &[Batch], ncols: usize) -> Vec<Batch> {
    let mut out: Vec<Batch> = Vec::new();
    for b in batches {
        for i in 0..b.num_rows() {
            if out.last().map_or(true, |g| g.num_rows() == CHUNK_ROWS) {
                out.push(Batch::empty(ncols));
            }
            let g = out.last_mut().unwrap();
            g.push(b.seq_value(i), b.op_type(i), b.row_cells(i));
        }
    }
    out
}

struct TableFile {
    groups: Vec<Batch>,
    index: IndexDto,
}

#[derive(Default)]
struct Disk {
    logs: HashMap<String, Vec<u8>>,
    files: HashMap<String, TableFile>,
    manifest: Option<Vec<ManifestEntry>>,
}

struct Engine {
    disk: Disk,
    region: Region,
}

fn copy_entry(e: &ManifestEntry) -> ManifestEntry {
    ManifestEntry {
        id: e.id,
        path: e.path.clone(),
        min_key: e.min_key.clone(),
        max_key: e.max_key.clone(),
        entry_count: e.entry_count,
    }
}

fn load_index(file: &mut TableFile) -> SstableIndex {
    let empty = IndexDto {
        version: 0,
        bloom: mini_mito::sstable::index::BloomDto {
            m: 0,
            k: 0,
            seed: 0,
            bits: String::new(),
        },
        row_groups: Vec::new(),
        max_seq: 0,
    };
    let dto = std::mem::replace(&mut file.index, empty);
    let index = SstableIndex::from_dto(dto).unwrap();
    file.index = index.to_dto();
    index
}

impl Engine {
    fn new() -> Engine {
        Engine::open(Disk::default(), TableSchema::default_table())
    }

    fn open(mut disk: Disk, schema: TableSchema) -> Engine {
        disk.logs.entry("wal_000.log".to_string()).or_default();
        let mut registry = Registry::new();
        if let Some(entries) = &disk.manifest {
            let entries = sort_entries(entries.iter().map(copy_entry).collect());
            for entry in entries {
                if let Some(file) = disk.files.get_mut(&entry.path) {
                    let index = load_index(file);
                    registry.register(entry, index);
                }
            }
        }
        let names: Vec<String> = disk.files.keys().cloned().collect();
        let found = registry.scan_sst_files(&names);
        let n_found = found.len();
        for (id, name) in found {
            let index = load_index(disk.files.get_mut(&name).unwrap());
            registry.adopt(id, name, index);
        }
        let (ssts, sst_id) = registry.finish();
        let logs: Vec<String> = disk.logs.keys().cloned().collect();
        let (orphans, active) = choose_logs(&logs);
        let active = active.unwrap();
        let mut mem = ColumnarMemtable::with_default_config(active.clone(), &disk.logs[&active]);
        for orphan in orphans {
            let log = disk.logs.remove(&orphan).unwrap();
            for append in merge_orphan(&mut mem, &log) {
                disk.logs.get_mut(&active).unwrap().extend(append.bytes);
            }
        }
        assert!(watermark(&mem, &ssts) < u64::MAX);
        let region = Region::open(mem, ssts, sst_id, schema);
        let mut e = Engine { disk, region };
        if e.disk.manifest.is_none() || n_found > 0 {
            e.write_manifest();
        }
        e
    }

    fn reopen(self) -> Engine {
        let schema = self.region.schema().clone();
        Engine::open(self.disk, schema)
    }

    fn write_manifest(&mut self) {
        self.disk.manifest = Some(manifest_of(self.region.get_immutable_ssts()));
    }

    fn log(&mut self, bytes: Vec<u8>) {
        let name = self.active_log();
        self.disk.logs.get_mut(&name).unwrap().extend(bytes);
    }

    fn active_log(&self) -> String {
        self.disk
            .logs
            .keys()
            .filter(|n| {
                self.region
                    .version()
                    .immutables
                    .iter()
                    .all(|i| i.wal_path() != *n)
            })
            .max()
            .unwrap()
            .clone()
    }

    fn write(&mut self, key: Key, value: Value) -> Option<Value> {
        let pending = self.region.write(key, value);
        self.log(pending.append.bytes.clone());
        let old = self.region.finish_write(pending);
        self.upkeep();
        old
    }

    fn delete(&mut self, key: Key) -> Option<Value> {
        let pending = self.region.delete(key);
        self.log(pending.append.bytes.clone());
        let old = self.region.finish_write(pending);
        self.upkeep();
        old
    }

    fn write_batch(&mut self, entries: Vec<(Key, Option<Value>)>) {
        let pending = self.region.write_batch(entries);
        self.log(pending.append.bytes.clone());
        self.region.finish_batch(pending);
        self.upkeep();
    }

    fn upkeep(&mut self) {
        if self.region.flush_due() {
            self.freeze_and_flush();
        }
        if self.region.compact_due() {
            self.compact();
        }
    }

    fn freeze_and_flush(&mut self) {
        let name = self.active_log();
        if self.region.freeze_active(&[]) == Some(true) {
            let n = mini_mito::names::next_wal_number(&name).unwrap();
            let next = mini_mito::names::wal_file_name(n);
            self.disk.logs.insert(next, Vec::new());
            self.flush_oldest();
        }
    }

    fn flush_oldest(&mut self) {
        let (m, k) = bloom_size(self.region.version().immutables[0].len());
        let (table, batches) = self.region.flush_one(0, m, k).unwrap();
        self.store(&table, &batches);
        let gone = self.region.install_flush(0, table);
        self.disk.logs.remove(&gone);
        self.write_manifest();
    }

    fn store(&mut self, table: &SSTable, batches: &[Batch]) {
        let groups = row_groups(batches, self.region.schema().columns.len());
        let file = TableFile {
            groups,
            index: table.index().to_dto(),
        };
        self.disk.files.insert(table.path().clone(), file);
    }

    fn flush(&mut self) {
        self.freeze_and_flush();
    }

    fn read_groups(&self, name: &str, groups: &[usize]) -> Vec<Batch> {
        let file = &self.disk.files[name];
        groups.iter().map(|g| copy_batch(&file.groups[*g])).collect()
    }

    fn merge(&self, sources: Vec<Vec<Batch>>, mut merge: MergeBatchIter) -> Vec<Batch> {
        let schema = self.region.schema();
        let mut left: Vec<std::vec::IntoIter<Batch>> =
            sources.into_iter().map(|s| s.into_iter()).collect();
        let mut out = Vec::new();
        loop {
            match merge.next_step(schema) {
                MergeStep::NeedBatch(src) => match left[src].next() {
                    Some(batch) => merge.supply(src, batch, schema).unwrap(),
                    None => merge.finish(src, schema),
                },
                MergeStep::Output(batch) => out.push(batch),
                MergeStep::Done => return out,
            }
        }
    }

    fn compact(&mut self) {
        let Some(plan) = self.region.plan_compaction(now_nanos()) else {
            return;
        };
        let mut sources = Vec::new();
        let mut rows = 0;
        for i in &plan.targets {
            let t = &self.region.get_immutable_ssts()[*i];
            rows += t.entry_count();
            let groups = t.scan_batches(t.min_key(), t.max_key(), plan.clamp);
            let batches = self.read_groups(t.path(), &groups);
            sources.push(
                batches
                    .iter()
                    .map(|b| select_times(b, self.region.schema(), plan.clamp))
                    .collect(),
            );
        }
        let merged = self.merge(sources, plan.merge(self.region.schema()));
        let (m, k) = bloom_size(rows);
        let outcome = self.region.compacted(&merged, m, k);
        if let Some(t) = &outcome {
            let t_path = t.path().clone();
            assert!(!self.disk.files.contains_key(&t_path));
            self.store(t, &merged);
        }
        for name in self.region.install_compaction(&plan.ids, outcome) {
            self.disk.files.remove(&name).unwrap();
        }
        self.write_manifest();
    }

    fn finish_lookup(&self, lookup: &mut Lookup) {
        let version = self.region.version();
        while let Some((j, g)) = lookup.step(version) {
            let name = version.ssts[j].path();
            let batches = self.read_groups(name, &[g]);
            lookup.answer(version, self.region.schema(), &batches);
        }
    }

    fn get(&self, key: Key) -> Option<Value> {
        let mut lookup = self.region.get(&key, now_nanos())?;
        self.finish_lookup(&mut lookup);
        lookup.value(self.region.version())
    }

    fn visible_seq(&self, key: &Key) -> Option<u64> {
        let mut lookup = Lookup::start(self.region.version(), key);
        self.finish_lookup(&mut lookup);
        lookup.seq(self.region.version())
    }

    fn sources(&self, bounds: Option<(i64, i64)>) -> Vec<Vec<Batch>> {
        let sources = self.region.snapshot_columnar_sources(bounds, None).unwrap();
        let mut out = sources.memory;
        for t in sources.tables {
            let name = self.region.get_immutable_ssts()[t.sst].path();
            let batches = self.read_groups(name, &t.groups);
            out.push(
                batches
                    .iter()
                    .map(|b| select_times(b, self.region.schema(), t.ts_range))
                    .collect(),
            );
        }
        out
    }

    fn begin(&self) -> Transaction {
        let batches: Vec<Batch> = self.sources(None).into_iter().flatten().collect();
        self.region.begin(&batches)
    }

    fn commit(&mut self, mut txn: Transaction) -> Result<(), TxError> {
        let visible: Vec<Option<u64>> = txn
            .writes()
            .iter()
            .map(|e| self.visible_seq(&e.0))
            .collect();
        if let Some(pending) = self.region.commit(&mut txn, &visible)? {
            self.log(pending.append.bytes.clone());
            self.region.finish_commit(&mut txn, pending);
        }
        assert!(txn.committed());
        self.upkeep();
        Ok(())
    }

    fn iter_all_data(&self) -> Vec<(Key, Option<Value>)> {
        let batches: Vec<Batch> = self.sources(None).into_iter().flatten().collect();
        self.region.iter_all_data(&batches)
    }

    fn stream(&self, limit: Option<usize>, range: TimeRange) -> Vec<UserBatch> {
        let sources = match range.to_inclusive_bounds() {
            None => Vec::new(),
            Some(b) => self.sources(Some(b)),
        };
        let mut stream = LSMStream::new(None, limit);
        let mut out = Vec::new();
        let merge = stream.merge(sources.len(), self.region.schema());
        for batch in self.merge(sources, merge) {
            if stream.finished() {
                break;
            }
            if let Some(b) = stream.refill(&batch).unwrap() {
                out.push(b);
            }
        }
        out
    }
}

#[test]
fn test_memtable_insert_get_remove() {
    let mut region = Engine::new();
    assert_eq!(region.region.len(), 0);

    assert_eq!(region.write(k(1, 0), v("one")), None);
    assert_eq!(region.write(k(2, 0), v("two")), None);
    assert_eq!(region.region.len(), 2);

    assert_eq!(region.get(k(1, 0)), Some(v("one")));
    assert_eq!(region.get(k(3, 0)), None);

    assert_eq!(region.write(k(1, 0), v("uno")), Some(v("one")));
    assert_eq!(region.get(k(1, 0)), Some(v("uno")));

    assert_eq!(region.delete(k(2, 0)), Some(v("two")));
    assert_eq!(region.region.len(), 4);
    assert_eq!(region.get(k(2, 0)), None);
    assert_eq!(region.delete(k(3, 0)), None);
}

#[test]
fn test_memtable_persistence() {
    let mut region = Engine::new();
    region.write(k(1, 0), v("one"));
    region.write(k(2, 0), v("two"));

    let region = region.reopen();
    assert_eq!(region.region.len(), 2);
    assert_eq!(region.get(k(1, 0)), Some(v("one")));
    assert_eq!(region.get(k(2, 0)), Some(v("two")));
}

#[test]
fn test_memtable_empty_recover() {
    let region = Engine::new();
    assert_eq!(region.region.len(), 0);
    let region = region.reopen();
    assert_eq!(region.region.len(), 0);
}

#[test]
fn test_memtable_flush() {
    let mut region = Engine::new();
    region.write(k(1, 0), v("one"));
    region.flush();

    let region2 = region.reopen();
    assert_eq!(region2.get(k(1, 0)), Some(v("one")));
}

#[test]
fn test_memtable_flush_multiple() {
    let mut region = Engine::new();
    region.region.set_flush_threshold(2);

    region.write(k(1, 0), v("a"));
    region.write(k(2, 0), v("b"));
    assert_eq!(region.region.get_immutable_ssts().len(), 1);

    region.write(k(3, 0), v("c"));
    region.write(k(4, 0), v("d"));
    assert_eq!(region.region.get_immutable_ssts().len(), 2);

    assert_eq!(region.get(k(1, 0)), Some(v("a")));
    assert_eq!(region.get(k(4, 0)), Some(v("d")));
}

#[test]
fn test_memtable_manifest_fallback_scan() {
    let mut region = Engine::new();
    region.region.set_flush_threshold(2);
    region.write(k(1, 0), v("a"));
    region.write(k(2, 0), v("b"));
    region.write(k(3, 0), v("c"));
    region.write(k(4, 0), v("d"));
    region.flush();
    assert!(region.region.get_immutable_ssts().len() >= 2);
    assert!(region.disk.manifest.is_some());

    region.disk.manifest = None;
    let region = region.reopen();
    assert!(region.region.get_immutable_ssts().len() >= 2);
    assert_eq!(region.get(k(1, 0)), Some(v("a")));
    assert_eq!(region.get(k(2, 0)), Some(v("b")));
    assert_eq!(region.get(k(3, 0)), Some(v("c")));
    assert_eq!(region.get(k(4, 0)), Some(v("d")));
    assert!(region.disk.manifest.is_some());

    let region = region.reopen();
    assert!(region.region.get_immutable_ssts().len() >= 2);
    assert_eq!(region.get(k(1, 0)), Some(v("a")));
    assert_eq!(region.get(k(4, 0)), Some(v("d")));
}

#[test]
fn test_compaction() {
    let mut region = Engine::new();
    region.region.set_flush_threshold(2);
    region.region.set_compact_threshold(2);

    for i in 0..8 {
        let key = (vec![i as u8], i as i64);
        region.write(key, format!("v{}", i).into_bytes());
    }
    assert_eq!(region.region.get_immutable_ssts().len(), 1);

    for i in 0..8 {
        let key = (vec![i as u8], i as i64);
        assert_eq!(region.get(key), Some(format!("v{}", i).into_bytes()));
    }

    region.compact();
    assert_eq!(region.region.get_immutable_ssts().len(), 1);

    for i in 0..8 {
        let key = (vec![i as u8], i as i64);
        assert_eq!(region.get(key), Some(format!("v{}", i).into_bytes()));
    }

    region.delete(k(3, 0));
    region.delete(k(5, 0));
    region.write(k(8, 0), v("v8"));
    region.write(k(9, 0), v("v9"));
    region.write(k(10, 0), v("v10"));
    region.write(k(11, 0), v("v11"));
    assert_eq!(region.region.get_immutable_ssts().len(), 1);
    region.compact();
    assert_eq!(region.region.get_immutable_ssts().len(), 1);

    assert_eq!(region.get(k(3, 0)), None);
    assert_eq!(region.get(k(5, 0)), None);
    assert_eq!(region.get(k(0, 0)), Some(v("v0")));
    assert_eq!(region.get(k(8, 0)), Some(v("v8")));
    assert_eq!(region.get(k(9, 0)), Some(v("v9")));
    assert_eq!(region.get(k(10, 0)), Some(v("v10")));
    assert_eq!(region.get(k(11, 0)), Some(v("v11")));
}

fn column(name: &str, data_type: DataType, semantic: SemanticType) -> ColumnDef {
    ColumnDef {
        name: name.to_string(),
        data_type,
        semantic,
    }
}

fn schema3() -> TableSchema {
    TableSchema {
        columns: vec![
            column("host", DataType::Utf8, SemanticType::Tag),
            column("cpu", DataType::Utf8, SemanticType::Tag),
            column("timestamp", DataType::Int64, SemanticType::Timestamp),
            column("value", DataType::Float64, SemanticType::Field),
            column("note", DataType::Utf8, SemanticType::Field),
        ],
        primary_key: vec![0, 1],
        time_index: 2,
    }
}

fn mkkey(s: &TableSchema, host: &str, cpu: &str, ts: i64) -> Key {
    s.key(&[host.as_bytes().to_vec(), cpu.as_bytes().to_vec()], ts)
}

fn mkval(s: &TableSchema, value: f64, note: &str) -> Value {
    s.value(&[value.to_le_bytes().to_vec(), note.as_bytes().to_vec()])
}

#[test]
fn test_manager_multi_tag_flush_compact() {
    let schema = schema3();
    let mut region = Engine::open(Disk::default(), schema3());
    region.region.set_flush_threshold(2);

    let rows = vec![
        (("h1", "c1", 10), 1.5, "a"),
        (("h1", "c2", 10), 2.5, "b"),
        (("h1", "c1", 20), 3.5, "c"),
        (("h2", "c1", 10), 4.5, "d"),
        (("h2", "c2", 10), 5.5, "e"),
        (("h2", "c2", 20), 6.5, "f"),
        (("h1", "c2", 30), 7.5, "g"),
        (("h2", "c1", 30), 8.5, "h"),
    ];
    for ((host, cpu, ts), value, note) in rows.clone() {
        region.write(mkkey(&schema, host, cpu, ts), mkval(&schema, value, note));
    }
    region.flush();
    assert_eq!(region.region.get_immutable_ssts().len(), 1);

    region.compact();
    assert_eq!(region.region.get_immutable_ssts().len(), 1);

    for ((host, cpu, ts), value, note) in rows.clone() {
        let got = region.get(mkkey(&schema, host, cpu, ts));
        assert_eq!(
            got,
            Some(mkval(&schema, value, note)),
            "{} {} {}",
            host,
            cpu,
            ts
        );
    }
    assert_eq!(region.get(mkkey(&schema, "h1", "c1", 99)), None);

    region.delete(mkkey(&schema, "h1", "c1", 20));
    region.flush();
    region.compact();
    assert_eq!(region.get(mkkey(&schema, "h1", "c1", 20)), None);
    assert_eq!(
        region.get(mkkey(&schema, "h2", "c1", 10)),
        Some(mkval(&schema, 4.5, "d"))
    );
}

#[test]
fn test_get_newest_write_wins_across_flush() {
    let mut region = Engine::new();
    region.region.set_flush_threshold(2);
    region.write(k(1, 0), v("old"));
    region.write(k(2, 0), v("b"));
    region.write(k(1, 0), v("new"));

    assert_eq!(region.get(k(1, 0)), Some(v("new")));
    region.flush();
    assert_eq!(region.get(k(1, 0)), Some(v("new")));
    region.compact();
    assert_eq!(region.get(k(1, 0)), Some(v("new")));
    assert_eq!(region.get(k(2, 0)), Some(v("b")));
}

#[test]
fn test_seq_survives_restart_and_compact() {
    let mut region = Engine::new();
    region.write(k(1, 0), v("a"));
    region.write(k(2, 0), v("b"));
    region.flush();
    let ssts = region.region.get_immutable_ssts();
    assert_eq!(ssts.len(), 1);
    assert_eq!(ssts[0].max_seq(), 2);

    let mut region = region.reopen();
    region.write(k(3, 0), v("c"));
    region.flush();
    let ssts = region.region.get_immutable_ssts();
    assert!(ssts.iter().any(|s| s.max_seq() == 3));

    assert_eq!(region.get(k(1, 0)), Some(v("a")));
    assert_eq!(region.get(k(2, 0)), Some(v("b")));
    assert_eq!(region.get(k(3, 0)), Some(v("c")));
}

#[test]
fn test_region_sources_with_range_prunes_ssts() {
    let mut region = Engine::new();
    for i in 0..200i64 {
        region.write(k(1, 1000 + i), v("low"));
    }
    region.flush();
    for i in 0..200i64 {
        region.write(k(1, 5000 + i), v("high"));
    }
    region.flush();

    let planned = region
        .region
        .snapshot_columnar_sources(Some((5000, 5100)), None)
        .unwrap();
    assert!(planned.memory.is_empty());
    assert_eq!(planned.tables.len(), 1);
    assert_eq!(planned.tables[0].sst, 1);

    let schema = TableSchema::default_table();
    let mut rows = Vec::new();
    for src in region.sources(Some((5000, 5100))) {
        for batch in src {
            for (key, _, value) in entries_of(&batch, &schema) {
                rows.push((key, value));
            }
        }
    }
    assert_eq!(rows.len(), 101);
    assert!(rows.iter().all(|(k, _)| k.1 >= 5000 && k.1 <= 5100));
}

#[test]
fn test_twcs_does_not_merge_across_windows() {
    let mut region = Engine::new();
    region.region.set_flush_threshold(2);
    region.region.set_compact_threshold(4);
    region.region.set_window_size(10);

    for i in 0..8i64 {
        region.write(k(1, i), v("old"));
    }
    let win0 = region.region.get_immutable_ssts();
    assert_eq!(win0.len(), 1);
    assert_eq!(win0[0].ts_extent(), Some((0, 7)));

    for i in 20..28i64 {
        region.write(k(1, i), v("new"));
    }
    let ssts = region.region.get_immutable_ssts();
    assert_eq!(ssts.len(), 2);
    for sst in ssts {
        let (lo, hi) = sst.ts_extent().unwrap();
        assert!((lo < 10 && hi <= 9) || lo >= 20, "merged across windows");
    }
    assert_eq!(region.get(k(1, 5)), Some(v("old")));
    assert_eq!(region.get(k(1, 25)), Some(v("new")));
}

#[test]
fn test_ttl_compact_removes_expired() {
    let mut region = Engine::new();
    region.region.set_flush_threshold(2);
    region.region.set_compact_threshold(4);
    region.region.set_ttl(Some(1_000_000_000));
    let expired = now_nanos() - 60_000_000_000;

    for i in 0..8i64 {
        region.write(k(1, expired + i), v("expired"));
    }
    assert_eq!(region.region.get_immutable_ssts().len(), 0);
    assert_eq!(region.get(k(1, expired)), None);
    assert_eq!(region.get(k(1, expired + 7)), None);

    let fresh = now_nanos();
    region.write(k(1, fresh), v("fresh"));
    assert_eq!(region.get(k(1, fresh)), Some(v("fresh")));
}

#[test]
fn test_ttl_read_clamp_without_compact() {
    let mut region = Engine::new();
    region.region.set_ttl(Some(1_000_000_000));
    let now = now_nanos();

    region.write(k(1, now - 60_000_000_000), v("old"));
    region.write(k(1, now), v("fresh"));

    assert_eq!(region.get(k(1, now - 60_000_000_000)), None);
    assert_eq!(region.get(k(1, now)), Some(v("fresh")));
}

#[test]
fn test_ttl_tombstone_and_seq() {
    let mut region = Engine::new();
    region.region.set_flush_threshold(2);
    region.region.set_compact_threshold(2);
    region.region.set_ttl(Some(1_000_000_000));
    let now = now_nanos();

    region.write(k(1, now), v("a"));
    region.flush();
    region.delete(k(1, now));
    region.flush();
    assert_eq!(region.get(k(1, now)), None);
    region.compact();
    assert_eq!(region.get(k(1, now)), None);

    let expired = now - 60_000_000_000;
    region.write(k(2, expired), v("b"));
    region.flush();
    region.delete(k(2, expired));
    region.flush();
    assert_eq!(region.get(k(2, expired)), None);
    region.compact();
    assert_eq!(region.get(k(2, expired)), None);
    let mut found = false;
    let schema = TableSchema::default_table();
    for sst in region.region.get_immutable_ssts() {
        let groups = sst.scan_batches(sst.min_key(), sst.max_key(), None);
        for batch in region.read_groups(sst.path(), &groups) {
            for i in 0..batch.num_rows() {
                if key_at(&batch, &schema, i) == k(2, expired) {
                    found = true;
                }
            }
        }
    }
    assert!(!found, "expired tombstone should be physically removed");
}

#[test]
fn test_empty_window_compact_no_orphan_sst() {
    let mut region = Engine::new();
    region.region.set_flush_threshold(2);
    region.region.set_compact_threshold(2);
    region.region.set_ttl(Some(1_000_000_000));
    let expired = now_nanos() - 60_000_000_000;

    for i in 0..4i64 {
        region.write(k(1, expired + i), v("x"));
    }
    assert_eq!(region.region.get_immutable_ssts().len(), 0);
    assert!(region.disk.files.is_empty());
}

#[test]
fn test_maybe_compact_auto_triggers() {
    let mut region = Engine::new();
    region.region.set_flush_threshold(2);
    region.region.set_compact_threshold(2);

    for i in 0..6i64 {
        region.write(k(1, i), v("x"));
    }
    let n = region.region.get_immutable_ssts().len();
    assert!(
        (1..=2).contains(&n),
        "auto compaction should bound sst count, got {n}"
    );
    for i in 0..6i64 {
        assert_eq!(region.get(k(1, i)), Some(v("x")));
    }
}

#[test]
fn test_ttl_compact_survives_reopen() {
    let expired = now_nanos() - 60_000_000_000;
    let fresh = now_nanos();
    let mut region = Engine::new();
    region.region.set_flush_threshold(2);
    region.region.set_compact_threshold(2);
    region.region.set_ttl(Some(1_000_000_000));
    for i in 0..4i64 {
        region.write(k(1, expired + i), v("old"));
    }
    for i in 0..4i64 {
        region.write(k(2, fresh + i), v("new"));
    }
    let region = region.reopen();
    assert_eq!(region.get(k(1, expired)), None);
    assert_eq!(region.get(k(2, fresh)), Some(v("new")));
}

fn copy_file(disk: &mut Disk, from: &str, to: &str) {
    let file = disk.files.get_mut(from).unwrap();
    let index = load_index(file).to_dto();
    let groups = file.groups.iter().map(copy_batch).collect();
    disk.files.insert(to.to_string(), TableFile { groups, index });
}

#[test]
fn test_recovery_does_not_resurrect_stale_sst() {
    let mut region = Engine::new();
    region.write(k(1, 1), v("a"));
    region.flush();
    assert_eq!(region.region.get_immutable_ssts().len(), 1);
    copy_file(&mut region.disk, "0000.sst", "0099.sst");
    let entries = region.disk.manifest.as_mut().unwrap();
    assert_eq!(entries.len(), 1);
    entries[0].id = 99;
    entries[0].path = "0099.sst".to_string();

    let region = region.reopen();
    assert_eq!(region.region.get_immutable_ssts().len(), 1);
    assert_eq!(region.region.len(), 1);
    assert_eq!(region.region.sst_id(), 100);
}

#[test]
fn test_recovery_adopts_untracked_high_id_sst() {
    let mut region = Engine::new();
    region.write(k(1, 1), v("a"));
    region.flush();
    copy_file(&mut region.disk, "0000.sst", "0042.sst");

    let region = region.reopen();
    assert_eq!(region.region.get_immutable_ssts().len(), 2);
    assert_eq!(region.region.len(), 2);
    assert_eq!(region.region.sst_id(), 43);
}

#[test]
fn test_drop_without_flush_recovers_from_wal() {
    let mut region = Engine::new();
    region.write(k(1, 10), v("a"));
    region.write(k(2, 20), v("b"));
    region.delete(k(1, 10));

    let mut reopened = region.reopen();
    assert_eq!(reopened.get(k(1, 10)), None);
    assert_eq!(reopened.get(k(2, 20)), Some(v("b")));
    reopened.write(k(3, 30), v("c"));
    assert_eq!(reopened.get(k(3, 30)), Some(v("c")));
}

#[test]
fn test_deleted_key_stays_hidden_across_window_compaction() {
    let mut region = Engine::new();
    region.region.set_window_size(50);
    region.region.set_compact_threshold(2);

    region.write((vec![7], 10), b"anchor".to_vec());
    region.write((vec![7], 100), b"v1".to_vec());
    region.flush();

    region.delete((vec![7], 100));
    region.write((vec![8], 130), b"w2b".to_vec());
    region.flush();
    region.write((vec![9], 140), b"w2c".to_vec());
    region.flush();

    assert_eq!(
        region.get((vec![7], 100)),
        None,
        "deleted key must stay dead"
    );
    for (_, v) in region.iter_all_data() {
        assert_ne!(
            v.as_deref(),
            Some(b"v1".as_slice()),
            "PUT version resurrected after windowed compaction"
        );
    }

    region.compact();
    assert_eq!(region.region.get_immutable_ssts().len(), 2);
    assert_eq!(region.get((vec![7], 100)), None);
    assert_eq!(region.get((vec![7], 10)), Some(b"anchor".to_vec()));
    assert_eq!(region.get((vec![9], 140)), Some(b"w2c".to_vec()));
    for (_, v) in region.iter_all_data() {
        assert_ne!(v.as_deref(), Some(b"v1".as_slice()));
    }
}

#[test]
fn test_txn_uncommitted_invisible_then_visible() {
    let mut region = Engine::new();
    region.write(k(1, 100), v("base"));

    let mut txn = region.begin();
    txn.write(k(2, 200), v("pending"));

    assert_eq!(region.get(k(2, 200)), None);

    region.commit(txn).unwrap();
    assert_eq!(
        region.get(k(2, 200)),
        Some(v("pending")),
        "committed write must be visible"
    );
    assert_eq!(region.get(k(1, 100)), Some(v("base")));
}

#[test]
fn test_txn_drop_rolls_back() {
    let region = Engine::new();
    {
        let mut txn = region.begin();
        txn.write(k(3, 300), v("doomed"));
    }
    assert_eq!(region.get(k(3, 300)), None);
    assert_eq!(region.region.len(), 0);
}

#[test]
fn test_txn_read_your_own_writes() {
    let mut region = Engine::new();
    region.write(k(1, 10), v("old"));

    let mut txn = region.begin();
    txn.write(k(1, 10), v("mine"));
    txn.delete(k(1, 999));

    assert_eq!(txn.get(&k(1, 10)), Some(v("mine")));
    assert_eq!(txn.get(&k(1, 999)), None);
    assert_eq!(txn.get(&k(1, 11)), None);
}

#[test]
fn test_txn_conflict_aborts_second_committer() {
    let mut region = Engine::new();

    let mut t1 = region.begin();
    let mut t2 = region.begin();
    t1.write(k(7, 70), v("first"));
    t2.write(k(7, 70), v("second"));

    region.commit(t1).unwrap();
    match region.commit(t2) {
        Err(TxError::Conflict) => {}
        other => panic!("expected Conflict, got {other:?}"),
    }
    assert_eq!(region.get(k(7, 70)), Some(v("first")));

    let t3 = region.begin();
    assert_eq!(t3.get(&k(7, 70)), Some(v("first")));
}

#[test]
fn test_txn_delete_conflicts_too() {
    let mut region = Engine::new();
    region.write(k(5, 50), v("x"));

    let mut t1 = region.begin();
    let mut t2 = region.begin();
    t1.delete(k(5, 50));
    t2.write(k(5, 50), v("y"));
    region.commit(t1).unwrap();
    assert!(matches!(region.commit(t2), Err(TxError::Conflict)));
    assert_eq!(region.get(k(5, 50)), None);
}

#[test]
fn test_txn_snapshot_isolation_no_dirty_read() {
    let mut region = Engine::new();
    region.write(k(1, 1), v("v1"));

    let txn = region.begin();
    region.write(k(1, 2), v("later"));
    assert_eq!(txn.get(&k(1, 2)), None);
}

#[test]
fn test_txn_wal_replay_whole_frame() {
    let mut region = Engine::new();
    let mut txn = region.begin();
    txn.write(k(20, 0), v("r1"));
    txn.write(k(21, 0), v("r2"));
    region.commit(txn).unwrap();

    let reopened = region.reopen();
    assert_eq!(reopened.get(k(20, 0)), Some(v("r1")));
    assert_eq!(reopened.get(k(21, 0)), Some(v("r2")));
}

fn stream_keys(batches: &[UserBatch]) -> Vec<(Vec<u8>, i64)> {
    let mut rows = Vec::new();
    for b in batches {
        for i in 0..b.num_rows {
            let ts: [u8; 8] = b.cols[1][i].clone().unwrap().try_into().unwrap();
            rows.push((b.cols[0][i].clone().unwrap(), i64::from_le_bytes(ts)));
        }
    }
    rows
}

#[test]
fn test_lsm_stream_merges_layers() {
    let mut region = Engine::new();
    region.region.set_flush_threshold(2);
    region.write(k(1, 10), v("a"));
    region.write(k(2, 10), v("b"));
    region.write(k(1, 10), v("a2"));
    region.write(k(3, 10), v("c"));

    let batches = region.stream(None, TimeRange::unbounded());
    assert_eq!(
        stream_keys(&batches),
        vec![(vec![1], 10), (vec![2], 10), (vec![3], 10)]
    );
}

#[test]
fn test_lsm_stream_streams_multiple_batches() {
    let mut region = Engine::new();
    for i in 0..25_000i64 {
        region.write(k(7, i), v("x"));
    }
    region.flush();

    let batches = region.stream(None, TimeRange::unbounded());
    for b in &batches {
        assert!(b.num_rows <= 10_000);
    }
    let mut total = 0usize;
    let mut last_ts: Option<i64> = None;
    for (_, ts) in stream_keys(&batches) {
        assert_eq!(ts, total as i64, "rows must arrive in order");
        last_ts = Some(ts);
        total += 1;
    }
    assert_eq!(total, 25_000);
    assert_eq!(last_ts, Some(24_999));
}

#[test]
fn stream_hides_deletions_and_stops_at_its_limit() {
    let mut region = Engine::new();
    for i in 0..5i64 {
        region.write(k(1, i), v("x"));
    }
    region.flush();
    region.delete(k(1, 1));
    let batches = region.stream(Some(2), TimeRange::unbounded());
    assert_eq!(stream_keys(&batches), vec![(vec![1], 0), (vec![1], 2)]);
    let range = TimeRange {
        min: Some(3),
        max: None,
    };
    let batches = region.stream(None, range);
    assert_eq!(stream_keys(&batches), vec![(vec![1], 3), (vec![1], 4)]);
}

#[test]
fn batch_of_writes_keeps_the_last_write_of_a_key() {
    let mut region = Engine::new();
    region.write(k(3, 0), v("kept"));
    region.write_batch(vec![
        (k(1, 0), Some(v("first"))),
        (k(2, 0), Some(v("gone"))),
        (k(1, 0), Some(v("last"))),
        (k(2, 0), None),
    ]);
    assert_eq!(region.get(k(1, 0)), Some(v("last")));
    assert_eq!(region.get(k(2, 0)), None);
    assert_eq!(region.get(k(3, 0)), Some(v("kept")));
    assert_eq!(region.visible_seq(&k(1, 0)), Some(4));
    assert_eq!(region.visible_seq(&k(2, 0)), Some(5));
    assert_eq!(region.visible_seq(&k(9, 0)), None);
    assert_eq!(region.region.len(), 5);
}

#[test]
fn batch_that_was_cut_off_is_not_recovered() {
    let mut region = Engine::new();
    region.write(k(1, 0), v("whole"));
    let pending = region
        .region
        .write_batch(vec![(k(2, 0), Some(v("a"))), (k(3, 0), Some(v("b")))]);
    let bytes = pending.append.bytes;
    region.log(bytes[..bytes.len() - 1].to_vec());
    let region = region.reopen();
    assert_eq!(region.get(k(1, 0)), Some(v("whole")));
    assert_eq!(region.get(k(2, 0)), None);
    assert_eq!(region.get(k(3, 0)), None);
}

#[test]
fn empty_transaction_commits_without_logging() {
    let mut region = Engine::new();
    let mut txn = region.begin();
    assert!(region.region.commit(&mut txn, &Vec::new()).unwrap().is_none());
    assert!(txn.committed());
    assert_eq!(region.disk.logs["wal_000.log"].len(), 0);
}

#[test]
fn transaction_without_conflict_commits_after_other_keys_changed() {
    let mut region = Engine::new();
    let mut txn = region.begin();
    assert_eq!(txn.snapshot_seq(), 1);
    txn.write(k(1, 0), v("mine"));
    region.write(k(2, 0), v("other"));
    region.commit(txn).unwrap();
    assert_eq!(region.get(k(1, 0)), Some(v("mine")));
    assert_eq!(region.visible_seq(&k(1, 0)), Some(2));
}

#[test]
fn frozen_memtable_is_read_until_it_is_flushed() {
    let mut region = Engine::new();
    region.write(k(1, 0), v("frozen"));
    region.write(k(2, 0), v("old"));
    assert_eq!(region.region.freeze_active(&[]), Some(true));
    region
        .disk
        .logs
        .insert("wal_001.log".to_string(), Vec::new());
    region.write(k(2, 0), v("new"));
    assert_eq!(region.get(k(1, 0)), Some(v("frozen")));
    assert_eq!(region.get(k(2, 0)), Some(v("new")));
    assert_eq!(region.region.len(), 3);

    let crashed = region.reopen();
    assert_eq!(crashed.get(k(1, 0)), Some(v("frozen")));
    assert_eq!(crashed.get(k(2, 0)), Some(v("new")));
    assert_eq!(crashed.disk.logs.len(), 1);
    assert_eq!(
        Wal::recover(&crashed.disk.logs["wal_001.log"]).len(),
        2,
        "only what is newer is taken over"
    );
}

#[test]
fn queries_read_the_key_and_what_they_ask_for() {
    let region = Engine::open(Disk::default(), schema3());
    let sources = region
        .region
        .snapshot_columnar_sources(None, Some(&[4, 0]))
        .unwrap();
    assert_eq!(sources.columns, Some(vec![0, 1, 2, 4]));
    let sources = region.region.snapshot_columnar_sources(None, None).unwrap();
    assert_eq!(sources.columns, None);
}

#[test]
fn freezing_an_empty_memtable_does_nothing() {
    let mut region = Engine::new();
    assert_eq!(region.region.freeze_active(&[]), Some(false));
    assert_eq!(region.region.version().immutables.len(), 0);
    assert_eq!(region.region.version().active.len(), 0);
}

#[test]
fn first_failure_of_the_upkeep_is_kept() {
    let mut region = Engine::new();
    assert_eq!(region.region.check_bg_error(), Ok(()));
    region.region.record_error("disk full".to_string());
    region.region.record_error("later".to_string());
    assert_eq!(
        region.region.check_bg_error(),
        Err("background flusher failed: disk full".to_string())
    );
}

#[test]
fn time_to_live_saturates() {
    let mut region = Engine::new();
    assert_eq!(region.region.ttl_cutoff(7), None);
    region.region.set_ttl(Some(10));
    assert_eq!(region.region.ttl_cutoff(7), Some(-3));
    assert_eq!(region.region.ttl_cutoff(i64::MIN + 1), Some(i64::MIN));
    region.region.set_ttl(Some(-10));
    assert_eq!(region.region.ttl_cutoff(i64::MAX), Some(i64::MAX));
    region.region.set_ttl(Some(i64::MIN));
    assert_eq!(region.region.ttl_cutoff(7), None);
}

#[test]
fn memory_is_estimated_from_values() {
    let mut region = Engine::new();
    region.write(k(1, 0), vec![0; 100]);
    region.delete(k(1, 0));
    assert_eq!(region.region.estimated_total_memory(), 17 + 100 + 17);
    assert!(!region.region.flush_due());
    assert!(!region.region.compact_due());
}

#[test]
fn rows_that_do_not_decode_are_refused() {
    let mut region = Engine::open(Disk::default(), schema3());
    region.write((vec![9, 9], 0), v("short"));
    match region.region.snapshot_columnar_sources(None, None) {
        Err(EncodeError::Undecodable) => {}
        _ => panic!("cut off tags must be refused"),
    }
    assert_eq!(region.region.freeze_active(&[]), Some(true));
    match region.region.flush_one(0, 1024, 1) {
        Err(EncodeError::Undecodable) => {}
        _ => panic!("cut off tags must be refused"),
    }
}

#[test]
fn columns_without_cells_are_refused() {
    let mut schema = schema3();
    schema.primary_key = vec![0];
    let mut region = Engine::open(Disk::default(), schema);
    let value = schema3().value(&[vec![0; 8], v("n")]);
    region.write((v("h"), 0), value);
    match region.region.snapshot_columnar_sources(None, None) {
        Err(EncodeError::UnevenColumns) => {}
        _ => panic!("a column without cells must be refused"),
    }
}

#[test]
fn compaction_takes_the_lowest_window_that_is_due() {
    let mut region = Engine::new();
    region.region.set_window_size(10);
    for (tag, ts) in [(1, 25), (2, -5), (3, 27), (4, -1), (5, 3)] {
        region.write(k(tag, ts), v("x"));
        region.flush();
    }
    region.region.set_compact_threshold(2);
    let plan = region.region.plan_compaction(0).unwrap();
    assert_eq!(plan.targets, vec![1, 3]);
    assert_eq!(plan.ids, vec![1, 3]);
    assert_eq!(plan.clamp, None);
    region.region.set_ttl(Some(100));
    let plan = region.region.plan_compaction(40).unwrap();
    assert_eq!(plan.clamp, Some((-60, i64::MAX)));
    region.region.set_compact_threshold(3);
    assert!(region.region.plan_compaction(40).is_none());
    region.region.set_compact_threshold(6);
    assert!(region.region.plan_compaction(40).is_none());
}

#[test]
fn tables_that_the_manifest_outdates_are_not_adopted() {
    let mut region = Engine::new();
    region.write(k(1, 1), v("a"));
    region.flush();
    region.write(k(2, 1), v("b"));
    region.flush();
    let entries = region.disk.manifest.as_mut().unwrap();
    entries.remove(0);
    copy_file(&mut region.disk, "0000.sst", "nonumber.sst");
    copy_file(&mut region.disk, "0000.sst", "0007.sst");
    copy_file(&mut region.disk, "0000.sst", "0005.sst");
    let region = region.reopen();
    let ids: Vec<usize> = region
        .region
        .get_immutable_ssts()
        .iter()
        .map(|t| t.id())
        .collect();
    assert_eq!(ids, vec![1, 5, 7]);
    assert_eq!(region.region.sst_id(), 8);
}

#[test]
fn last_log_in_the_order_of_names_is_active() {
    let names: Vec<String> = ["wal_002.log", "notes.txt", "wal_000.log", "wal_010.log", "wal_.lo"]
        .iter()
        .map(|s| s.to_string())
        .collect();
    let (orphans, active) = choose_logs(&names);
    assert_eq!(active.as_deref(), Some("wal_010.log"));
    assert_eq!(orphans, vec!["wal_000.log", "wal_002.log"]);
    let (orphans, active) = choose_logs(&vec!["manifest".to_string()]);
    assert_eq!(active, None);
    assert!(orphans.is_empty());
}

#[test]
fn table_numbers_rise_through_flushes_and_compactions() {
    let mut e = Engine::new();
    e.region.set_compact_threshold(2);
    for round in 0..3u8 {
        e.write(k(round, 1), v("x"));
        e.flush();
    }
    let before = e.region.sst_id();
    e.compact();
    let numbers: Vec<usize> = e.region.get_immutable_ssts().iter().map(|t| t.id()).collect();
    assert!(numbers.windows(2).all(|w| w[0] < w[1]));
    assert_eq!(numbers.last(), Some(&before));
    assert_eq!(e.region.sst_id(), before + 1);
}

#[test]
fn transaction_reads_what_the_region_read_when_it_began() {
    let mut e = Engine::new();
    e.write(k(1, 1), v("old"));
    e.flush();
    e.write(k(1, 2), v("kept"));
    e.delete(k(1, 3));
    let txn = e.begin();
    let then: Vec<Option<Value>> = (0..5).map(|i| e.get(k(1, i))).collect();
    e.write(k(1, 1), v("new"));
    e.delete(k(1, 2));
    e.write(k(1, 4), v("late"));
    e.flush();
    for i in 0..5 {
        assert_eq!(txn.get(&k(1, i)), then[i as usize]);
    }
}

#[test]
fn region_that_is_opened_again_reads_what_it_read() {
    let mut e = Engine::new();
    e.write(k(1, 1), v("flushed"));
    e.write(k(1, 2), v("hidden later"));
    e.flush();
    e.delete(k(1, 2));
    e.write(k(1, 3), v("frozen"));
    let frozen_log = e.active_log();
    assert_eq!(e.region.freeze_active(&[]), Some(true));
    let n = mini_mito::names::next_wal_number(&frozen_log).unwrap();
    e.disk.logs.insert(mini_mito::names::wal_file_name(n), Vec::new());
    assert_ne!(frozen_log, e.active_log());
    e.write(k(1, 3), v("newest"));
    let reads = |e: &Engine| (0..5).map(|i| e.get(k(1, i))).collect::<Vec<_>>();
    let before = reads(&e);
    let next = e.begin().snapshot_seq();
    let e = e.reopen();
    assert_eq!(reads(&e), before);
    assert_eq!(e.begin().snapshot_seq(), next);
    assert_eq!(e.get(k(1, 3)), Some(v("newest")));
}
