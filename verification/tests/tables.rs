use mini_mito::batch::{sst_schema, Batch, OP_DELETE, OP_PUT};
use mini_mito::entries::Entry;
use mini_mito::memtable::skiptable::SkipList;
use mini_mito::schema::{ColumnDef, DataType, SemanticType, TableSchema};
use mini_mito::sstable::bloom::BloomFilter;
use mini_mito::sstable::cache::RowGroupCache;
use mini_mito::sstable::hex::{from_hex, to_hex};
use mini_mito::sstable::index::{
    build_index, BloomDto, HexKeyDto, IndexDto, IndexError, RowGroupDto, RowGroupMeta,
    SstableIndex,
};
use mini_mito::sstable::sstable::{select_times, SSTable};
use mini_mito::types::{Key, Value};
use serde_json::Value as Json;

fn k(tag: u8, ts: i64) -> Key {
    (vec![tag], ts)
}

fn v(s: &str) -> Value {
    s.as_bytes().to_vec()
}

fn key(i: usize) -> Key {
    (format!("tag{i}").into_bytes(), i as i64)
}

fn sized(n: usize, p: f64, seed: u64) -> BloomFilter {
    let (m, k) = bloom_size(n, p);
    BloomFilter::new(m, k, seed)
}

fn bloom_size(n: usize, p: f64) -> (u64, u32) {
    let p = p.clamp(f64::EPSILON, 0.99);
    let ln2 = std::f64::consts::LN_2;
    let m = ((-(n as f64) * p.ln()) / (ln2 * ln2)).ceil() as u64;
    let m = m.max(1024);
    let k = ((m as f64 / n.max(1) as f64) * ln2).ceil() as u32;
    (m, k.clamp(1, 64))
}

#[test]
fn insert_and_contains() {
    let mut bf = sized(1000, 0.01, 42);
    for i in 0..1000 {
        bf.insert(&key(i));
    }
    for i in 0..1000 {
        assert!(bf.contains(&key(i)), "key {i} should be contained");
    }
}

#[test]
fn empty_filter_contains_nothing() {
    let bf = sized(0, 0.01, 42);
    for i in 0..100 {
        assert!(!bf.contains(&key(i)));
    }
}

#[test]
fn m_has_minimum_floor() {
    let bf = sized(1, 0.01, 42);
    assert!(bf.m >= 1024);
    let bf = BloomFilter::new(3, 0, 42);
    assert_eq!((bf.m, bf.k, bf.bits.len()), (1024, 1, 128));
    let bf = BloomFilter::new(2001, 100, 42);
    assert_eq!((bf.m, bf.k, bf.bits.len()), (2001, 64, 251));
}

#[test]
fn false_positive_rate_within_bounds() {
    let mut bf = sized(10_000, 0.01, 7);
    for i in 0..10_000 {
        bf.insert(&key(i));
    }
    let mut fps = 0;
    for i in 10_000..20_000 {
        if bf.contains(&key(i)) {
            fps += 1;
        }
    }
    let rate = fps as f64 / 10_000.0;
    assert!(
        (0.001..0.05).contains(&rate),
        "false positive rate {rate} out of expected range"
    );
}

struct File {
    table: SSTable,
    groups: Vec<Batch>,
    schema: TableSchema,
}

fn create(list: &SkipList, schema: TableSchema) -> File {
    let (m, k) = bloom_size(list.len(), 0.01);
    let (table, groups) =
        SSTable::create_from_skiplist(list, 1, "1.sst".to_string(), true, &schema, m, k).unwrap();
    File {
        table,
        groups,
        schema,
    }
}

fn copy_batch(b: &Batch) -> Batch {
    Batch {
        cols: b.cols.clone(),
        seqs: b.seqs.clone(),
        ops: b.ops.clone(),
    }
}

impl File {
    fn reopen(self) -> File {
        let index = SstableIndex::from_dto(self.table.index().to_dto()).unwrap();
        let table = SSTable::open_from_path("1.sst".to_string(), index).unwrap();
        File { table, ..self }
    }

    fn get(&self, key: &Key) -> Option<(u64, Option<Value>)> {
        let g = self.table.locate(key)?;
        let batches = vec![copy_batch(&self.groups[g])];
        self.table.get(key, &self.schema, &batches)
    }

    fn scan(&self, start: &Key, end: &Key) -> Vec<Entry> {
        let Some((a, b)) = self.table.scan_groups(start, end) else {
            return Vec::new();
        };
        let batches: Vec<Batch> = self.groups[a..=b].iter().map(copy_batch).collect();
        self.table.scan(start, end, &self.schema, &batches)
    }

    fn scan_iter(&self, start: &Key, end: &Key) -> Vec<Entry> {
        let mut iter = self.table.scan_iter(start, end);
        let mut left = match self.table.scan_groups(start, end) {
            Some((a, b)) => self.groups[a..=b].iter().collect::<Vec<_>>(),
            None => Vec::new(),
        }
        .into_iter();
        let mut out = Vec::new();
        loop {
            while iter.needs_batch() {
                match left.next() {
                    Some(batch) => iter.fill(batch, &self.schema),
                    None => return out,
                }
            }
            match iter.next() {
                Some(e) => out.push(e),
                None => return out,
            }
        }
    }
}

#[test]
fn test_sstable_create_and_get() {
    let mut skiplist = SkipList::new();
    skiplist.insert(k(10, 0), 1, Some(v("ten")));
    skiplist.insert(k(20, 0), 2, Some(v("twenty")));
    skiplist.insert(k(30, 0), 3, Some(v("thirty")));

    let sstable = create(&skiplist, TableSchema::default_table());

    assert_eq!(sstable.table.entry_count(), 3);
    assert_eq!(sstable.table.min_key(), &k(10, 0));
    assert_eq!(sstable.table.max_key(), &k(30, 0));
    assert_eq!(sstable.table.max_seq(), 3);

    assert_eq!(sstable.get(&k(10, 0)).unwrap().0, 1);
    assert_eq!(sstable.get(&k(10, 0)).unwrap().1, Some(v("ten")));
    assert_eq!(sstable.get(&k(20, 0)).unwrap().0, 2);
    assert_eq!(sstable.get(&k(20, 0)).unwrap().1, Some(v("twenty")));
    assert_eq!(sstable.get(&k(30, 0)).unwrap().1, Some(v("thirty")));

    assert_eq!(sstable.get(&k(5, 0)), None);
    assert_eq!(sstable.get(&k(25, 0)), None);
    assert_eq!(sstable.get(&k(40, 0)), None);
}

#[test]
fn test_sstable_scan() {
    let mut skiplist = SkipList::new();
    skiplist.insert(k(10, 0), 1, Some(v("ten")));
    skiplist.insert(k(20, 0), 2, Some(v("twenty")));
    skiplist.insert(k(30, 0), 3, Some(v("thirty")));
    skiplist.insert(k(40, 0), 4, Some(v("forty")));
    skiplist.insert(k(50, 0), 5, Some(v("fifty")));

    let sstable = create(&skiplist, TableSchema::default_table());

    let result = sstable.scan(&k(20, 0), &k(40, 0));
    assert_eq!(result.len(), 3);
    assert_eq!(result[0].0, k(20, 0));
    assert_eq!(result[1].0, k(30, 0));
    assert_eq!(result[2].0, k(40, 0));

    let result = sstable.scan(&k(10, 0), &k(10, 0));
    assert_eq!(result.len(), 1);
    assert_eq!(result[0].0, k(10, 0));

    let result = sstable.scan(&k(1, 0), &k(5, 0));
    assert!(result.is_empty());

    let result = sstable.scan(&k(60, 0), &k(70, 0));
    assert!(result.is_empty());

    let result = sstable.scan(&k(30, 0), &k(20, 0));
    assert!(result.is_empty());
}

#[test]
fn test_sstable_arrow_native_schema() {
    let mut list = SkipList::new();
    list.insert((vec![1], 100), 1, Some(v("a")));
    list.insert((vec![1], 200), 2, None);
    list.insert((vec![2], 100), 3, Some(v("b")));

    let file = create(&list, TableSchema::default_table());
    let fields = sst_schema(&file.schema);
    let batch = &file.groups[0];
    assert_eq!(fields.len(), 5);
    assert_eq!(fields[1].data_type, DataType::Int64);
    assert!(batch.is_null(2, 1));

    assert_eq!(fields[3].data_type, DataType::Int64);
    assert_eq!(fields[4].data_type, DataType::Int8);
    assert_eq!(batch.seq_value(0), 1);
    assert_eq!(batch.seq_value(1), 2);
    assert_eq!(batch.seq_value(2), 3);
    assert_eq!(batch.op_type(0), OP_PUT);
    assert_eq!(batch.op_type(1), OP_DELETE);
    assert_eq!(batch.op_type(2), OP_PUT);
}

#[test]
fn test_sstable_tombstone_roundtrip() {
    let mut list = SkipList::new();
    list.insert((vec![1], 10), 1, Some(v("a")));
    list.insert((vec![1], 20), 2, None);
    let sst = create(&list, TableSchema::default_table());

    assert_eq!(sst.get(&(vec![1], 20)).unwrap().0, 2);
    assert_eq!(sst.get(&(vec![1], 20)).unwrap().1, None);
    assert_eq!(sst.get(&(vec![1], 10)).unwrap().1, Some(v("a")));
    assert_eq!(sst.get(&(vec![9], 99)), None);
    assert_eq!(sst.get(&(vec![1], 20)).unwrap().0, 2);
    assert_eq!(sst.get(&(vec![1], 20)).unwrap().1, None);
    assert_eq!(sst.get(&(vec![1], 10)).unwrap().1, Some(v("a")));
    assert_eq!(sst.get(&(vec![9], 99)), None);

    let reopened = sst.reopen();
    assert_eq!(reopened.table.min_key(), &(vec![1], 10));
    assert_eq!(reopened.table.max_key(), &(vec![1], 20));
    assert_eq!(reopened.table.entry_count(), 2);
    assert_eq!(reopened.table.max_seq(), 2);
}

#[test]
fn test_sstable_scan_iter() {
    let mut list = SkipList::new();
    for i in 0..10u64 {
        list.insert(
            (vec![i as u8], i as i64),
            i + 1,
            Some(v(&format!("v{}", i))),
        );
    }
    let sst = create(&list, TableSchema::default_table());
    let got = sst.scan_iter(&(vec![3], 3), &(vec![6], 6));
    assert_eq!(got.len(), 4);
    assert_eq!(got[0].0, (vec![3], 3));
    assert_eq!(got[0].1, 4);
    assert_eq!(got[3].0, (vec![6], 6));
    assert_eq!(got[3].1, 7);
}

fn column(name: &str, data_type: DataType, semantic: SemanticType) -> ColumnDef {
    ColumnDef {
        name: name.to_string(),
        data_type,
        semantic,
    }
}

fn schema3() -> TableSchema {
    TableSchema {
        columns: vec![
            column("host", DataType::Binary, SemanticType::Tag),
            column("region", DataType::Binary, SemanticType::Tag),
            column("ts", DataType::Int64, SemanticType::Timestamp),
            column("cpu", DataType::Int64, SemanticType::Field),
            column("mem", DataType::Int64, SemanticType::Field),
        ],
        primary_key: vec![0, 1],
        time_index: 2,
    }
}

fn cells(host: &[u8], region: &[u8], ts: i64, cpu: i64, mem: i64) -> Vec<Vec<u8>> {
    vec![
        host.to_vec(),
        region.to_vec(),
        ts.to_le_bytes().to_vec(),
        cpu.to_le_bytes().to_vec(),
        mem.to_le_bytes().to_vec(),
    ]
}

#[test]
fn test_sstable_multi_tag_roundtrip() {
    let schema = schema3();
    let mut list = SkipList::new();
    let rows = vec![
        cells(b"h1", b"cn", 100, 1, 2),
        cells(b"h1", b"cn", 200, 3, 4),
        cells(b"h2", b"us", 100, 5, 6),
    ];
    for (i, c) in rows.iter().enumerate() {
        list.insert(
            schema.cells_to_key(c),
            i as u64 + 1,
            Some(schema.encode_fields(c)),
        );
    }
    let sst = create(&list, schema3());
    let k = schema.cells_to_key(&rows[1]);
    assert_eq!(
        sst.get(&k).unwrap().1,
        Some(schema.encode_fields(&rows[1]))
    );
    assert_eq!(sst.get(&k).unwrap().0, 2);

    let min_key = sst.table.min_key().clone();
    let got = sst.scan(sst.table.min_key(), sst.table.max_key());
    assert_eq!(got.len(), 3);
    let reopened = sst.reopen();
    assert_eq!(reopened.table.entry_count(), 3);
    assert_eq!(reopened.table.min_key(), &min_key);
}

fn json_key(k: &HexKeyDto) -> Json {
    let mut map = serde_json::Map::new();
    map.insert("tag".to_string(), Json::from(k.tag.as_str()));
    map.insert("ts".to_string(), Json::from(k.ts));
    Json::Object(map)
}

fn to_json(dto: &IndexDto) -> String {
    let mut bloom = serde_json::Map::new();
    bloom.insert("m".to_string(), Json::from(dto.bloom.m));
    bloom.insert("k".to_string(), Json::from(dto.bloom.k));
    bloom.insert("seed".to_string(), Json::from(dto.bloom.seed));
    bloom.insert("bits".to_string(), Json::from(dto.bloom.bits.as_str()));
    let groups: Vec<Json> = dto
        .row_groups
        .iter()
        .map(|g| {
            let mut map = serde_json::Map::new();
            map.insert("num_rows".to_string(), Json::from(g.num_rows));
            map.insert("min_key".to_string(), json_key(&g.min_key));
            map.insert("max_key".to_string(), json_key(&g.max_key));
            map.insert("min_ts".to_string(), Json::from(g.min_ts));
            map.insert("max_ts".to_string(), Json::from(g.max_ts));
            Json::Object(map)
        })
        .collect();
    let mut map = serde_json::Map::new();
    map.insert("version".to_string(), Json::from(dto.version));
    map.insert("bloom".to_string(), Json::Object(bloom));
    map.insert("row_groups".to_string(), Json::Array(groups));
    map.insert("max_seq".to_string(), Json::from(dto.max_seq));
    serde_json::to_string(&Json::Object(map)).unwrap()
}

fn key_from_json(j: &Json) -> HexKeyDto {
    HexKeyDto {
        tag: j["tag"].as_str().unwrap().to_string(),
        ts: j["ts"].as_i64().unwrap(),
    }
}

fn from_json(s: &str) -> Result<SstableIndex, IndexError> {
    let j: Json = serde_json::from_str(s).unwrap();
    let bloom = &j["bloom"];
    let dto = IndexDto {
        version: j["version"].as_u64().unwrap() as u32,
        bloom: BloomDto {
            m: bloom["m"].as_u64().unwrap(),
            k: bloom["k"].as_u64().unwrap() as u32,
            seed: bloom["seed"].as_u64().unwrap(),
            bits: bloom["bits"].as_str().unwrap().to_string(),
        },
        row_groups: j["row_groups"]
            .as_array()
            .unwrap()
            .iter()
            .map(|g| RowGroupDto {
                num_rows: g["num_rows"].as_u64().unwrap() as usize,
                min_key: key_from_json(&g["min_key"]),
                max_key: key_from_json(&g["max_key"]),
                min_ts: g["min_ts"].as_i64().unwrap_or(0),
                max_ts: g["max_ts"].as_i64().unwrap_or(0),
            })
            .collect(),
        max_seq: j["max_seq"].as_u64().unwrap(),
    };
    SstableIndex::from_dto(dto)
}

#[test]
fn index_json_roundtrip() {
    let mut bloom = sized(100, 0.01, 123);
    for i in 0..100 {
        bloom.insert(&k((i % 5) as u8, i));
    }
    let index = SstableIndex {
        bloom,
        row_groups: vec![
            RowGroupMeta {
                num_rows: 50,
                min_key: k(0, 0),
                max_key: k(4, 49),
                min_ts: 0,
                max_ts: 49,
            },
            RowGroupMeta {
                num_rows: 50,
                min_key: k(4, 50),
                max_key: k(9, 99),
                min_ts: 50,
                max_ts: 99,
            },
        ],
        max_seq: 99,
    };
    let json = to_json(&index.to_dto());
    let decoded = from_json(&json).unwrap();
    assert_eq!(decoded.bloom.m, index.bloom.m);
    assert_eq!(decoded.bloom.k, index.bloom.k);
    assert_eq!(decoded.bloom.seed, index.bloom.seed);
    assert_eq!(decoded.bloom.bits, index.bloom.bits);
    assert_eq!(decoded.row_groups.len(), index.row_groups.len());
    for (a, b) in decoded.row_groups.iter().zip(&index.row_groups) {
        assert_eq!(a.num_rows, b.num_rows);
        assert_eq!(a.min_key, b.min_key);
        assert_eq!(a.max_key, b.max_key);
        assert_eq!((a.min_ts, a.max_ts), (b.min_ts, b.max_ts));
    }
    assert_eq!(decoded.max_seq, 99);
    for i in 0..100 {
        assert!(decoded.bloom.contains(&k((i % 5) as u8, i)));
    }
}

#[test]
fn index_json_rejects_bad_version() {
    let err = from_json(
        r#"{"version":999,"bloom":{"m":1024,"k":1,"seed":0,"bits":""},"row_groups":[],"max_seq":0}"#,
    );
    assert!(err.is_err());
    assert_eq!(err.err(), Some(IndexError::Version));
}

#[test]
fn index_json_rejects_bad_base64() {
    let err = from_json(
        r#"{"version":2,"bloom":{"m":1024,"k":1,"seed":0,"bits":"!!!not-base64!!!"},"row_groups":[],"max_seq":0}"#,
    );
    assert!(err.is_err());
    assert_eq!(err.err(), Some(IndexError::Base64));
}

#[test]
fn index_json_rejects_bad_hex() {
    let err = from_json(
        r#"{"version":2,"bloom":{"m":1024,"k":1,"seed":0,"bits":"AA=="},
                "row_groups":[{"num_rows":1,"min_key":{"tag":"zz","ts":0},"max_key":{"tag":"aa","ts":1}}],
                "max_seq":0}"#,
    );
    assert!(err.is_err());
}

#[test]
fn stored_index_is_checked_part_by_part() {
    let index = build_index(&[(k(1, 2), 3, None)], 1024, 2, 9);
    let mut dto = index.to_dto();
    assert_eq!(dto.version, 2);
    assert_eq!(dto.bloom.bits.len(), 172);
    assert_eq!(dto.row_groups[0].min_key.tag, "01");
    dto.bloom.m = 4096;
    assert_eq!(
        SstableIndex::from_dto(dto).err(),
        Some(IndexError::BloomParams)
    );
    let mut dto = index.to_dto();
    dto.row_groups[0].max_key.tag = "0g".to_string();
    assert_eq!(SstableIndex::from_dto(dto).err(), Some(IndexError::Hex));
}

#[test]
fn test_sstable_multi_chunk_roundtrip() {
    let mut list = SkipList::new();
    for i in 0..20_000i64 {
        list.insert((vec![0], i), i as u64 + 1, Some(v(&format!("v{}", i))));
    }
    let sst = create(&list, TableSchema::default_table());
    assert_eq!(sst.table.entry_count(), 20_000);
    assert_eq!(sst.table.min_key(), &k(0, 0));
    assert_eq!(sst.table.max_key(), &k(0, 19_999));
    assert_eq!(sst.table.max_seq(), 20_000);

    for &i in &[0i64, 8191, 8192, 8193, 19_999] {
        assert_eq!(sst.get(&k(0, i)).unwrap().1, Some(v(&format!("v{}", i))));
    }

    let reopened = sst.reopen();
    assert_eq!(reopened.table.entry_count(), 20_000);
    assert_eq!(reopened.get(&k(0, 12_345)).unwrap().1, Some(v("v12345")));
}

#[test]
fn test_sstable_empty_skiplist() {
    let list = SkipList::new();
    let sst = create(&list, TableSchema::default_table());
    assert_eq!(sst.table.entry_count(), 0);
    assert_eq!(sst.table.max_seq(), 0);

    let reopened = sst.reopen();
    assert_eq!(reopened.table.entry_count(), 0);
    assert_eq!(reopened.get(&k(5, 0)), None);
    assert!(reopened.scan(&k(0, 0), &k(9, 9)).is_empty());
    assert!(reopened.scan_iter(&k(0, 0), &k(9, 9)).is_empty());
}

#[test]
fn test_sstable_scan_across_chunks() {
    let mut list = SkipList::new();
    for i in 0..20_000i64 {
        list.insert((vec![0], i), i as u64 + 1, Some(v(&format!("v{}", i))));
    }
    let sst = create(&list, TableSchema::default_table());

    let single = sst.scan(&k(0, 100), &k(0, 200));
    assert_eq!(single.len(), 101);
    assert_eq!(single[0].0, k(0, 100));
    assert_eq!(single[100].0, k(0, 200));

    let cross = sst.scan(&k(0, 8190), &k(0, 8193));
    assert_eq!(cross.len(), 4);
    assert_eq!(cross[0].0, k(0, 8190));
    assert_eq!(cross[3].0, k(0, 8193));

    let full = sst.scan(&k(0, 0), &k(0, 19_999));
    assert_eq!(full.len(), 20_000);
    let sub: Vec<Key> = full
        .iter()
        .map(|(k, _, _)| k.clone())
        .filter(|key| key.1 >= 8190 && key.1 <= 8193)
        .collect();
    assert_eq!(sub.len(), 4);
    assert_eq!(sub[0], k(0, 8190));
    assert_eq!(sub[3], k(0, 8193));
}

#[test]
fn row_groups_are_pruned_by_timestamps() {
    let mut list = SkipList::new();
    for i in 0..20_000i64 {
        list.insert((vec![0], i), i as u64 + 1, None);
    }
    let sst = create(&list, TableSchema::default_table());
    assert_eq!(sst.table.ts_extent(), Some((0, 19_999)));
    let t = &sst.table;
    assert_eq!(t.scan_batches(t.min_key(), t.max_key(), None), vec![0, 1, 2]);
    assert_eq!(
        t.scan_batches(t.min_key(), t.max_key(), Some((8192, 16_383))),
        vec![1]
    );
    assert_eq!(
        t.scan_batches(&k(0, 0), &k(0, 8191), Some((8000, 9000))),
        vec![0]
    );
    let part = select_times(&sst.groups[1], &sst.schema, Some((8200, 8201)));
    assert_eq!(part.num_rows(), 2);
    assert_eq!(part.ts_value(1, 0), 8200);
}

#[test]
fn tables_of_the_same_rows_have_different_seeds() {
    let mut list = SkipList::new();
    list.insert(k(1, 1), 1, Some(v("a")));
    let schema = TableSchema::default_table();
    let mut seeds = Vec::new();
    for _ in 0..4 {
        let (t, _) =
            SSTable::create_from_skiplist(&list, 1, "1.sst".to_string(), true, &schema, 1024, 7)
                .unwrap();
        seeds.push(t.index().bloom.seed);
    }
    assert!(seeds.iter().any(|s| *s != seeds[0]));
}

#[test]
fn deletions_are_left_out_where_they_are_not_wanted() {
    let mut list = SkipList::new();
    list.insert(k(1, 1), 1, Some(v("a")));
    list.insert(k(1, 2), 2, None);
    let schema = TableSchema::default_table();
    let (t, groups) = SSTable::create_with_seed(
        &list,
        3,
        "0003.sst".to_string(),
        false,
        &schema,
        1024,
        7,
        11,
    )
    .unwrap();
    assert_eq!(t.entry_count(), 1);
    assert_eq!(t.max_seq(), 1);
    assert_eq!(t.id(), 3);
    assert_eq!(t.path(), "0003.sst");
    assert_eq!(groups.len(), 1);
    let from_batches = SSTable::create_from_batches_with_seed(
        &groups,
        4,
        "0004.sst".to_string(),
        &schema,
        1024,
        7,
        11,
    );
    assert_eq!(from_batches.index().bloom.bits, t.index().bloom.bits);
}

#[test]
fn hexadecimal_gives_back_its_bytes() {
    assert_eq!(to_hex(&vec![0, 15, 255]), "000fff");
    assert_eq!(from_hex("000fFf"), Some(vec![0, 15, 255]));
    assert_eq!(from_hex("0"), None);
    assert_eq!(from_hex("xy"), None);
}

#[test]
fn row_groups_leave_the_cache_in_the_order_they_came() {
    let group = |seq: u64| {
        vec![Batch {
            cols: Vec::new(),
            seqs: vec![seq],
            ops: vec![OP_PUT],
        }]
    };
    let mut cache = RowGroupCache::new(2);
    assert!(cache.get(1, 0).is_none());
    cache.put(1, 0, group(10));
    cache.put(1, 1, group(11));
    cache.put(1, 0, group(99));
    assert_eq!(cache.get(1, 0).unwrap()[0].seqs, vec![10]);
    cache.put(2, 0, group(20));
    assert!(cache.get(1, 0).is_none());
    assert_eq!(cache.get(1, 1).unwrap()[0].seqs, vec![11]);
    assert_eq!(cache.get(2, 0).unwrap()[0].seqs, vec![20]);

    let mut none = RowGroupCache::new(0);
    none.put(1, 0, group(10));
    assert!(none.get(1, 0).is_none());
}

#[test]
fn keys_outside_the_table_are_not_looked_up() {
    let mut list = SkipList::new();
    for i in 0..10 {
        list.insert(k(5, i), i as u64 + 1, Some(v("x")));
    }
    let file = create(&list, TableSchema::default_table());
    assert_eq!(file.table.locate(&k(5, 3)), Some(0));
    assert_eq!(file.table.locate(&k(4, 3)), None);
    assert_eq!(file.table.locate(&k(5, 10)), None);
}

#[test]
fn every_row_group_of_the_index_is_a_batch_of_the_file() {
    let mut list = SkipList::new();
    for i in 0..8_193i64 {
        list.insert(k(0, i), i as u64 + 1, if i % 2 == 0 { Some(v("x")) } else { None });
    }
    let file = create(&list, TableSchema::default_table());
    let groups = &file.table.index().row_groups;
    assert_eq!(groups.len(), 2);
    assert_eq!(file.groups.len(), 2);
    for (meta, batch) in groups.iter().zip(&file.groups) {
        assert_eq!(meta.num_rows, batch.num_rows());
    }
    assert_eq!(groups[1].min_key, k(0, 8_192));
    for i in [0, 1, 8_191, 8_192] {
        assert_eq!(file.get(&k(0, i)), list.get(&k(0, i)));
    }
    assert_eq!(file.get(&k(0, 8_193)), None);
    let all = file.scan(&k(0, 0), &k(0, 8_192));
    assert_eq!(all, list.iter());
    assert_eq!(file.scan_iter(&k(0, 0), &k(0, 8_192)), all);
    assert!(file.scan(&k(0, 9), &k(0, 3)).is_empty());
}

#[test]
fn new_filter_has_no_bit_set() {
    let filter = BloomFilter::new(2_000, 3, 7);
    assert_eq!(filter.bits, vec![0u8; 250]);
}

#[test]
fn filter_of_a_table_has_the_size_asked_for_and_only_the_bits_of_its_keys() {
    let schema = TableSchema::default_table();
    let mut list = SkipList::new();
    for i in 0..50 {
        list.insert(k(3, i), i as u64 + 1, Some(v("x")));
    }
    for (m, hashes, want_m, want_k) in [
        (0, 0, 1_024, 1),
        (5_000, 7, 5_000, 7),
        (2_000, 99, 2_000, 64),
    ] {
        let (table, batches) =
            SSTable::create_with_seed(&list, 1, "1.sst".to_string(), true, &schema, m, hashes, 11)
                .unwrap();
        let again = SSTable::create_from_batches_with_seed(
            &batches,
            1,
            "1.sst".to_string(),
            &schema,
            m,
            hashes,
            11,
        );
        let mut filter = BloomFilter::new(want_m, want_k, 11);
        for (key, _, _) in list.iter() {
            filter.insert(&key);
        }
        for t in [&table, &again] {
            let bloom = &t.index().bloom;
            assert_eq!((bloom.m, bloom.k, bloom.seed), (want_m, want_k, 11));
            assert_eq!(bloom.bits, filter.bits);
            let back = SstableIndex::from_dto(t.index().to_dto()).unwrap();
            assert_eq!(back.bloom.bits, bloom.bits);
        }
    }
}
