use mini_mito::batch::{
    entries_of, internal_batch_from_rows, Batch, BatchError, OP_DELETE, OP_PUT,
};
use mini_mito::entries::Entry;
use mini_mito::query::merge::{MergeBatchIter, MergeError, MergeStep};
use mini_mito::query::predicate::{
    extract_time_range, Expr, Operand, Operator, ScalarValue, TimeRange,
};
use mini_mito::query::stream::{LSMStream, StreamError};
use mini_mito::schema::{ColumnDef, DataType, SemanticType, TableSchema};
use mini_mito::types::{Key, Value};

fn default_schema() -> TableSchema {
    TableSchema::default_table()
}

fn source(schema: &TableSchema, batches: Vec<Vec<Entry>>) -> Vec<Batch> {
    batches
        .into_iter()
        .map(|rows| internal_batch_from_rows(&rows, schema).unwrap())
        .collect()
}

fn mem_source(schema: &TableSchema, rows: Vec<Entry>) -> Vec<Batch> {
    source(schema, vec![rows])
}

fn merged(
    sources: Vec<Vec<Batch>>,
    keep_tombstones: bool,
    schema: &TableSchema,
) -> Result<Vec<Batch>, MergeError> {
    let mut left: Vec<std::vec::IntoIter<Batch>> =
        sources.into_iter().map(|s| s.into_iter()).collect();
    let mut merge = MergeBatchIter::new(left.len(), keep_tombstones, schema);
    let mut out = Vec::new();
    loop {
        match merge.next_step(schema) {
            MergeStep::NeedBatch(src) => match left[src].next() {
                Some(batch) => merge.supply(src, batch, schema)?,
                None => merge.finish(src, schema),
            },
            MergeStep::Output(batch) => out.push(batch),
            MergeStep::Done => return Ok(out),
        }
    }
}

fn merged_rows(
    sources: Vec<Vec<Batch>>,
    keep_tombstones: bool,
    schema: &TableSchema,
) -> Vec<(Key, u64, i8, Option<Value>)> {
    let mut out = Vec::new();
    for batch in merged(sources, keep_tombstones, schema).unwrap() {
        for (i, (key, seq, value)) in entries_of(&batch, schema).into_iter().enumerate() {
            out.push((key, seq, batch.op_type(i), value));
        }
    }
    out
}

#[test]
fn test_merge_dedup_newest_wins() {
    let schema = default_schema();
    let sources = vec![
        mem_source(&schema, vec![((vec![1], 50), 20, Some(b"new".to_vec()))]),
        mem_source(
            &schema,
            vec![
                ((vec![1], 50), 10, Some(b"old".to_vec())),
                ((vec![2], 10), 1, Some(b"x".to_vec())),
            ],
        ),
    ];
    let got = merged_rows(sources, false, &schema);
    assert_eq!(got.len(), 2);
    assert_eq!(got[0], ((vec![1], 50), 20, OP_PUT, Some(b"new".to_vec())));
    assert_eq!(got[1], ((vec![2], 10), 1, OP_PUT, Some(b"x".to_vec())));
}

#[test]
fn test_merge_drops_winning_tombstone() {
    let schema = default_schema();
    let sources = vec![
        mem_source(&schema, vec![((vec![1], 50), 20, None)]),
        mem_source(&schema, vec![((vec![1], 50), 10, Some(b"old".to_vec()))]),
    ];
    let got = merged_rows(sources, false, &schema);
    assert_eq!(got.len(), 0, "winning tombstone must not be materialized");
}

#[test]
fn test_merge_seq_overrides_layer_priority() {
    let schema = default_schema();
    let sources = vec![
        mem_source(&schema, vec![((vec![1], 50), 3, Some(b"active".to_vec()))]),
        mem_source(&schema, vec![((vec![1], 50), 9, Some(b"sst".to_vec()))]),
    ];
    let got = merged_rows(sources, false, &schema);
    assert_eq!(got.len(), 1);
    assert_eq!(got[0], ((vec![1], 50), 9, OP_PUT, Some(b"sst".to_vec())));
}

#[test]
fn test_merge_flushes_multiple_batches_across_boundary() {
    let schema = default_schema();
    let mut rows = Vec::new();
    for i in 0..12_000i64 {
        rows.push((
            (vec![(i >> 8) as u8, (i & 0xff) as u8], i),
            i as u64 + 1,
            Some(i.to_le_bytes().to_vec()),
        ));
    }
    let sources = vec![mem_source(&schema, rows)];
    let got = merged_rows(sources, false, &schema);
    assert_eq!(got.len(), 12_000);
    assert_eq!(got[0].0, (vec![0, 0], 0));
    assert_eq!(got[11_999].0, (vec![46, 223], 11_999));
}

#[test]
fn test_merge_rejects_unsorted_source_across_batches() {
    let schema = default_schema();
    let sources = vec![source(
        &schema,
        vec![
            vec![((vec![2], 10), 1, Some(b"a".to_vec()))],
            vec![((vec![1], 10), 2, Some(b"b".to_vec()))],
        ],
    )];
    let result = merged(sources, false, &schema);
    assert!(
        result.is_err(),
        "unsorted source must surface as InvalidInput"
    );
}

#[test]
fn test_merge_rejects_duplicate_key_within_one_source() {
    let schema = default_schema();
    let sources = vec![source(
        &schema,
        vec![
            vec![((vec![1], 10), 1, Some(b"a".to_vec()))],
            vec![((vec![1], 10), 2, Some(b"b".to_vec()))],
        ],
    )];
    let result = merged(sources, false, &schema);
    assert!(
        result.is_err(),
        "intra-source duplicate keys violate the contract"
    );
}

#[test]
fn test_merge_rejects_unsorted_rows_within_batch() {
    let schema = default_schema();
    let sources = vec![mem_source(
        &schema,
        vec![
            ((vec![2], 10), 1, Some(b"a".to_vec())),
            ((vec![1], 10), 2, Some(b"b".to_vec())),
        ],
    )];
    let result = merged(sources, false, &schema);
    assert_eq!(result.err(), Some(MergeError::Unsorted(0)));
}

#[test]
fn merge_keeps_deletions_where_they_are_wanted() {
    let schema = default_schema();
    let sources = vec![
        mem_source(&schema, vec![((vec![1], 50), 10, Some(b"old".to_vec()))]),
        mem_source(&schema, vec![((vec![1], 50), 20, None)]),
    ];
    let got = merged_rows(sources, true, &schema);
    assert_eq!(got, vec![((vec![1], 50), 20, OP_DELETE, None)]);
}

#[test]
fn merge_of_nothing_is_nothing() {
    let schema = default_schema();
    assert!(merged(vec![], false, &schema).unwrap().is_empty());
    assert!(merged(vec![vec![], vec![]], true, &schema).unwrap().is_empty());
}

fn col(name: &str) -> Operand {
    Operand::Column(name.to_string())
}

fn ts(col_name: &str, op: Operator, v: i64) -> Expr {
    Expr::Binary {
        left: col(col_name),
        op,
        right: Operand::Literal(ScalarValue::Int64(Some(v))),
    }
}

fn extract(filters: &[Expr]) -> TimeRange {
    extract_time_range(filters, &"timestamp".to_string())
}

#[test]
fn test_extract_gt_lt_eq() {
    let r = extract(&[ts("timestamp", Operator::Gt, 100)]);
    assert_eq!(
        r,
        TimeRange {
            min: Some(100),
            max: None
        }
    );

    let r = extract(&[ts("timestamp", Operator::Lt, 200)]);
    assert_eq!(
        r,
        TimeRange {
            min: None,
            max: Some(200)
        }
    );

    let r = extract(&[ts("timestamp", Operator::Eq, 150)]);
    assert_eq!(
        r,
        TimeRange {
            min: Some(150),
            max: Some(150)
        }
    );
}

#[test]
fn test_extract_reversed_and_contradiction() {
    let reversed = Expr::Binary {
        left: Operand::Literal(ScalarValue::Int32(Some(50))),
        op: Operator::Lt,
        right: col("timestamp"),
    };
    let r = extract(&[reversed]);
    assert_eq!(
        r,
        TimeRange {
            min: Some(50),
            max: None
        }
    );

    let exprs = [
        ts("timestamp", Operator::Gt, 100),
        ts("timestamp", Operator::Lt, 50),
    ];
    let r = extract(&exprs);
    assert!(r.is_empty());
}

#[test]
fn test_extract_ignores_non_ts() {
    let r = extract(&[ts("tags", Operator::Eq, 1)]);
    assert_eq!(r, TimeRange::unbounded());
}

#[test]
fn test_to_inclusive_bounds() {
    let r = TimeRange {
        min: Some(10),
        max: None,
    };
    assert_eq!(r.to_inclusive_bounds(), Some((10, i64::MAX)));
    let r = TimeRange {
        min: Some(100),
        max: Some(50),
    };
    assert_eq!(r.to_inclusive_bounds(), None);
}

#[test]
fn tightest_bounds_win() {
    let r = extract(&[
        ts("timestamp", Operator::GtEq, 10),
        ts("timestamp", Operator::Gt, 20),
        ts("timestamp", Operator::LtEq, 90),
        ts("timestamp", Operator::Lt, 95),
        ts("timestamp", Operator::Other, 30),
        Expr::Other,
    ]);
    assert_eq!(
        r,
        TimeRange {
            min: Some(20),
            max: Some(90)
        }
    );
    let nothing = Expr::Binary {
        left: col("timestamp"),
        op: Operator::Gt,
        right: Operand::Literal(ScalarValue::Int64(None)),
    };
    assert_eq!(extract(&[nothing]), TimeRange::unbounded());
}

#[test]
fn expired_times_are_cut_off() {
    let mut r = TimeRange {
        min: Some(5),
        max: Some(9),
    };
    r.clamp_min(Some(7));
    assert_eq!(r.to_inclusive_bounds(), Some((7, 9)));
    r.clamp_min(Some(6));
    assert_eq!(r.to_inclusive_bounds(), Some((7, 9)));
    r.clamp_min(None);
    assert_eq!(r.to_inclusive_bounds(), Some((7, 9)));
    r.clamp_min(Some(10));
    assert!(r.is_empty());
}

#[test]
fn stream_picks_columns_and_stops_at_its_limit() {
    let schema = default_schema();
    let batch = internal_batch_from_rows(
        &[
            ((vec![1], 1), 1, Some(b"a".to_vec())),
            ((vec![1], 2), 2, None),
            ((vec![1], 3), 3, Some(b"c".to_vec())),
            ((vec![1], 4), 4, Some(b"d".to_vec())),
        ],
        &schema,
    )
    .unwrap();
    let mut stream = LSMStream::new(Some(vec![2]), Some(2));
    let out = stream.refill(&batch).unwrap().unwrap();
    assert_eq!(out.num_rows, 2);
    assert_eq!(
        out.cols,
        vec![vec![Some(b"a".to_vec()), Some(b"c".to_vec())]]
    );
    assert!(stream.finished());

    let mut stream = LSMStream::new(Some(vec![3]), None);
    assert_eq!(stream.refill(&batch).err(), Some(StreamError::NoSuchColumn));
}

#[test]
fn rows_survive_being_put_into_columns() {
    let schema = default_schema();
    let rows: Vec<Entry> = vec![
        ((vec![1], -5), 7, Some(b"x".to_vec())),
        ((vec![], 0), 8, None),
    ];
    let batch = internal_batch_from_rows(&rows, &schema).unwrap();
    assert!(batch.check_readable(&schema));
    assert_eq!(entries_of(&batch, &schema), rows);
    assert_eq!(batch.op_type(0), OP_PUT);
    assert_eq!(batch.op_type(1), OP_DELETE);
    assert!(batch.is_null(2, 1));
    assert_eq!(batch.ts_value(1, 0), -5);
}

#[test]
fn rows_need_a_cell_for_every_column() {
    let schema = TableSchema {
        columns: vec![
            ColumnDef {
                name: "a".to_string(),
                data_type: DataType::Binary,
                semantic: SemanticType::Tag,
            },
            ColumnDef {
                name: "ts".to_string(),
                data_type: DataType::Int64,
                semantic: SemanticType::Timestamp,
            },
        ],
        primary_key: vec![],
        time_index: 1,
    };
    let err = internal_batch_from_rows(&[((vec![], 0), 1, None)], &schema).err();
    assert_eq!(err, Some(BatchError::UnevenColumns));
    assert!(internal_batch_from_rows(&[], &schema).is_ok());
}

#[test]
fn all_merged_batches_but_the_last_are_full() {
    let schema = default_schema();
    let rows = |first: i64, n: i64| -> Vec<Entry> {
        (0..n)
            .map(|i| ((vec![1], first + 2 * i), 1, Some(vec![2])))
            .collect()
    };
    let sources = vec![
        source(&schema, vec![rows(0, 6_000), rows(12_000, 6_000)]),
        mem_source(&schema, rows(1, 9_000)),
    ];
    let sizes: Vec<usize> = merged(sources, false, &schema)
        .unwrap()
        .iter()
        .map(|b| b.num_rows())
        .collect();
    assert_eq!(sizes, vec![10_000, 10_000, 1_000]);
}
