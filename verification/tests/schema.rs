use mini_mito::batch::{internal_columns, sst_schema};
use mini_mito::cells::{cells_to_array, check_cell, parse_column_cells, Datum};
use mini_mito::names::{
    is_sst_file, is_wal_file, next_wal_number, sst_file_name, sst_id, wal_file_name, wal_number,
};
use mini_mito::schema::{ColumnDef, DataType, SemanticType, TableSchema};

fn column(name: &str, data_type: DataType, semantic: SemanticType) -> ColumnDef {
    ColumnDef {
        name: name.to_string(),
        data_type,
        semantic,
    }
}

fn sample_schema() -> TableSchema {
    TableSchema {
        columns: vec![
            column("host", DataType::Binary, SemanticType::Tag),
            column("region", DataType::Binary, SemanticType::Tag),
            column("ts", DataType::Int64, SemanticType::Timestamp),
            column("cpu", DataType::Int64, SemanticType::Field),
            column("mem", DataType::Int64, SemanticType::Field),
        ],
        primary_key: vec![0, 1],
        time_index: 2,
    }
}

#[test]
fn test_key_value_helpers() {
    let s = TableSchema::default_table();
    assert_eq!(s.key(&[vec![7]], 42), (vec![7], 42));
    assert_eq!(s.value(&[b"abc".to_vec()]), b"abc".to_vec());
}

#[test]
fn test_single_tag_single_field_identity() {
    let s = TableSchema::default_table();
    let tag: Vec<u8> = vec![10, 20];
    let ts: i64 = 1234;
    let field: Vec<u8> = b"hello".to_vec();
    let cells = vec![tag.clone(), ts.to_le_bytes().to_vec(), field.clone()];

    let key = s.cells_to_key(&cells);
    assert_eq!(key, (tag.clone(), ts));

    let cells_back = s.key_to_cells(&key);
    assert_eq!(cells_back[0], tag);
    assert_eq!(cells_back[1], ts.to_le_bytes().to_vec());

    let blob = s.encode_fields(&cells);
    assert_eq!(blob, field);
    assert_eq!(s.decode_fields(&blob), vec![field]);
}

#[test]
fn test_multi_tag_multi_field_still_prefixed() {
    let s = sample_schema();
    let cells = vec![
        b"h1".to_vec(),
        b"cn".to_vec(),
        0i64.to_le_bytes().to_vec(),
        1i64.to_le_bytes().to_vec(),
        2i64.to_le_bytes().to_vec(),
    ];
    let key = s.cells_to_key(&cells);
    assert_eq!(key.0.len(), (4 + b"h1".len()) + (4 + b"cn".len()));

    let cells_back = s.key_to_cells(&key);
    assert_eq!(cells_back[0], b"h1".to_vec());
    assert_eq!(cells_back[1], b"cn".to_vec());
    assert_eq!(cells_back[2], 0i64.to_le_bytes().to_vec());

    let blob = s.encode_fields(&cells);
    assert_eq!(
        s.decode_fields(&blob),
        vec![1i64.to_le_bytes().to_vec(), 2i64.to_le_bytes().to_vec()]
    );
}

#[test]
fn test_tags_roundtrip() {
    let s = sample_schema();
    let cells = vec![b"h1".to_vec(), b"cn".to_vec()];
    let enc = s.encode_tags(&cells);
    assert_eq!(s.decode_tags(&enc), cells);
}

#[test]
fn test_fields_roundtrip() {
    let s = sample_schema();
    let cells = vec![
        b"h1".to_vec(),
        b"cn".to_vec(),
        0i64.to_le_bytes().to_vec(),
        1i64.to_le_bytes().to_vec(),
        2i64.to_le_bytes().to_vec(),
    ];
    let enc = s.encode_fields(&cells);
    assert_eq!(
        s.decode_fields(&enc),
        vec![1i64.to_le_bytes().to_vec(), 2i64.to_le_bytes().to_vec(),]
    );
}

#[test]
fn tags_have_their_exact_bytes() {
    let s = sample_schema();
    let enc = s.encode_tags(&[b"h1".to_vec(), b"c".to_vec()]);
    assert_eq!(enc, vec![2, 0, 0, 0, b'h', b'1', 1, 0, 0, 0, b'c']);
    assert!(s.can_decode_tags(&enc));
    assert!(!s.can_decode_tags(&enc[..enc.len() - 1]));
    assert!(!s.can_decode_fields(&[1, 0, 0]));
    assert!(TableSchema::default_table().can_decode_tags(&[]));
}

#[test]
fn default_table_has_tags_timestamp_and_fields() {
    let s = TableSchema::default_table();
    let fields = s.arrow_schema();
    let names: Vec<&str> = fields.iter().map(|f| f.name.as_str()).collect();
    assert_eq!(names, vec!["tags", "timestamp", "fields"]);
    assert_eq!(s.time_index_name(), "timestamp");
    assert_eq!(s.field_cols(), vec![2]);
    assert!(s.check_sound());
    let stored: Vec<String> = sst_schema(&s).into_iter().map(|f| f.name).collect();
    assert_eq!(
        stored,
        vec!["tags", "timestamp", "fields", "__seq", "__op_type"]
    );
    assert_eq!(internal_columns(&s), (3, 4));
}

#[test]
fn unsound_schemas_are_told() {
    let mut s = sample_schema();
    assert!(s.check_in_range());
    assert!(s.check_sound());
    s.primary_key = vec![0, 0];
    assert!(!s.check_sound());
    s.primary_key = vec![0, 9];
    assert!(!s.check_in_range());
}

#[test]
fn cells_of_every_type_survive() {
    let cases = vec![
        (DataType::Binary, Datum::Bytes(vec![1, 2])),
        (DataType::Utf8, Datum::Bytes(b"text".to_vec())),
        (DataType::Int64, Datum::Int(-7)),
        (DataType::Timestamp, Datum::Int(1 << 40)),
        (DataType::Float64, Datum::Float(1.5f64.to_bits())),
        (DataType::Boolean, Datum::Bool(true)),
    ];
    for (dt, datum) in cases {
        let cells = parse_column_cells(dt, &[Some(datum), None]);
        assert!(cells[1].is_none());
        assert!(check_cell(dt, cells[0].as_ref().unwrap()));
        let back = cells_to_array(dt, &cells);
        let again = parse_column_cells(dt, &back);
        assert_eq!(again, cells);
    }
    let cells = parse_column_cells(DataType::Int64, &[Some(Datum::Int(-2))]);
    assert_eq!(cells, vec![Some((-2i64).to_le_bytes().to_vec())]);
    let cells = parse_column_cells(DataType::Boolean, &[Some(Datum::Bool(true))]);
    assert_eq!(cells, vec![Some(vec![1])]);
    assert!(!check_cell(DataType::Int64, &vec![1, 2, 3]));
}

#[test]
fn file_names_give_back_their_numbers() {
    assert_eq!(sst_file_name(7), "0007.sst");
    assert_eq!(sst_file_name(12345), "12345.sst");
    assert_eq!(wal_file_name(7), "wal_007.log");
    for n in [0, 9, 999, 1000, 123456] {
        assert_eq!(sst_id(&sst_file_name(n)), Some(n));
        assert_eq!(wal_number(&wal_file_name(n)), n);
        assert_eq!(next_wal_number(&wal_file_name(n)), Some(n + 1));
        assert!(is_sst_file(&sst_file_name(n)));
        assert!(is_wal_file(&wal_file_name(n)));
    }
    assert_eq!(sst_id("x.sst"), None);
    assert_eq!(wal_number("wal.log"), 0);
    assert!(!is_wal_file("wal.log"));
    assert!(!is_sst_file("0001.sst.tmp"));
}
