use flint::catalog::{compute_checksum, Catalog, IndexFileMetadata, TableFileMetadata};
use flint::codec::{decode_row, encode_row};
use flint::error::StorageError;
use flint::types::{Column, DataType, Row, Schema, Value};

#[test]
fn row_encoding_is_exact() {
    let r = Row::new(vec![
        Value::Null,
        Value::Int(-2),
        Value::Float(1.5f64.to_bits()),
        Value::String("hé".to_string()),
        Value::Bool(true),
        Value::Extension { type_oid: 7, data: vec![1, 2] },
    ]);
    let b = encode_row(&r).unwrap();
    let mut expect = vec![6, 0, 0, 0, 0, 1];
    expect.extend_from_slice(&(-2i64).to_le_bytes());
    expect.push(2);
    expect.extend_from_slice(&1.5f64.to_le_bytes());
    expect.extend_from_slice(&[3, 3, 0, 0, 0, b'h', 0xC3, 0xA9, 4, 1, 5, 7, 0, 0, 0]);
    assert_eq!(b, expect);
}

#[test]
fn row_round_trip_turns_extensions_into_null() {
    let r = Row::new(vec![
        Value::Int(i64::MIN),
        Value::String("".to_string()),
        Value::Bool(false),
        Value::Extension { type_oid: 9, data: vec![] },
        Value::Float(f64::NAN.to_bits()),
    ]);
    let back = decode_row(&encode_row(&r).unwrap()).unwrap();
    assert_eq!(back.len(), 5);
    assert!(matches!(back.values[0], Value::Int(i64::MIN)));
    assert!(matches!(&back.values[1], Value::String(s) if s.is_empty()));
    assert!(matches!(back.values[2], Value::Bool(false)));
    assert!(matches!(back.values[3], Value::Null));
    assert!(matches!(back.values[4], Value::Float(f) if f == f64::NAN.to_bits()));
}

#[test]
fn cut_short_and_unknown_values_are_told_apart() {
    assert!(matches!(decode_row(&[1, 0, 0, 0, 1, 0]), Err(StorageError::Serialization("value cut short"))));
    assert!(matches!(decode_row(&[1, 0, 0, 0, 9]), Err(StorageError::CorruptData("unknown value tag"))));
    assert!(matches!(decode_row(&[1, 0, 0, 0, 4, 7]), Err(StorageError::Serialization("invalid boolean"))));
}

#[test]
fn bad_rows_are_refused() {
    assert!(decode_row(&[1, 0, 0, 0, 9]).is_err());
    assert!(decode_row(&[1, 0, 0, 0, 1, 0]).is_err());
    assert!(decode_row(&[1, 0, 0]).is_err());
    assert!(decode_row(&[1, 0, 0, 0, 3, 2, 0, 0, 0, 0xFF, 0xFE]).is_err());
    assert!(decode_row(&[1, 0, 0, 0, 4, 2]).is_err());
}

#[test]
fn keys_of_values() {
    assert_eq!(Value::Int(-1).key().unwrap(), u64::MAX);
    assert_eq!(Value::Int(5).key().unwrap(), 5);
    assert_eq!(Value::Float(2.0f64.to_bits()).key().unwrap(), 2.0f64.to_bits());
    assert_eq!(Value::Bool(true).key().unwrap(), 1);
    assert!(Value::Null.key().is_err());
    assert_eq!(Value::Int(70000).as_i32(), Some(70000));
    assert_eq!(Value::Null.as_i32(), None);
}

#[test]
fn checksum_is_rolling_multiply_add() {
    assert_eq!(compute_checksum(&[]), 0);
    assert_eq!(compute_checksum(&[1, 2, 3]), (1 * 31 + 2) * 31 + 3);
    let long = vec![255u8; 40];
    let mut acc: u64 = 0;
    for b in &long {
        acc = acc.wrapping_mul(31).wrapping_add(*b as u64);
    }
    assert_eq!(compute_checksum(&long), acc);
}

fn sample_table(name: &str) -> TableFileMetadata {
    TableFileMetadata {
        name: name.to_string(),
        file_path: format!("table_{}.tbl", name),
        schema: Schema::new(vec![
            Column { name: "id".to_string(), data_type: DataType::Int, is_primary_key: true },
            Column {
                name: "p".to_string(),
                data_type: DataType::Extension { type_oid: 600, name: "point".to_string() },
                is_primary_key: false,
            },
        ]),
        next_segment_id: 1,
        primary_index: Some(IndexFileMetadata {
            name: "pk".to_string(),
            index_type: "btree".to_string(),
            file_path: format!("index_{}_pk.idx", name),
            root_page_segment: 0,
            root_page_offset: 0,
            column: "id".to_string(),
        }),
        secondary_indexes: vec![],
    }
}

#[test]
fn catalog_round_trip_and_checksum() {
    let mut c = Catalog::new();
    c.add_table(sample_table("a")).unwrap();
    c.add_table(sample_table("b")).unwrap();
    c.add_table(sample_table("a")).unwrap();
    assert_eq!(c.all_tables().len(), 2);
    let bytes = c.serialize().unwrap();
    assert_eq!(&bytes[0..8], &[1, 0, 0, 0, 2, 0, 0, 0]);
    assert_eq!(u64::from_le_bytes(bytes[8..16].try_into().unwrap()), compute_checksum(&bytes[16..]));
    let back = Catalog::deserialize(&bytes).unwrap();
    assert_eq!(back.all_tables().len(), 2);
    let t = back.get_table("b").unwrap().unwrap();
    assert_eq!(t.file_path, "table_b.tbl");
    assert_eq!(t.schema.len(), 2);
    assert!(matches!(&t.schema.columns[1].data_type, DataType::Extension { type_oid: 600, name } if name == "point"));
    assert_eq!(t.primary_index.as_ref().unwrap().column, "id");
    let mut bad = bytes.clone();
    let n = bad.len();
    bad[n - 1] ^= 1;
    assert!(matches!(
        Catalog::deserialize(&bad),
        Err(StorageError::CorruptData("catalog checksum mismatch"))
    ));
}

#[test]
fn catalog_segments_flip() {
    let mut c = Catalog::new();
    assert_eq!((c.active_segment(), c.inactive_segment()), (0, 1));
    c.flip_segment();
    assert_eq!((c.active_segment(), c.inactive_segment()), (1, 0));
    c.add_table(sample_table("z")).unwrap();
    assert!(c.remove_table("z").unwrap().is_some());
    assert!(c.remove_table("z").unwrap().is_none());
    assert!(c.get_table("z").unwrap().is_none());
}

#[test]
fn schema_columns_by_name() {
    let s = Schema::new(vec![
        Column { name: "Id".to_string(), data_type: DataType::Int, is_primary_key: true },
        Column { name: "name".to_string(), data_type: DataType::String, is_primary_key: false },
    ]);
    assert_eq!(s.get_column_index("id"), Some(0));
    assert_eq!(s.get_column_index("NAME"), Some(1));
    assert_eq!(s.get_column_index("other"), None);
    assert!(!s.is_empty());
}
