use flint::block::Block;
use flint::codec::decode_row;
use flint::config::Config;
use flint::database::{Database, Directory};
use flint::error::StorageError;
use flint::layout::TuplePointer;
use flint::types::{Column, DataType, Row, Schema, Value};

fn col(name: &str, data_type: DataType, pk: bool) -> Column {
    Column { name: name.to_string(), data_type, is_primary_key: pk }
}

fn users_schema() -> Schema {
    Schema::new(vec![col("id", DataType::Int, true), col("name", DataType::String, false)])
}

fn int_pair_schema(second: &str) -> Schema {
    Schema::new(vec![col("id", DataType::Int, true), col(second, DataType::Int, false)])
}

fn row(values: Vec<Value>) -> Row {
    Row::new(values)
}

fn as_ints(r: &Row) -> Vec<i64> {
    r.values
        .iter()
        .map(|v| match v {
            Value::Int(n) => *n,
            _ => panic!("not an int"),
        })
        .collect()
}

fn describe(r: &Row) -> Vec<String> {
    r.values
        .iter()
        .map(|v| match v {
            Value::Int(n) => format!("int {}", n),
            Value::String(s) => format!("str {}", s),
            Value::Null => "null".to_string(),
            Value::Bool(b) => format!("bool {}", b),
            Value::Float(f) => format!("float {}", f64::from_bits(*f)),
            Value::Extension { type_oid, .. } => format!("ext {}", type_oid),
        })
        .collect()
}

fn materialize(db: &Database, table: &str, p: TuplePointer) -> Row {
    let block: Block = db.read_block(table, p.segment_id, p.block_id).unwrap();
    decode_row(&block.read_tuple(p.slot_id).unwrap()).unwrap()
}

fn fresh() -> Database {
    Database::new(&Config::from_args())
}

fn users_db() -> Database {
    let mut db = fresh();
    db.create_table("users".to_string(), users_schema()).unwrap();
    db.insert_row("users", row(vec![Value::Int(1), Value::String("alice".to_string())])).unwrap();
    db.insert_row("users", row(vec![Value::Int(2), Value::String("bob".to_string())])).unwrap();
    db
}

#[test]
fn create_insert_scan() {
    let db = users_db();
    let rows = db.scan_table("users").unwrap();
    assert_eq!(rows.len(), 2);
    assert_eq!(describe(&rows[0]), vec!["int 1", "str alice"]);
    assert_eq!(describe(&rows[1]), vec!["int 2", "str bob"]);
}

#[test]
fn primary_index_point_lookup() {
    let db = users_db();
    let p = db.get_by_key("users", 2).unwrap().expect("key 2 is indexed");
    assert_eq!(p, TuplePointer { segment_id: 0, block_id: 1, slot_id: 1 });
    assert_eq!(describe(&materialize(&db, "users", p)), vec!["int 2", "str bob"]);
    assert_eq!(db.get_by_key("users", 3).unwrap(), None);
}

#[test]
fn range_scan_on_primary_key() {
    let mut db = fresh();
    db.create_table("nums".to_string(), int_pair_schema("v")).unwrap();
    for (id, v) in [(1, 10), (2, 20), (3, 30)] {
        db.insert_row("nums", row(vec![Value::Int(id), Value::Int(v)])).unwrap();
    }
    let ptrs = db.range_scan_index("nums", 2, 3).unwrap();
    assert_eq!(ptrs.len(), 2);
    let mut ids: Vec<i64> = ptrs.iter().map(|p| as_ints(&materialize(&db, "nums", *p))[0]).collect();
    ids.sort();
    assert_eq!(ids, vec![2, 3]);
}

#[test]
fn secondary_hash_index() {
    let mut db = fresh();
    db.create_table("t".to_string(), int_pair_schema("k")).unwrap();
    for (id, k) in [(1, 100), (2, 200), (3, 200)] {
        db.insert_row("t", row(vec![Value::Int(id), Value::Int(k)])).unwrap();
    }
    db.create_secondary_index("by_k".to_string(), "t".to_string(), "k".to_string(), "hash".to_string()).unwrap();
    let p = db.search_secondary_index("t", "k", 100).unwrap().expect("100 is indexed");
    assert_eq!(as_ints(&materialize(&db, "t", p))[0], 1);
    assert_eq!(db.search_secondary_index("t", "k", 999).unwrap(), None);
    db.insert_row("t", row(vec![Value::Int(4), Value::Int(400)])).unwrap();
    let q = db.search_secondary_index("t", "k", 400).unwrap().expect("new rows are indexed");
    assert_eq!(as_ints(&materialize(&db, "t", q))[0], 4);
    assert_eq!(db.search_secondary_index("t", "nope", 100).unwrap(), None);
}

#[test]
fn catalog_survives_restart() {
    let mut db = fresh();
    db.create_table("p".to_string(), Schema::new(vec![col("id", DataType::Int, true)])).unwrap();
    db.insert_row("p", row(vec![Value::Int(42)])).unwrap();
    let db = Database::open(db.into_directory());
    let rows = db.scan_table("p").unwrap();
    assert_eq!(rows.len(), 1);
    assert_eq!(as_ints(&rows[0]), vec![42]);
}

#[test]
fn restart_keeps_every_table_and_index() {
    let mut db = fresh();
    for name in ["table1", "table2", "table3"] {
        db.create_table(name.to_string(), int_pair_schema("v")).unwrap();
        for i in 0..3 {
            db.insert_row(name, row(vec![Value::Int(i), Value::Int(i * 10)])).unwrap();
        }
    }
    db.create_secondary_index("by_v".to_string(), "table2".to_string(), "v".to_string(), "btree".to_string())
        .unwrap();
    let mut db = Database::open(db.into_directory());
    for name in ["table1", "table2", "table3"] {
        assert_eq!(db.scan_table(name).unwrap().len(), 3);
    }
    assert!(db.search_secondary_index("table2", "v", 20).unwrap().is_some());
    assert!(db.get_by_key("table3", 2).unwrap().is_some());
    db.insert_row("table1", row(vec![Value::Int(9), Value::Int(90)])).unwrap();
    assert_eq!(db.scan_table("table1").unwrap().len(), 4);
    assert_eq!(
        db.insert_row("table1", row(vec![Value::Int(1), Value::Int(0)])),
        Err(StorageError::Invalid("duplicate primary key"))
    );
}

#[test]
fn corrupt_current_catalog_falls_back_to_the_other() {
    let mut db = fresh();
    db.create_table("a".to_string(), int_pair_schema("v")).unwrap();
    db.create_table("b".to_string(), int_pair_schema("v")).unwrap();
    let mut dir: Directory = db.into_directory();
    let entry = dir.files.iter_mut().find(|f| f.name == "catalog_0.db").expect("second save went to file 0");
    let last = entry.bytes.len() - 1;
    entry.bytes[last] ^= 0xFF;
    let db = Database::open(dir);
    assert!(db.scan_table("a").is_ok());
    assert_eq!(db.scan_table("b").err(), Some(StorageError::NotFound));
}

#[test]
fn duplicate_table_rejected() {
    let mut db = fresh();
    let s = Schema::new(vec![col("id", DataType::Int, true)]);
    assert_eq!(db.create_table("x".to_string(), s.clone()), Ok(()));
    assert_eq!(db.create_table("x".to_string(), s), Err(StorageError::AlreadyExists));
}

#[test]
fn errors_for_missing_tables_and_bad_rows() {
    let mut db = users_db();
    assert_eq!(db.insert_row("nope", row(vec![])), Err(StorageError::NotFound));
    assert_eq!(db.scan_table("nope").err(), Some(StorageError::NotFound));
    assert_eq!(db.get_schema("nope").err(), Some(StorageError::NotFound));
    assert_eq!(db.get_by_key("nope", 1).err(), Some(StorageError::NotFound));
    assert_eq!(
        db.insert_row("users", row(vec![Value::Int(3)])),
        Err(StorageError::Invalid("row arity does not match schema"))
    );
    assert!(matches!(
        db.insert_row("users", row(vec![Value::Null, Value::String("x".to_string())])),
        Err(StorageError::Invalid(_))
    ));
    assert_eq!(
        db.insert_row("users", row(vec![Value::Int(1), Value::String("again".to_string())])),
        Err(StorageError::Invalid("duplicate primary key"))
    );
    assert_eq!(db.scan_table("users").unwrap().len(), 2);
    assert_eq!(
        db.create_secondary_index("i".to_string(), "nope".to_string(), "k".to_string(), "hash".to_string()),
        Err(StorageError::NotFound)
    );
    assert!(db
        .create_secondary_index("i".to_string(), "users".to_string(), "name".to_string(), "gin".to_string())
        .is_err());
    assert_eq!(db.get_schema("users").unwrap().len(), 2);
}

#[test]
fn empty_table_scans_empty() {
    let mut db = fresh();
    db.create_table("empty_table".to_string(), users_schema()).unwrap();
    assert_eq!(db.scan_table("empty_table").unwrap().len(), 0);
    assert_eq!(db.range_scan_index("empty_table", 0, 100).unwrap(), vec![]);
}

#[test]
fn many_rows_span_blocks() {
    let mut db = fresh();
    db.create_table("big".to_string(), users_schema()).unwrap();
    let long = "x".repeat(1000);
    for i in 0..200 {
        db.insert_row("big", row(vec![Value::Int(i), Value::String(long.clone())])).unwrap();
    }
    let rows = db.scan_table("big").unwrap();
    assert_eq!(rows.len(), 200);
    let p = db.get_by_key("big", 150).unwrap().unwrap();
    assert!(p.block_id > 1);
    assert_eq!(as_ints(&row(vec![materialize(&db, "big", p).values[0].clone()])), vec![150]);
}

#[test]
fn string_primary_keys_hash() {
    let mut db = fresh();
    let s = Schema::new(vec![col("name", DataType::String, true)]);
    db.create_table("s".to_string(), s).unwrap();
    db.insert_row("s", row(vec![Value::String("ab".to_string())])).unwrap();
    let key = Value::String("ab".to_string()).key().unwrap();
    assert_eq!(key, 97 * 31 + 98);
    assert!(db.get_by_key("s", key).unwrap().is_some());
}
