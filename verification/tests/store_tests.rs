use dungeon::chest::{Chest, FileOp, RunFile};
use dungeon::ast::{DeleteStmt, Expression, GetExpr, Literal, LocatedElement, SetStmt, Statement};
use dungeon::server_value::{ServerError, ServerResponse};
use dungeon::ss_table::SSTable;
use dungeon::codec::{decode_tsv_exact, encode_tsv_vec};
use dungeon::filter::{BloomFilter, Filter};
use dungeon::value::{TimeStampedValue, Value};

fn fresh_chest(flush: usize, max_runs: usize) -> Chest<BloomFilter> {
    Chest::new(
        "chest-dir",
        flush,
        max_runs,
        BloomFilter::with_default_size(),
        Vec::new(),
    )
    .unwrap()
}

/// Rebuilds the run files a chest has queued on its pending writes, as a
/// directory scan would find them.
fn collect_run_files(ops: Vec<FileOp>) -> Vec<RunFile> {
    let mut indexes: Vec<(String, Vec<u8>)> = Vec::new();
    let mut datas: Vec<(String, Vec<u8>)> = Vec::new();
    for op in ops {
        match op {
            FileOp::Write { path, bytes } => {
                if let Some(stem) = path.strip_suffix(".index") {
                    let stem = stem.rsplit('/').next().unwrap().to_owned();
                    indexes.retain(|(s, _)| s != &stem);
                    indexes.push((stem, bytes));
                } else if let Some(stem) = path.strip_suffix(".chest") {
                    let stem = stem.rsplit('/').next().unwrap().to_owned();
                    datas.retain(|(s, _)| s != &stem);
                    datas.push((stem, bytes));
                }
            }
            FileOp::Remove { path } => {
                if let Some(stem) = path.strip_suffix(".index") {
                    let stem = stem.rsplit('/').next().unwrap().to_owned();
                    indexes.retain(|(s, _)| s != &stem);
                } else if let Some(stem) = path.strip_suffix(".chest") {
                    let stem = stem.rsplit('/').next().unwrap().to_owned();
                    datas.retain(|(s, _)| s != &stem);
                }
            }
        }
    }
    indexes
        .into_iter()
        .map(|(stem, index_bytes)| {
            let data_bytes = datas
                .iter()
                .find(|(s, _)| s == &stem)
                .map(|(_, b)| b.clone())
                .unwrap();
            RunFile {
                stem,
                index_bytes,
                data_bytes,
            }
        })
        .collect()
}

#[test]
fn memtable_set_get() {
    let mut chest = fresh_chest(1024, 8);
    chest
        .set("name", TimeStampedValue::new(Value::String("John Doe".to_owned())))
        .unwrap();
    assert_eq!(
        chest.get("name").unwrap().unwrap().value,
        Value::String("John Doe".to_owned())
    );
}

#[test]
fn test_flush() {
    let mut chest = fresh_chest(2, 8);
    chest
        .set("name", TimeStampedValue::new(Value::String("John Doe".to_owned())))
        .unwrap();
    assert_eq!(chest.len(), 1);
    chest
        .set("age", TimeStampedValue::new(Value::Integer(5)))
        .unwrap();
    assert_eq!(chest.len(), 0);
}

#[test]
fn test_read_from_sstable() {
    let mut chest = fresh_chest(2, 8);
    chest
        .set("foo", TimeStampedValue::new(Value::String("bar".to_string())))
        .unwrap();
    chest
        .set("foo2", TimeStampedValue::new(Value::String("bar2".to_string())))
        .unwrap();
    assert_eq!(chest.len(), 0);
    assert_eq!(
        chest.get("foo").unwrap().unwrap().value,
        Value::String("bar".to_owned())
    );
    assert_eq!(
        chest.get("foo2").unwrap().unwrap().value,
        Value::String("bar2".to_owned())
    );
}

#[test]
fn test_reinitialize_chest() {
    let mut chest = fresh_chest(1024, 8);
    chest
        .set("foo", TimeStampedValue::new(Value::String("bar".to_owned())))
        .unwrap();
    // dropping an engine flushes its buffer; do the same by hand
    chest.flush().unwrap();
    let files = collect_run_files(chest.take_pending());
    drop(chest);

    let chest2 = Chest::new(
        "chest-dir",
        1024,
        8,
        BloomFilter::with_default_size(),
        files,
    )
    .unwrap();
    assert_eq!(
        chest2.get("foo").unwrap().unwrap().value,
        Value::String("bar".to_owned())
    );
}

#[test]
fn test_merge_sstables_on_limit() {
    let mut chest = fresh_chest(1, 1);
    chest.set("foo", TimeStampedValue::new(Value::Integer(1))).unwrap();
    chest.set("bar", TimeStampedValue::new(Value::Integer(2))).unwrap();
    assert_eq!(chest.run_count(), 1);
    assert_eq!(chest.get("foo").unwrap().unwrap().value, Value::Integer(1));
    assert_eq!(chest.get("bar").unwrap().unwrap().value, Value::Integer(2));
}

#[test]
fn test_overwrite_on_merge() {
    let mut chest = fresh_chest(1, 1);
    chest.set("foo", TimeStampedValue::new(Value::Integer(1))).unwrap();
    chest.set("foo", TimeStampedValue::new(Value::Integer(6))).unwrap();
    assert_eq!(chest.run_count(), 1);
    assert_eq!(chest.get("foo").unwrap().unwrap().value, Value::Integer(6));
    chest.set("foo", TimeStampedValue::new(Value::Integer(4))).unwrap();
    assert_eq!(chest.get("foo").unwrap().unwrap().value, Value::Integer(4));
}

#[test]
fn merging_delete_old_sstables() {
    let mut chest = fresh_chest(1, 1);
    chest.set("foo", TimeStampedValue::new(Value::Integer(1))).unwrap();
    chest.set("bar", TimeStampedValue::new(Value::Integer(2))).unwrap();
    chest.flush().unwrap();
    let files = collect_run_files(chest.take_pending());
    drop(chest);
    let chest = Chest::new("chest-dir", 1, 1, BloomFilter::with_default_size(), files).unwrap();
    assert_eq!(chest.run_count(), 1);
    assert_eq!(chest.get("foo").unwrap().unwrap().value, Value::Integer(1));
    assert_eq!(chest.get("bar").unwrap().unwrap().value, Value::Integer(2));
}

#[test]
fn test_delete_value() {
    let mut chest = fresh_chest(4, 1);
    chest.set("count", TimeStampedValue::new(Value::Integer(0))).unwrap();
    chest.set("count", TimeStampedValue::new(Value::Integer(1))).unwrap();
    assert_eq!(chest.get("count").unwrap().unwrap().value, Value::Integer(1));
    chest.delete("count").unwrap();
    assert_eq!(chest.get("count").unwrap(), None);
}

#[test]
fn test_delete_from_sstable() {
    let mut chest = fresh_chest(1, 1);
    chest.set("count", TimeStampedValue::new(Value::Integer(0))).unwrap();
    assert_eq!(chest.get("count").unwrap().unwrap().value, Value::Integer(0));
    chest.delete("count").unwrap();
    assert_eq!(chest.get("count").unwrap(), None);
}

#[test]
fn test_insert() {
    let mut filter = BloomFilter::new(29, 11);
    filter.insert("apple");
    filter.insert("orange");
    filter.insert("grape");
    assert!(filter.contains("apple"));
    assert!(filter.contains("orange"));
    assert!(filter.contains("grape"));
}

#[test]
fn codec_round_trips_every_variant() {
    let values = vec![
        Value::Integer(-42),
        Value::Integer(i64::MAX),
        Value::Float("10.5".to_owned()),
        Value::String("hello world".to_owned()),
        Value::Boolean(true),
        Value::Boolean(false),
        Value::Null,
        Value::Tombstone,
    ];
    for v in values {
        let tv = TimeStampedValue::with_timestamp(v, 123456789);
        let bytes = encode_tsv_vec(&tv);
        let back = decode_tsv_exact(bytes.as_slice()).unwrap();
        assert_eq!(back, tv);
    }
}

#[test]
fn corrupt_bytes_do_not_decode() {
    let tv = TimeStampedValue::with_timestamp(Value::Integer(7), 1);
    let mut bytes = encode_tsv_vec(&tv);
    bytes.pop();
    assert!(decode_tsv_exact(bytes.as_slice()).is_none());
    assert!(decode_tsv_exact(&[]).is_none());
}

#[test]
fn filter_miss_means_absent() {
    let chest = fresh_chest(16, 4);
    assert_eq!(chest.get("never-written").unwrap(), None);
}

#[test]
fn run_id_strings_round_trip() {
    assert_eq!(dungeon::run_id::u128_to_string(0), "0");
    assert_eq!(dungeon::run_id::u128_to_string(1699999999123456789), "1699999999123456789");
    assert_eq!(dungeon::run_id::parse_run_id("1699999999123456789"), Some(1699999999123456789));
    assert_eq!(dungeon::run_id::parse_run_id("x12"), None);
    assert_eq!(dungeon::run_id::parse_run_id(""), None);
}

#[test]
fn server_response_round_trips() {
    let cases = vec![
        ServerResponse::from_value(Value::Integer(42)),
        ServerResponse::from_value(Value::Null),
        ServerResponse::from_error(ServerError::new("Could not parse statement")),
    ];
    for resp in cases {
        let bytes = resp.to_vec().unwrap();
        let back = ServerResponse::from_vec(bytes.as_slice()).unwrap();
        assert_eq!(back, resp);
    }
    assert!(ServerResponse::from_vec(&[9, 9]).is_err());
}

#[test]
fn test_eval_literal() {
    let mut chest = fresh_chest(1024, 8);
    let result = dungeon::runner::run_query(
        &mut chest,
        Statement::Expr(Expression::Literal(Literal::Integer(LocatedElement::from_value(1)))),
    )
    .unwrap();
    assert_eq!(result, Value::Integer(1));
}

#[test]
fn test_insert_value() {
    let mut chest = fresh_chest(1024, 8);
    dungeon::runner::run_query(
        &mut chest,
        Statement::Assign(LocatedElement::from_value(SetStmt {
            key: "count".to_owned(),
            value: Expression::Literal(Literal::Integer(LocatedElement::from_value(1))),
        })),
    )
    .unwrap();
    let found = dungeon::runner::run_query(
        &mut chest,
        Statement::Expr(Expression::Get(LocatedElement::from_value(GetExpr {
            key: "count".to_owned(),
        }))),
    )
    .unwrap();
    assert_eq!(found, Value::Integer(1));
}

#[test]
fn tests_test_delete_value() {
    let mut chest = fresh_chest(1024, 8);
    dungeon::runner::run_query(
        &mut chest,
        Statement::Assign(LocatedElement::from_value(SetStmt {
            key: "count".to_owned(),
            value: Expression::Literal(Literal::Integer(LocatedElement::from_value(0))),
        })),
    )
    .unwrap();
    let found = dungeon::runner::run_query(
        &mut chest,
        Statement::Expr(Expression::Get(LocatedElement::from_value(GetExpr {
            key: "count".to_owned(),
        }))),
    )
    .unwrap();
    assert_eq!(found, Value::Integer(0));
    dungeon::runner::run_query(
        &mut chest,
        Statement::Delete(LocatedElement::from_value(DeleteStmt { key: "count".to_owned() })),
    )
    .unwrap();
    let found = dungeon::runner::run_query(
        &mut chest,
        Statement::Expr(Expression::Get(LocatedElement::from_value(GetExpr {
            key: "count".to_owned(),
        }))),
    )
    .unwrap();
    assert_eq!(found, Value::Null);
}

#[test]
fn test_merge_sstables() {
    let table1 = SSTable::new(
        "chest-dir".to_owned(),
        "100".to_owned(),
        vec![(
            "foo".to_owned(),
            TimeStampedValue::with_timestamp(Value::String("bar".to_string()), 100),
        )],
    )
    .unwrap();
    let table2 = SSTable::new(
        "chest-dir".to_owned(),
        "200".to_owned(),
        vec![(
            "foo".to_owned(),
            TimeStampedValue::with_timestamp(Value::String("barz".to_string()), 200),
        )],
    )
    .unwrap();
    let merged = table1.merge(&table2, "300".to_owned()).unwrap();
    assert_eq!(
        merged.get("foo").unwrap().unwrap().value,
        Value::String("barz".to_owned())
    );
}
