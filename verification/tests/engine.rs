//! Scalar-table behaviour: schemas, ingestion, the codec round trip,
//! predicates, deletion, and the table/database lifecycle.

use vecstore::catalog::Database;
use vecstore::codec::{decode, encode};
use vecstore::error::{EncodingError, Error, PredicateError, SchemaError};
use vecstore::predicate::parse_predicate;
use vecstore::schema::{ColumnDef, ColumnType, Schema};
use vecstore::table::Table;
use vecstore::value::{value_eq, Value};

fn col(name: &str, ctype: ColumnType) -> ColumnDef {
    ColumnDef { name: name.as_bytes().to_vec(), ctype, nullable: false }
}

fn person_schema() -> Schema {
    Schema::define(vec![col("id", ColumnType::Int32), col("name", ColumnType::Utf8)]).unwrap()
}

fn person_row(id: i32, name: &str) -> Vec<Value> {
    vec![Value::Int32(id), Value::Utf8(name.as_bytes().to_vec())]
}

fn person_batch() -> Vec<Vec<Value>> {
    vec![person_row(1, "Alice"), person_row(2, "Bob"), person_row(3, "Lily")]
}

fn row_eq(a: &[Value], b: &[Value]) -> bool {
    a.len() == b.len() && a.iter().zip(b.iter()).all(|(x, y)| value_eq(x, y))
}

#[test]
fn define_rejects_duplicate_names() {
    let r = Schema::define(vec![col("id", ColumnType::Int32), col("id", ColumnType::Utf8)]);
    assert_eq!(r.err(), Some(SchemaError::DuplicateName(1)));
}

#[test]
fn define_rejects_zero_dim_vector() {
    let r = Schema::define(vec![col("v", ColumnType::FixedSizeVector(0))]);
    assert_eq!(r.err(), Some(SchemaError::ZeroDimVector(0)));
}

#[test]
fn define_rejects_second_vector_column() {
    let r = Schema::define(vec![
        col("a", ColumnType::FixedSizeVector(2)),
        col("b", ColumnType::FixedSizeVector(2)),
    ]);
    assert_eq!(r.err(), Some(SchemaError::UnsupportedType(1)));
}

#[test]
fn validate_reports_first_mismatch() {
    let s = person_schema();
    let batch = vec![person_row(1, "ok"), vec![Value::Int32(2), Value::Int32(3)]];
    let r = s.validate_batch(&batch);
    assert_eq!(
        r.err(),
        Some(SchemaError::SchemaMismatch {
            column: 1,
            expected: ColumnType::Utf8,
            actual: ColumnType::Int32,
        })
    );
}

#[test]
fn encode_decode_round_trip() {
    let s = Schema::define(vec![
        col("id", ColumnType::Int32),
        col("name", ColumnType::Utf8),
        col("v", ColumnType::FixedSizeVector(3)),
    ])
    .unwrap();
    let batch = vec![
        vec![
            Value::Int32(7),
            Value::Utf8(b"seven".to_vec()),
            Value::Vector(vec![1, -2, 3]),
        ],
        vec![
            Value::Int32(-9),
            Value::Utf8(b"".to_vec()),
            Value::Vector(vec![0, 0, 5]),
        ],
    ];
    let frag = encode(&s, &batch, 0).unwrap();
    let back = decode(&frag, &s);
    assert_eq!(back.len(), batch.len());
    for (a, b) in back.iter().zip(batch.iter()) {
        assert!(row_eq(a, b));
    }
}

#[test]
fn encode_rejects_ragged_vectors() {
    let s = Schema::define(vec![col("v", ColumnType::FixedSizeVector(2))]).unwrap();
    let batch = vec![
        vec![Value::Vector(vec![1, 2])],
        vec![Value::Vector(vec![1, 2, 3])],
    ];
    let r = encode(&s, &batch, 0);
    assert_eq!(
        r.err(),
        Some(EncodingError::WrongVectorLength { column: 0, row: 1 })
    );
}

#[test]
fn three_records_scan_and_delete() {
    let mut db = Database::connect(b"data/sample".to_vec());
    let h = db
        .create_table(
            b"my_table".to_vec(),
            vec![col("id", ColumnType::Int32), col("name", ColumnType::Utf8)],
            &person_batch(),
        )
        .unwrap();
    {
        let t = db.table(h);
        let rows = t.scan(None).unwrap();
        assert_eq!(rows.len(), 3);
        assert_eq!(rows[0].0, 0);
        assert_eq!(rows[1].0, 1);
        assert_eq!(rows[2].0, 2);
        assert!(row_eq(&rows[0].1, &person_row(1, "Alice")));
        assert!(row_eq(&rows[1].1, &person_row(2, "Bob")));
        assert!(row_eq(&rows[2].1, &person_row(3, "Lily")));
    }
    let t = db.table_mut(h);
    let deleted = t.delete(&b"id > 2".to_vec()).unwrap();
    assert_eq!(deleted, 1);
    let rows = t.scan(None).unwrap();
    assert_eq!(rows.len(), 2);
    assert!(row_eq(&rows[0].1, &person_row(1, "Alice")));
    assert!(row_eq(&rows[1].1, &person_row(2, "Bob")));
}

#[test]
fn delete_counts_and_row_count_drop() {
    let s = person_schema();
    let mut t = Table::create(b"t".to_vec(), s);
    t.add(&person_batch()).unwrap();
    assert_eq!(t.live_row_count(), 3);
    let deleted = t.delete(&b"id >= 2".to_vec()).unwrap();
    assert_eq!(deleted, 2);
    assert_eq!(t.live_row_count(), 1);
    let rows = t.scan(None).unwrap();
    assert_eq!(rows.len(), 1);
    assert!(row_eq(&rows[0].1, &person_row(1, "Alice")));
}

#[test]
fn delete_is_idempotent_on_tombstoned_rows() {
    let mut t = Table::create(b"t".to_vec(), person_schema());
    t.add(&person_batch()).unwrap();
    assert_eq!(t.delete(&b"id = 2".to_vec()).unwrap(), 1);
    assert_eq!(t.delete(&b"id = 2".to_vec()).unwrap(), 0);
    assert_eq!(t.live_row_count(), 2);
}

#[test]
fn sequential_adds_never_lose_a_fragment() {
    let mut t = Table::create(b"t".to_vec(), person_schema());
    t.add(&person_batch()).unwrap();
    t.add(&vec![person_row(4, "Dora"), person_row(5, "Eve")]).unwrap();
    assert_eq!(t.frags.len(), 2);
    assert_eq!(t.stored_row_count(), 5);
    assert_eq!(t.live_row_count(), 5);
    let rows = t.scan(None).unwrap();
    assert_eq!(rows.len(), 5);
    assert_eq!(rows[3].0, 3);
    assert!(row_eq(&rows[4].1, &person_row(5, "Eve")));
}

#[test]
fn failed_add_changes_nothing() {
    let mut t = Table::create(b"t".to_vec(), person_schema());
    t.add(&person_batch()).unwrap();
    let bad = vec![vec![Value::Int32(9), Value::Int32(9)]];
    assert!(matches!(t.add(&bad), Err(Error::Schema(_))));
    assert_eq!(t.frags.len(), 1);
    assert_eq!(t.live_row_count(), 3);
}

#[test]
fn scan_with_predicate_filters() {
    let mut t = Table::create(b"t".to_vec(), person_schema());
    t.add(&person_batch()).unwrap();
    let p = parse_predicate(&b"name >= 'B' AND name < 'C'".to_vec(), &t.schema).unwrap();
    let rows = t.scan(Some(&p)).unwrap();
    assert_eq!(rows.len(), 1);
    assert!(row_eq(&rows[0].1, &person_row(2, "Bob")));
}

#[test]
fn predicate_or_and_precedence() {
    let mut t = Table::create(b"t".to_vec(), person_schema());
    t.add(&person_batch()).unwrap();
    let p = parse_predicate(&b"id = 1 OR id >= 2 AND name = 'Lily'".to_vec(), &t.schema)
        .unwrap();
    let rows = t.scan(Some(&p)).unwrap();
    assert_eq!(rows.len(), 2);
    assert!(row_eq(&rows[0].1, &person_row(1, "Alice")));
    assert!(row_eq(&rows[1].1, &person_row(3, "Lily")));
}

#[test]
fn predicate_syntax_error_position() {
    let s = person_schema();
    let r = parse_predicate(&b"id >".to_vec(), &s);
    assert_eq!(r.err(), Some(PredicateError::SyntaxError(4)));
}

#[test]
fn predicate_unknown_column() {
    let s = person_schema();
    let r = parse_predicate(&b"age > 3".to_vec(), &s);
    assert_eq!(r.err(), Some(PredicateError::UnknownColumn));
}

#[test]
fn predicate_type_mismatch() {
    let s = person_schema();
    assert_eq!(
        parse_predicate(&b"name > 5".to_vec(), &s).err(),
        Some(PredicateError::TypeMismatch)
    );
    assert_eq!(
        parse_predicate(&b"id = 'x'".to_vec(), &s).err(),
        Some(PredicateError::TypeMismatch)
    );
}

#[test]
fn predicate_negative_and_overflowing_literals() {
    let s = person_schema();
    let mut t = Table::create(b"t".to_vec(), s);
    t.add(&vec![person_row(-5, "neg")]).unwrap();
    assert_eq!(t.delete(&b"id < -4".to_vec()).unwrap(), 1);
    assert!(matches!(
        parse_predicate(&b"id = 99999999999".to_vec(), &t.schema),
        Err(PredicateError::SyntaxError(_))
    ));
}

#[test]
fn delete_rejects_bad_predicate_unchanged() {
    let mut t = Table::create(b"t".to_vec(), person_schema());
    t.add(&person_batch()).unwrap();
    assert!(matches!(
        t.delete(&b"nope = 1".to_vec()),
        Err(Error::Predicate(PredicateError::UnknownColumn))
    ));
    assert_eq!(t.live_row_count(), 3);
}

#[test]
fn create_table_twice_already_exists() {
    let mut db = Database::connect(b"data/sample".to_vec());
    db.create_empty_table(b"t".to_vec(), vec![col("id", ColumnType::Int32)]).unwrap();
    let r = db.create_empty_table(b"t".to_vec(), vec![col("id", ColumnType::Int32)]);
    assert_eq!(r.err(), Some(Error::AlreadyExists));
}

#[test]
fn drop_then_open_not_found() {
    let mut db = Database::connect(b"data/sample".to_vec());
    db.create_empty_table(
        b"my_table".to_vec(),
        vec![col("id", ColumnType::Int32), col("name", ColumnType::Utf8)],
    )
    .unwrap();
    assert!(db.open_table(&b"my_table".to_vec()).is_ok());
    db.drop_table(&b"my_table".to_vec()).unwrap();
    assert_eq!(db.open_table(&b"my_table".to_vec()).err(), Some(Error::NotFound));
    assert_eq!(db.drop_table(&b"my_table".to_vec()).err(), Some(Error::NotFound));
}

#[test]
fn dropped_table_refuses_operations() {
    let mut t = Table::create(b"t".to_vec(), person_schema());
    t.add(&person_batch()).unwrap();
    t.drop_now();
    assert_eq!(t.add(&person_batch()).err(), Some(Error::TableDropped));
    assert_eq!(t.delete(&b"id > 0".to_vec()).err(), Some(Error::TableDropped));
    assert!(matches!(t.scan(None), Err(Error::TableDropped)));
}

#[test]
fn drop_database_removes_all_tables() {
    let mut db = Database::connect(b"data/sample".to_vec());
    db.create_empty_table(b"a".to_vec(), vec![col("id", ColumnType::Int32)]).unwrap();
    db.create_empty_table(b"b".to_vec(), vec![col("id", ColumnType::Int32)]).unwrap();
    db.drop_database();
    assert_eq!(db.open_table(&b"a".to_vec()).err(), Some(Error::NotFound));
    assert_eq!(db.open_table(&b"b".to_vec()).err(), Some(Error::NotFound));
}

#[test]
fn connect_is_idempotent_per_uri() {
    let mut cat = vecstore::catalog::Catalog::new();
    let h1 = cat.connect(&b"data/sample".to_vec());
    let h2 = cat.connect(&b"data/sample".to_vec());
    let h3 = cat.connect(&b"data/other".to_vec());
    assert_eq!(h1, h2);
    assert_ne!(h1, h3);
    assert_eq!(cat.dbs.len(), 2);
}

#[test]
fn empty_batch_adds_an_empty_fragment() {
    let mut t = Table::create(b"t".to_vec(), person_schema());
    let n = t.add(&vec![]).unwrap();
    assert_eq!(n, 0);
    assert_eq!(t.frags.len(), 1);
    assert_eq!(t.scan(None).unwrap().len(), 0);
}

#[test]
fn predicate_accepts_quoted_spaces_and_tabs() {
    let mut t = Table::create(b"t".to_vec(), person_schema());
    t.add(&vec![person_row(1, "two words")]).unwrap();
    let p = parse_predicate(&b"\tname = 'two words' ".to_vec(), &t.schema).unwrap();
    assert_eq!(t.scan(Some(&p)).unwrap().len(), 1);
}

#[test]
fn predicate_all_comparison_operators() {
    let mut t = Table::create(b"t".to_vec(), person_schema());
    t.add(&person_batch()).unwrap();
    let cases: Vec<(&[u8], usize)> = vec![
        (b"id = 2", 1),
        (b"id != 2", 2),
        (b"id < 2", 1),
        (b"id <= 2", 2),
        (b"id > 2", 1),
        (b"id >= 2", 2),
    ];
    for (text, expect) in cases {
        let p = parse_predicate(&text.to_vec(), &t.schema).unwrap();
        assert_eq!(t.scan(Some(&p)).unwrap().len(), expect, "{:?}", text);
    }
}

#[test]
fn utf8_lexicographic_order() {
    let mut t = Table::create(b"t".to_vec(), person_schema());
    t.add(&vec![person_row(1, "a"), person_row(2, "ab"), person_row(3, "b")]).unwrap();
    let p = parse_predicate(&b"name < 'ab'".to_vec(), &t.schema).unwrap();
    let rows = t.scan(Some(&p)).unwrap();
    assert_eq!(rows.len(), 1);
    assert!(row_eq(&rows[0].1, &person_row(1, "a")));
    let p2 = parse_predicate(&b"name >= 'ab'".to_vec(), &t.schema).unwrap();
    assert_eq!(t.scan(Some(&p2)).unwrap().len(), 2);
}

#[test]
fn trailing_garbage_is_a_syntax_error() {
    let s = person_schema();
    assert!(matches!(
        parse_predicate(&b"id = 1 id = 2".to_vec(), &s),
        Err(PredicateError::SyntaxError(_))
    ));
    assert!(matches!(
        parse_predicate(&b"".to_vec(), &s),
        Err(PredicateError::SyntaxError(_))
    ));
    assert!(matches!(
        parse_predicate(&b"id = 1 AND".to_vec(), &s),
        Err(PredicateError::SyntaxError(_))
    ));
}

#[test]
fn row_ids_continue_across_fragments() {
    let mut t = Table::create(b"t".to_vec(), person_schema());
    t.add(&vec![person_row(1, "a")]).unwrap();
    t.add(&vec![person_row(2, "b"), person_row(3, "c")]).unwrap();
    let rows = t.scan(None).unwrap();
    let ids: Vec<u64> = rows.iter().map(|r| r.0).collect();
    assert_eq!(ids, vec![0, 1, 2]);
}
