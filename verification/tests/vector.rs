//! Vector-query behaviour: distances, ordering, result lengths,
//! index staleness, and the large all-ones scenario.

use vecstore::catalog::Database;
use vecstore::distance::Metric;
use vecstore::error::{Error, IndexError};
use vecstore::schema::{ColumnDef, ColumnType};
use vecstore::table::Table;
use vecstore::value::{ones_batch, Value};

fn col(name: &str, ctype: ColumnType) -> ColumnDef {
    ColumnDef { name: name.as_bytes().to_vec(), ctype, nullable: false }
}

fn vec_table(dim: usize) -> Table {
    let s = vecstore::schema::Schema::define(vec![
        col("id", ColumnType::Int32),
        col("vector", ColumnType::FixedSizeVector(dim)),
    ])
    .unwrap();
    Table::create(b"vectors".to_vec(), s)
}

fn vrow(id: i32, v: Vec<i32>) -> Vec<Value> {
    vec![Value::Int32(id), Value::Vector(v)]
}

#[test]
fn thousand_ones_query_returns_first_k_at_distance_zero() {
    let mut db = Database::connect(b"data/sample".to_vec());
    let h = db
        .create_table(
            b"my_table".to_vec(),
            vec![
                col("id", ColumnType::Int32),
                col("vector", ColumnType::FixedSizeVector(128)),
            ],
            &ones_batch(1000, 128),
        )
        .unwrap();
    let t = db.table(h);
    let target = vec![1; 128];
    let hits = t.search(&target, 5, None, Metric::Euclidean).unwrap();
    assert_eq!(hits.len(), 5);
    for (i, hit) in hits.iter().enumerate() {
        assert_eq!(hit.dist, 0);
        assert_eq!(hit.row_id, i as u64);
    }
}

#[test]
fn result_length_is_min_of_k_and_live_rows() {
    let mut t = vec_table(2);
    t.add(&vec![
        vrow(0, vec![0, 0]),
        vrow(1, vec![3, 4]),
        vrow(2, vec![6, 8]),
    ])
    .unwrap();
    let target = vec![0, 0];
    assert_eq!(t.search(&target, 0, None, Metric::Euclidean).unwrap().len(), 0);
    assert_eq!(t.search(&target, 2, None, Metric::Euclidean).unwrap().len(), 2);
    assert_eq!(t.search(&target, 99, None, Metric::Euclidean).unwrap().len(), 3);
    t.delete(&b"id = 1".to_vec()).unwrap();
    assert_eq!(t.search(&target, 99, None, Metric::Euclidean).unwrap().len(), 2);
}

#[test]
fn euclidean_distances_are_exact_squares() {
    let mut t = vec_table(2);
    t.add(&vec![vrow(0, vec![0, 0]), vrow(1, vec![3, 4])]).unwrap();
    let hits = t.search(&vec![0, 0], 2, None, Metric::Euclidean).unwrap();
    assert_eq!(hits[0].row_id, 0);
    assert_eq!(hits[0].dist, 0);
    assert_eq!(hits[1].row_id, 1);
    assert_eq!(hits[1].dist, 25);
}

#[test]
fn ties_break_by_lower_row_id() {
    let mut t = vec_table(2);
    t.add(&vec![
        vrow(0, vec![5, 0]),
        vrow(1, vec![0, 5]),
        vrow(2, vec![0, -5]),
    ])
    .unwrap();
    let hits = t.search(&vec![0, 0], 3, None, Metric::Euclidean).unwrap();
    assert_eq!(hits[0].row_id, 0);
    assert_eq!(hits[1].row_id, 1);
    assert_eq!(hits[2].row_id, 2);
    assert!(hits.iter().all(|h| h.dist == 25));
}

#[test]
fn dot_metric_prefers_larger_inner_product() {
    let mut t = vec_table(2);
    t.add(&vec![vrow(0, vec![1, 0]), vrow(1, vec![3, 0])]).unwrap();
    let hits = t.search(&vec![1, 0], 2, None, Metric::Dot).unwrap();
    assert_eq!(hits[0].row_id, 1);
    assert_eq!(hits[0].dist, -3);
    assert_eq!(hits[1].row_id, 0);
    assert_eq!(hits[1].dist, -1);
}

#[test]
fn cosine_metric_zero_for_parallel_exact_norms() {
    let mut t = vec_table(2);
    t.add(&vec![vrow(0, vec![3, 4]), vrow(1, vec![4, 3])]).unwrap();
    let hits = t.search(&vec![3, 4], 2, None, Metric::Cosine).unwrap();
    assert_eq!(hits[0].row_id, 0);
    assert_eq!(hits[0].dist, 0);
    assert_eq!(hits[1].row_id, 1);
    assert_eq!(hits[1].dist, 40000);
}

#[test]
fn query_dimension_mismatch() {
    let mut t = vec_table(2);
    t.add(&vec![vrow(0, vec![0, 0])]).unwrap();
    let r = t.search(&vec![0, 0, 0], 1, None, Metric::Euclidean);
    assert_eq!(r.err(), Some(Error::Index(IndexError::DimensionMismatch)));
}

#[test]
fn query_without_vector_column_is_rejected() {
    let s = vecstore::schema::Schema::define(vec![col("id", ColumnType::Int32)]).unwrap();
    let t = Table::create(b"t".to_vec(), s);
    let r = t.search(&vec![1], 1, None, Metric::Euclidean);
    assert_eq!(r.err(), Some(Error::Index(IndexError::DimensionMismatch)));
}

#[test]
fn rows_added_after_index_build_are_found() {
    let mut t = vec_table(2);
    t.add(&vec![vrow(0, vec![10, 0]), vrow(1, vec![0, 10])]).unwrap();
    t.build_index().unwrap();
    t.add(&vec![vrow(2, vec![1, 0])]).unwrap();
    let hits = t.search(&vec![0, 0], 1, None, Metric::Euclidean).unwrap();
    assert_eq!(hits.len(), 1);
    assert_eq!(hits[0].row_id, 2);
    assert_eq!(hits[0].dist, 1);
}

#[test]
fn tombstoned_rows_are_excluded_despite_stale_index() {
    let mut t = vec_table(2);
    t.add(&vec![vrow(0, vec![0, 0]), vrow(1, vec![9, 9])]).unwrap();
    t.build_index().unwrap();
    t.delete(&b"id = 0".to_vec()).unwrap();
    let hits = t.search(&vec![0, 0], 2, None, Metric::Euclidean).unwrap();
    assert_eq!(hits.len(), 1);
    assert_eq!(hits[0].row_id, 1);
}

#[test]
fn filtered_query_ranks_only_matching_rows() {
    let mut t = vec_table(2);
    t.add(&vec![
        vrow(0, vec![0, 0]),
        vrow(1, vec![1, 0]),
        vrow(2, vec![2, 0]),
    ])
    .unwrap();
    let p = vecstore::predicate::parse_predicate(&b"id != 0".to_vec(), &t.schema).unwrap();
    let hits = t.search(&vec![0, 0], 3, Some(&p), Metric::Euclidean).unwrap();
    assert_eq!(hits.len(), 2);
    assert_eq!(hits[0].row_id, 1);
    assert_eq!(hits[1].row_id, 2);
}

#[test]
fn search_returns_row_data() {
    let mut t = vec_table(2);
    t.add(&vec![vrow(7, vec![2, 3])]).unwrap();
    let hits = t.search(&vec![2, 3], 1, None, Metric::Euclidean).unwrap();
    assert_eq!(hits.len(), 1);
    assert!(matches!(hits[0].row[0], Value::Int32(7)));
    match &hits[0].row[1] {
        Value::Vector(v) => assert_eq!(v, &vec![2, 3]),
        _ => unreachable!(),
    }
}

#[test]
fn query_on_empty_table_is_empty() {
    let t = vec_table(4);
    let hits = t.search(&vec![0, 0, 0, 0], 3, None, Metric::Euclidean).unwrap();
    assert_eq!(hits.len(), 0);
}

#[test]
fn cosine_zero_vector_has_no_direction() {
    let mut t = vec_table(2);
    t.add(&vec![vrow(0, vec![0, 0]), vrow(1, vec![3, 4])]).unwrap();
    let hits = t.search(&vec![3, 4], 2, None, Metric::Cosine).unwrap();
    assert_eq!(hits[0].row_id, 1);
    assert_eq!(hits[0].dist, 0);
    assert_eq!(hits[1].row_id, 0);
    assert_eq!(hits[1].dist, 1000000);
}

#[test]
fn dot_metric_with_opposed_vectors() {
    let mut t = vec_table(2);
    t.add(&vec![vrow(0, vec![-2, 0]), vrow(1, vec![2, 0])]).unwrap();
    let hits = t.search(&vec![1, 0], 2, None, Metric::Dot).unwrap();
    assert_eq!(hits[0].row_id, 1);
    assert_eq!(hits[0].dist, -2);
    assert_eq!(hits[1].row_id, 0);
    assert_eq!(hits[1].dist, 2);
}

#[test]
fn rebuilt_index_covers_new_fragments() {
    let mut t = vec_table(2);
    t.add(&vec![vrow(0, vec![5, 5])]).unwrap();
    t.build_index().unwrap();
    t.add(&vec![vrow(1, vec![1, 1])]).unwrap();
    t.build_index().unwrap();
    let hits = t.search(&vec![0, 0], 2, None, Metric::Euclidean).unwrap();
    assert_eq!(hits.len(), 2);
    assert_eq!(hits[0].row_id, 1);
    assert_eq!(hits[1].row_id, 0);
}
