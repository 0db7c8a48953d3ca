use review_index::record::Record;
use review_index::store::Store;
use review_index::error::StoreError;

fn rec(title: &str, body: &str, product_id: &str, rating: u8) -> Record {
    Record {
        title: title.as_bytes().to_vec(),
        body: body.as_bytes().to_vec(),
        product_id: product_id.as_bytes().to_vec(),
        rating,
    }
}

const DIM: usize = 256;

#[test]
fn single_ingest_grows_both_logs() {
    let mut s = Store::new(DIM);
    assert_eq!(s.count(), 0);
    let ordinal = s.ingest_one(&rec("Great phone", "Battery lasts long", "P001", 5));
    assert_eq!(ordinal, 0);
    assert_eq!(s.count(), 1);
    assert_eq!(s.vectors.count(), 1);
    assert_eq!(s.metadata.count(), 1);
}

#[test]
fn bulk_ingest_then_query_ranks_matching_record_first() {
    let mut s = Store::new(DIM);
    let batch = vec![
        rec("Great phone", "Battery lasts long", "P001", 5),
        rec("Dim phone", "No signal", "P002", 2),
    ];
    let ordinals = s.ingest_many(&batch);
    assert_eq!(ordinals, vec![0, 1]);
    assert_eq!(s.count(), 2);
    let out = s.query_by_text(&b"battery".to_vec(), 1);
    assert_eq!(out.len(), 1);
    assert_eq!(out[0].product_id, b"P001".to_vec());
}

#[test]
fn query_returns_records_in_ranking_order_not_storage_order() {
    let mut s = Store::new(DIM);
    s.ingest_one(&rec("Dim flip", "No mic", "P001", 2));
    s.ingest_one(&rec("Great phone", "Battery lasts long", "P002", 5));
    let out = s.query_by_text(&b"battery".to_vec(), 2);
    assert_eq!(out.len(), 2);
    assert_eq!(out[0].product_id, b"P002".to_vec());
    assert_eq!(out[1].product_id, b"P001".to_vec());
}

#[test]
fn repeated_query_returns_identical_results() {
    let mut s = Store::new(DIM);
    s.ingest_many(&vec![
        rec("Great phone", "Battery lasts long", "P001", 5),
        rec("Dim phone", "No signal", "P002", 2),
        rec("Loud speaker", "Crisp sound", "P003", 4),
    ]);
    let first = s.query_by_text(&b"sound".to_vec(), 3);
    let second = s.query_by_text(&b"sound".to_vec(), 3);
    assert_eq!(first, second);
}

#[test]
fn counts_stay_equal_and_nondecreasing_across_ingests() {
    let mut s = Store::new(DIM);
    let mut previous = 0;
    for i in 0..5u8 {
        s.ingest_one(&rec("Title", "Body", "P00X", 1 + (i % 5)));
        let n = s.count();
        assert!(n >= previous);
        assert_eq!(n, previous + 1);
        assert_eq!(s.vectors.count(), s.metadata.count());
        previous = n;
    }
}

#[test]
fn empty_store_query_returns_empty_not_error() {
    let s = Store::new(DIM);
    let out = s.query_by_text(&b"anything".to_vec(), 5);
    assert_eq!(out.len(), 0);
    let ords = s.search(&vec![0u32; DIM], 5).unwrap();
    assert_eq!(ords.len(), 0);
}

#[test]
fn k_larger_than_count_returns_exactly_count_results() {
    let mut s = Store::new(DIM);
    s.ingest_many(&vec![
        rec("One", "first", "P001", 1),
        rec("Two", "second", "P002", 2),
        rec("Three", "third", "P003", 3),
    ]);
    let out = s.query_by_text(&b"second".to_vec(), 10);
    assert_eq!(out.len(), 3);
    let ords = s.search(&vec![1u32; DIM], 10).unwrap();
    assert_eq!(ords.len(), 3);
}

#[test]
fn zero_k_returns_nothing() {
    let mut s = Store::new(DIM);
    s.ingest_one(&rec("One", "first", "P001", 1));
    let out = s.query_by_text(&b"first".to_vec(), 0);
    assert_eq!(out.len(), 0);
}

#[test]
fn wrong_dimension_query_is_rejected_loudly() {
    let mut s = Store::new(DIM);
    s.ingest_one(&rec("One", "first", "P001", 1));
    let out = s.search(&vec![0u32; DIM - 1], 1);
    assert_eq!(out, Err(StoreError::DimensionMismatch));
    let out = s.search(&vec![0u32; DIM + 1], 1);
    assert_eq!(out, Err(StoreError::DimensionMismatch));
}

#[test]
fn equal_distances_break_ties_by_lower_ordinal() {
    let mut s = Store::new(DIM);
    // identical text at two ordinals: identical embeddings, so the
    // earlier ordinal must be ranked first
    s.ingest_one(&rec("Same", "text", "P001", 3));
    s.ingest_one(&rec("Same", "text", "P002", 3));
    let out = s.query_by_text(&b"Same text".to_vec(), 2);
    assert_eq!(out.len(), 2);
    assert_eq!(out[0].product_id, b"P001".to_vec());
    assert_eq!(out[1].product_id, b"P002".to_vec());
}
