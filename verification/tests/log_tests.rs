use review_index::encoder::embed;
use review_index::error::StoreError;
use review_index::metadata_log::MetadataLog;
use review_index::record::Record;
use review_index::similarity::{dist, search};
use review_index::store::Store;
use review_index::vector_log::{entry_bytes, VectorLog};

fn rec(title: &str, body: &str, product_id: &str, rating: u8) -> Record {
    Record {
        title: title.as_bytes().to_vec(),
        body: body.as_bytes().to_vec(),
        product_id: product_id.as_bytes().to_vec(),
        rating,
    }
}

#[test]
fn embedding_is_deterministic_fixed_width_presence_vector() {
    // 'A' is 65, lane 65 % 4 == 1; 'B' is 66, lane 2
    assert_eq!(embed(&b"AB".to_vec(), 4), vec![0, 1, 1, 0]);
    assert_eq!(embed(&b"".to_vec(), 4), vec![0, 0, 0, 0]);
    assert_eq!(embed(&b"AAAA".to_vec(), 4), vec![0, 1, 0, 0]);
    let once = embed(&b"same text".to_vec(), 256);
    let twice = embed(&b"same text".to_vec(), 256);
    assert_eq!(once.len(), 256);
    assert_eq!(once, twice);
}

#[test]
fn distance_is_the_sum_of_lane_differences() {
    assert_eq!(dist(&vec![0, 3], &vec![5, 1]), 7);
    assert_eq!(dist(&Vec::<u32>::new(), &Vec::<u32>::new()), 0);
    assert_eq!(dist(&vec![u32::MAX, 0], &vec![0, u32::MAX]), 2 * (u32::MAX as u64));
}

#[test]
fn search_ranks_by_distance_then_ordinal() {
    let entries = vec![vec![0u32], vec![5], vec![3]];
    let query = vec![4u32];
    // distances: 4, 1, 1 — ordinal 1 and 2 tie at the front, 1 wins
    assert_eq!(search(&query, &entries, 2), vec![1, 2]);
    assert_eq!(search(&query, &entries, 10), vec![1, 2, 0]);
    assert_eq!(search(&query, &entries, 0), Vec::<usize>::new());
}

#[test]
fn vector_log_serializes_fixed_width_little_endian() {
    let mut log = VectorLog::new(2);
    assert_eq!(log.append(vec![1, 2]), 0);
    assert_eq!(log.append(vec![0x0102_0304, 5]), 1);
    let bytes = log.to_bytes();
    assert_eq!(
        bytes,
        vec![1, 0, 0, 0, 2, 0, 0, 0, 4, 3, 2, 1, 5, 0, 0, 0],
    );
    let back = VectorLog::from_bytes(2, &bytes).expect("whole entries must recover");
    assert_eq!(back.count(), 2);
    assert_eq!(back.get(0), &vec![1, 2]);
    assert_eq!(back.get(1), &vec![0x0102_0304, 5]);
}

#[test]
fn partial_vector_log_writes_are_detected_at_recovery() {
    assert!(matches!(VectorLog::from_bytes(2, &vec![0u8; 7]), Err(StoreError::TruncatedEntry)));
    assert!(matches!(VectorLog::from_bytes(2, &vec![0u8; 12]), Err(StoreError::TruncatedEntry)));
    assert!(VectorLog::from_bytes(2, &vec![0u8; 0]).is_ok());
    assert!(VectorLog::from_bytes(2, &vec![0u8; 16]).is_ok());
}

#[test]
fn metadata_log_serializes_one_line_per_record() {
    let mut log = MetadataLog::new();
    log.append(&rec("Great phone", "Battery lasts long", "P001", 5));
    assert_eq!(log.to_bytes(), b"Great phone\tBattery lasts long\tP001\t5\n".to_vec());
    log.append(&rec("a\tb", "c", "P002", 1));
    let bytes = log.to_bytes();
    let back = MetadataLog::from_bytes(&bytes);
    assert_eq!(back.count(), 2);
    assert_eq!(back.record_at(0).unwrap(), rec("Great phone", "Battery lasts long", "P001", 5));
    assert_eq!(back.record_at(1).unwrap(), rec("a\tb", "c", "P002", 1));
}

#[test]
fn metadata_recovery_keeps_a_trailing_partial_line() {
    let back = MetadataLog::from_bytes(&b"t\tb\tp\t3\npartial".to_vec());
    assert_eq!(back.count(), 2);
    assert!(back.record_at(0).is_ok());
    assert!(back.record_at(1).is_err());
    assert_eq!(MetadataLog::from_bytes(&b"".to_vec()).count(), 0);
}

#[test]
fn read_all_reports_each_line_parse_outcome() {
    let mut log = MetadataLog::new();
    log.append(&rec("One", "first", "P001", 1));
    log.append_raw_line(b"corrupted junk".to_vec());
    log.append(&rec("Three", "third", "P003", 3));
    let outcomes = log.read_all();
    assert_eq!(outcomes.len(), 3);
    assert_eq!(outcomes[0].0, 0);
    assert!(outcomes[0].1.is_ok());
    assert!(outcomes[1].1.is_err());
    assert_eq!(outcomes[2].1.as_ref().unwrap().product_id, b"P003".to_vec());
}

#[test]
fn read_by_ordinals_resolves_sparse_selections() {
    let mut log = MetadataLog::new();
    log.append(&rec("One", "first", "P001", 1));
    log.append(&rec("Two", "second", "P002", 2));
    let out = log.read_by_ordinals(&vec![1, 0, 7]);
    assert_eq!(out.len(), 3);
    assert_eq!(out[0].as_ref().unwrap().product_id, b"P002".to_vec());
    assert_eq!(out[1].as_ref().unwrap().product_id, b"P001".to_vec());
    assert!(out[2].is_none());
}

const DIM: usize = 256;

#[test]
fn corrupt_metadata_line_shortens_query_results_without_error() {
    let texts = [
        "Great phone Battery lasts long",
        "Dim phone No signal",
        "Loud speaker Crisp sound",
    ];
    let mut vectors = VectorLog::new(DIM);
    for t in texts.iter() {
        vectors.append(embed(&t.as_bytes().to_vec(), DIM));
    }
    let mut metadata = MetadataLog::new();
    metadata.append(&rec("Great phone", "Battery lasts long", "P001", 5));
    metadata.append_raw_line(b"corrupted junk at ordinal 1".to_vec());
    metadata.append(&rec("Loud speaker", "Crisp sound", "P003", 4));
    let s = Store::from_parts(DIM, vectors, metadata).expect("counts agree");
    assert_eq!(s.count(), 3);
    let out = s.query_by_text(&b"battery".to_vec(), 3);
    assert_eq!(out.len(), 2);
    for r in &out {
        assert_ne!(r.product_id, b"P002".to_vec());
    }
}

#[test]
fn recovered_logs_with_diverged_counts_are_rejected() {
    let mut vectors = VectorLog::new(DIM);
    vectors.append(embed(&b"one".to_vec(), DIM));
    let metadata = MetadataLog::new();
    match Store::from_parts(DIM, vectors, metadata) {
        Err(StoreError::LogCountMismatch) => {},
        other => panic!("expected a count mismatch, got {:?}", other.map(|_| ())),
    }
}

#[test]
fn two_guarded_ingests_append_disjoint_whole_entries() {
    // writers are mutually exclusive: each caller takes the lock for the
    // whole dual append, as the durable layer does
    let store = std::sync::Mutex::new(Store::new(4));
    let r1 = rec("Great phone", "Battery lasts long", "P001", 5);
    let r2 = rec("Dim phone", "No signal", "P002", 2);
    {
        let mut guard = store.lock().unwrap();
        assert_eq!(guard.ingest_one(&r1), 0);
    }
    {
        let mut guard = store.lock().unwrap();
        assert_eq!(guard.ingest_one(&r2), 1);
    }
    let s = store.into_inner().unwrap();
    assert_eq!(s.count(), 2);
    let bytes = s.vectors.to_bytes();
    let e1 = entry_bytes(s.vectors.get(0));
    let e2 = entry_bytes(s.vectors.get(1));
    assert_eq!(e1.len(), 4 * 4);
    assert_eq!(e2.len(), 4 * 4);
    assert_eq!(bytes.len(), e1.len() + e2.len());
    assert_eq!(&bytes[..e1.len()], &e1[..]);
    assert_eq!(&bytes[e1.len()..], &e2[..]);
    assert_eq!(e1, entry_bytes(&embed(&b"Great phone Battery lasts long".to_vec(), 4)));
    assert_eq!(e2, entry_bytes(&embed(&b"Dim phone No signal".to_vec(), 4)));
}
