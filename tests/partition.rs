use dbsp::codec::{encode_pv, ReusableEncodeBuffer};
use dbsp::partition::{CapacityError, Partition, StoreConfig};
use dbsp::record::{MergeOp, PersistedValue};

fn insert(v: &str, t: u64, w: i64) -> MergeOp {
    MergeOp::Insert(vec![(v.as_bytes().to_vec(), vec![(t, w)])])
}

#[test]
fn partition_keeps_records_in_key_order() {
    let mut part = Partition::new(StoreConfig::standard());
    part.write(5, &insert("a", 0, 1)).unwrap();
    part.write(2, &insert("b", 1, 1)).unwrap();
    part.write(5, &insert("a", 0, 2)).unwrap();
    let keys: Vec<u64> = part.records().iter().map(|r| r.0).collect();
    assert_eq!(keys, vec![2, 5]);
    assert_eq!(part.records()[1].1, PersistedValue::Values(vec![(b"a".to_vec(), vec![(0, 3)])]));
}

#[test]
fn compaction_removes_tombstones_only() {
    let mut part = Partition::new(StoreConfig::standard());
    part.write(1, &insert("a", 0, 1)).unwrap();
    part.write(2, &insert("b", 0, 1)).unwrap();
    part.write(1, &insert("a", 0, -1)).unwrap();
    assert_eq!(part.records().len(), 2);
    assert_eq!(part.records()[0].1, PersistedValue::Tombstone);
    part.compact();
    assert_eq!(part.records().len(), 1);
    assert_eq!(part.records()[0].0, 2);
}

#[test]
fn partition_recedes_every_key() {
    let mut part = Partition::new(StoreConfig::standard());
    part.write(1, &insert("a", 5, 1)).unwrap();
    part.write(2, &insert("b", 1, 1)).unwrap();
    part.write(2, &insert("b", 9, 2)).unwrap();
    part.recede_all(3);
    assert_eq!(part.records()[0].1, PersistedValue::Values(vec![(b"a".to_vec(), vec![(3, 1)])]));
    assert_eq!(part.records()[1].1, PersistedValue::Values(vec![(b"b".to_vec(), vec![(1, 1), (3, 2)])]));
}

#[test]
fn encode_buffer_is_reused() {
    let mut buf = ReusableEncodeBuffer::with_capacity(16);
    assert!(buf.bytes().is_empty());
    buf.encode_key(7);
    assert_eq!(buf.bytes(), &vec![0, 0, 0, 0, 0, 0, 0, 7]);
    let pv = PersistedValue::Values(vec![(b"z".to_vec(), vec![(1, 1)])]);
    buf.encode_pv(&pv);
    assert_eq!(buf.bytes(), &encode_pv(&pv));
    buf.encode_op(&MergeOp::RecedeTo(2));
    assert_eq!(buf.into_bytes(), vec![0, 0, 0, 1, 0, 0, 0, 0, 0, 0, 0, 2]);
}

#[test]
fn partition_refuses_oversized_records() {
    let mut part = Partition::new(StoreConfig::standard());
    let big = MergeOp::Insert(vec![(vec![0u8; 600], vec![(0, 1)])]);
    assert_eq!(part.write(1, &big), Err(CapacityError::ValueTooLarge));
    assert!(part.records().is_empty());
}
