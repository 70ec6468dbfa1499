use dbsp::codec::{decode_key, decode_op, decode_pv, encode_key, encode_op, encode_pv, get_bytes, put_bytes, put_u64};
use dbsp::record::{MergeOp, PersistedValue};

fn sample_values() -> Vec<(Vec<u8>, Vec<(u64, i64)>)> {
    vec![
        (b"a".to_vec(), vec![(0, 1), (5, -3)]),
        (b"bc".to_vec(), vec![(2, i64::MIN), (u64::MAX, i64::MAX)]),
    ]
}

#[test]
fn key_encoding_is_big_endian() {
    assert_eq!(encode_key(0x0102030405060708), vec![1, 2, 3, 4, 5, 6, 7, 8]);
    assert_eq!(decode_key(&vec![1, 2, 3, 4, 5, 6, 7, 8]), Some(0x0102030405060708));
    assert!(encode_key(1) < encode_key(256));
}

#[test]
fn key_decoding_rejects_short_input() {
    assert_eq!(decode_key(&vec![1, 2, 3]), None);
}

#[test]
fn key_round_trip() {
    for k in [0u64, 1, 255, 256, u64::MAX] {
        assert_eq!(decode_key(&encode_key(k)), Some(k));
    }
}

#[test]
fn bytes_are_length_prefixed() {
    let mut out = Vec::new();
    put_bytes(&mut out, &b"xy".to_vec());
    assert_eq!(out, vec![0, 0, 0, 0, 0, 0, 0, 2, b'x', b'y']);
    assert_eq!(get_bytes(&out, 0), Some((b"xy".to_vec(), 10)));
    let mut n = Vec::new();
    put_u64(&mut n, 5);
    assert_eq!(get_bytes(&n, 0), None);
}

#[test]
fn persisted_value_round_trip() {
    let pv = PersistedValue::Values(sample_values());
    let bytes = encode_pv(&pv);
    assert_eq!(decode_pv(&bytes), Some((pv, bytes.len())));
    let t = PersistedValue::Tombstone;
    let tb = encode_pv(&t);
    assert_eq!(tb, vec![0, 0, 0, 1]);
    assert_eq!(decode_pv(&tb), Some((t, 4)));
}

#[test]
fn merge_op_round_trip() {
    let ins = MergeOp::Insert(sample_values());
    let bytes = encode_op(&ins);
    assert_eq!(decode_op(&bytes), Some((ins, bytes.len())));
    let rec = MergeOp::RecedeTo(9);
    let rb = encode_op(&rec);
    assert_eq!(rb, vec![0, 0, 0, 1, 0, 0, 0, 0, 0, 0, 0, 9]);
    assert_eq!(decode_op(&rb), Some((rec, 12)));
}

#[test]
fn decoding_stops_at_trailing_bytes() {
    let pv = PersistedValue::Values(sample_values());
    let mut bytes = encode_pv(&pv);
    let len = bytes.len();
    bytes.extend_from_slice(&[9, 9, 9]);
    assert_eq!(decode_pv(&bytes), Some((pv, len)));
}

#[test]
fn decoding_rejects_truncated_and_unknown_records() {
    let bytes = encode_pv(&PersistedValue::Values(sample_values()));
    assert_eq!(decode_pv(&bytes[..bytes.len() - 1].to_vec()), None);
    assert_eq!(decode_pv(&vec![0, 0, 0, 2]), None);
    assert_eq!(decode_pv(&vec![0, 0]), None);
    assert_eq!(decode_op(&vec![0, 0, 0, 1, 0, 0]), None);
}
