use dbsp::codec::{decode_pv, encode_op, encode_pv};
use dbsp::merge::{apply_merge_op, merge_times, merge_values, recede_times, recede_values};
use dbsp::policy::{check_merge_inputs, DbspSplinterFuncs, Message, MessageType};
use dbsp::record::{check_list, compare_bytes, MergeOp, PersistedValue};
use std::cmp::Ordering;

fn v(s: &str) -> Vec<u8> {
    s.as_bytes().to_vec()
}

#[test]
fn merge_times_adds_and_drops_zero() {
    let a = vec![(0u64, 1i64), (2, 5), (4, 1)];
    let b = vec![(1u64, 3i64), (2, -5), (4, 1)];
    assert_eq!(merge_times(&a, &b), vec![(0, 1), (1, 3), (4, 2)]);
}

#[test]
fn merge_times_wraps_weights() {
    assert_eq!(merge_times(&vec![(0, i64::MAX)], &vec![(0, 1)]), vec![(0, i64::MIN)]);
}

#[test]
fn merge_values_inserts_in_order_and_drops_empty_values() {
    let old = vec![(v("a"), vec![(0u64, 1i64)]), (v("c"), vec![(1, 2)])];
    let new = vec![(v("a"), vec![(0u64, -1i64)]), (v("b"), vec![(3, 4)])];
    let merged = merge_values(&old, &new);
    assert_eq!(merged, vec![(v("b"), vec![(3, 4)]), (v("c"), vec![(1, 2)])]);
    assert!(check_list(&merged));
}

#[test]
fn recede_collapses_later_times() {
    let ts = vec![(1u64, 1i64), (3, 2), (5, 4), (7, -1)];
    assert_eq!(recede_times(&ts, 4), vec![(1, 1), (3, 2), (4, 3)]);
    assert_eq!(recede_times(&ts, 0), vec![(0, 6)]);
    assert_eq!(recede_times(&vec![(5u64, 1i64), (6, -1)], 2), vec![]);
}

#[test]
fn recede_values_drops_cancelled_values() {
    let l = vec![(v("a"), vec![(5u64, 1i64), (6, -1)]), (v("b"), vec![(1, 1), (9, 1)])];
    assert_eq!(recede_values(&l, 2), vec![(v("b"), vec![(1, 1), (2, 1)])]);
}

#[test]
fn recede_twice_is_recede_once() {
    let pv = PersistedValue::Values(vec![(v("a"), vec![(1u64, 1i64), (3, 2), (8, 3)])]);
    let op = MergeOp::RecedeTo(3);
    let once = apply_merge_op(&pv, &op);
    let twice = apply_merge_op(&once, &op);
    assert_eq!(once, PersistedValue::Values(vec![(v("a"), vec![(1, 1), (3, 5)])]));
    assert_eq!(twice, once);
}

#[test]
fn inserts_merge_in_any_order_and_grouping() {
    let a = MergeOp::Insert(vec![(v("x"), vec![(0u64, 1i64)]), (v("y"), vec![(1, 2)])]);
    let b = MergeOp::Insert(vec![(v("x"), vec![(0u64, 4i64), (2, 1)])]);
    let c = MergeOp::Insert(vec![(v("y"), vec![(1u64, -2i64)])]);
    let start = PersistedValue::Tombstone;
    let abc = apply_merge_op(&apply_merge_op(&apply_merge_op(&start, &a), &b), &c);
    let cba = apply_merge_op(&apply_merge_op(&apply_merge_op(&start, &c), &b), &a);
    let grouped = apply_merge_op(
        &start,
        &MergeOp::Insert(merge_values(
            &merge_values(
                &vec![(v("x"), vec![(0u64, 1i64)]), (v("y"), vec![(1, 2)])],
                &vec![(v("x"), vec![(0u64, 4i64), (2, 1)])],
            ),
            &vec![(v("y"), vec![(1u64, -2i64)])],
        )),
    );
    let expected = PersistedValue::Values(vec![(v("x"), vec![(0, 5), (2, 1)])]);
    assert_eq!(abc, expected);
    assert_eq!(cba, expected);
    assert_eq!(grouped, expected);
}

#[test]
fn insert_that_cancels_everything_leaves_tombstone() {
    let pv = PersistedValue::Values(vec![(v("a"), vec![(0u64, 1i64)])]);
    let op = MergeOp::Insert(vec![(v("a"), vec![(0u64, -1i64)])]);
    assert_eq!(apply_merge_op(&pv, &op), PersistedValue::Tombstone);
}

#[test]
fn compare_bytes_is_lexicographic() {
    assert!(compare_bytes(&v("a"), &v("b")) < 0);
    assert!(compare_bytes(&v("ab"), &v("a")) > 0);
    assert_eq!(compare_bytes(&v("abc"), &v("abc")), 0);
    assert!(compare_bytes(&v(""), &v("a")) < 0);
}

#[test]
fn key_comp_orders_decoded_keys() {
    let k1 = 1u64.to_be_bytes().to_vec();
    let k2 = 256u64.to_be_bytes().to_vec();
    assert_eq!(DbspSplinterFuncs::key_comp(&k1, &k2), Ordering::Less);
    assert_eq!(DbspSplinterFuncs::key_comp(&k2, &k1), Ordering::Greater);
    assert_eq!(DbspSplinterFuncs::key_comp(&k2, &k2), Ordering::Equal);
}

#[test]
fn policy_merge_combines_records_into_an_update() {
    let key = 1u64.to_be_bytes().to_vec();
    let old = Message {
        msg_type: MessageType::Insert,
        data: encode_pv(&PersistedValue::Values(vec![(v("a"), vec![(0u64, 1i64)])])),
    };
    let new = Message {
        msg_type: MessageType::Update,
        data: encode_op(&MergeOp::Insert(vec![(v("a"), vec![(0u64, 2i64)]), (v("b"), vec![(1, 1)])])),
    };
    assert!(check_merge_inputs(&old.data, &new.data));
    let merged = DbspSplinterFuncs::merge(&key, &old, &new);
    assert_eq!(merged.msg_type, MessageType::Update);
    let (pv, _) = decode_pv(&merged.data).unwrap();
    assert_eq!(pv, PersistedValue::Values(vec![(v("a"), vec![(0, 3)]), (v("b"), vec![(1, 1)])]));
}

#[test]
fn corrupt_records_are_detected_before_merging() {
    let good = encode_pv(&PersistedValue::Tombstone);
    let bad = vec![0, 0, 0, 7];
    let unsorted = encode_op(&MergeOp::Insert(vec![(v("b"), vec![(0u64, 1i64)]), (v("a"), vec![(0, 1)])]));
    let zero = encode_op(&MergeOp::Insert(vec![(v("a"), vec![(0u64, 0i64)])]));
    let op = encode_op(&MergeOp::RecedeTo(1));
    assert!(!check_merge_inputs(&bad, &op));
    assert!(!check_merge_inputs(&good, &bad));
    assert!(!check_merge_inputs(&good, &unsorted));
    assert!(!check_merge_inputs(&good, &zero));
    assert!(check_merge_inputs(&good, &op));
}

#[test]
fn policy_merge_final_deletes_records_without_weight() {
    let key = 1u64.to_be_bytes().to_vec();
    let tomb = Message { msg_type: MessageType::Update, data: encode_pv(&PersistedValue::Tombstone) };
    assert_eq!(DbspSplinterFuncs::merge_final(&key, &tomb).msg_type, MessageType::Delete);
    let zeros = Message {
        msg_type: MessageType::Update,
        data: encode_pv(&PersistedValue::Values(vec![(v("a"), vec![(0u64, 0i64)])])),
    };
    assert_eq!(DbspSplinterFuncs::merge_final(&key, &zeros).msg_type, MessageType::Delete);
    let empty = Message { msg_type: MessageType::Update, data: encode_pv(&PersistedValue::Values(vec![])) };
    assert_eq!(DbspSplinterFuncs::merge_final(&key, &empty).msg_type, MessageType::Delete);
    let live = Message {
        msg_type: MessageType::Update,
        data: encode_pv(&PersistedValue::Values(vec![(v("a"), vec![(0u64, 1i64)])])),
    };
    let kept = DbspSplinterFuncs::merge_final(&key, &live);
    assert_eq!(kept.msg_type, MessageType::Insert);
    assert_eq!(kept.data, live.data);
}
