use dbsp::partition::{CapacityError, StoreConfig};
use dbsp::trace::{Batch, PersistentTrace};

fn batch(updates: Vec<(u64, &str, u64, i64)>) -> Batch {
    Batch {
        lower: vec![0],
        upper: vec![1],
        updates: updates.into_iter().map(|(k, v, t, w)| (k, v.as_bytes().to_vec(), t, w)).collect(),
    }
}

fn keys_forward(trace: &PersistentTrace) -> Vec<u64> {
    let mut cursor = trace.cursor();
    let mut keys = Vec::new();
    while cursor.key_valid() {
        keys.push(cursor.key());
        cursor.step_key();
    }
    keys
}

#[test]
fn new_trace_is_empty() {
    let trace = PersistentTrace::new();
    assert_eq!(trace.lower(), &vec![0]);
    assert!(trace.upper().is_empty());
    assert!(!trace.dirty());
    assert_eq!(trace.len(), 0);
    assert_eq!(trace.key_count(), 0);
    assert!(!trace.cursor().key_valid());
    assert!(trace.consolidate().unwrap().updates.is_empty());
}

#[test]
fn consolidate_drops_cancelled_weights() {
    let mut trace = PersistentTrace::new();
    trace.insert(batch(vec![(1, "a", 0, 1)])).unwrap();
    trace.insert(batch(vec![(1, "a", 0, -1)])).unwrap();
    let out = trace.consolidate().unwrap();
    assert!(out.updates.is_empty());
}

#[test]
fn consolidate_sums_over_times() {
    let mut trace = PersistentTrace::new();
    trace.insert(batch(vec![(2, "b", 0, 1), (2, "b", 3, 4), (1, "a", 5, 2)])).unwrap();
    let out = trace.consolidate().unwrap();
    assert_eq!(out.updates, vec![(1, b"a".to_vec(), 0, 2), (2, b"b".to_vec(), 0, 5)]);
    assert_eq!(out.lower, vec![0]);
}

#[test]
fn cursor_visits_keys_in_order_both_ways() {
    let mut trace = PersistentTrace::new();
    trace.insert(batch(vec![(3, "c", 0, 1), (1, "a", 0, 1), (2, "b", 0, 1)])).unwrap();
    assert_eq!(keys_forward(&trace), vec![1, 2, 3]);
    let mut cursor = trace.cursor();
    cursor.fast_forward_keys();
    let mut keys = Vec::new();
    while cursor.key_valid() {
        keys.push(cursor.key());
        cursor.step_key_reverse();
    }
    assert_eq!(keys, vec![3, 2, 1]);
}

#[test]
fn one_group_per_key_and_value() {
    let mut trace = PersistentTrace::new();
    trace.insert(batch(vec![(1, "x", 0, 1)])).unwrap();
    trace.insert(batch(vec![(1, "x", 1, 2)])).unwrap();
    let mut cursor = trace.cursor();
    assert!(cursor.key_valid() && cursor.val_valid());
    assert_eq!(cursor.key(), 1);
    assert_eq!(cursor.val(), &b"x".to_vec());
    let pairs = cursor.fold_times(Vec::new(), |mut acc: Vec<(u64, i64)>, t, w| {
        acc.push((t, w));
        acc
    });
    assert_eq!(pairs, vec![(0, 1), (1, 2)]);
    assert_eq!(cursor.fold_times(0i64, |acc, _t, w| acc + w), 3);
    assert_eq!(cursor.fold_times_through(0, 0i64, |acc, _t, w| acc + w), 1);
    assert_eq!(cursor.total_weight(), 3);
    assert_eq!(cursor.weight(), 1);
    cursor.step_val();
    assert!(!cursor.val_valid());
    assert!(cursor.key_valid());
    assert_eq!(cursor.fold_times(7i64, |acc, _t, w| acc + w), 7);
    cursor.step_key();
    assert!(!cursor.key_valid());
}

#[test]
fn truncated_keys_stay_hidden() {
    let mut trace = PersistentTrace::new();
    trace.insert(batch(vec![(1, "a", 0, 1), (2, "b", 0, 1), (3, "c", 0, 1)])).unwrap();
    trace.truncate_keys_below(2);
    assert_eq!(trace.key_count(), 3);
    assert_eq!(keys_forward(&trace), vec![2, 3]);
    let mut cursor = trace.cursor();
    cursor.fast_forward_keys();
    cursor.step_key_reverse();
    assert_eq!(cursor.key(), 2);
    cursor.step_key_reverse();
    assert!(!cursor.key_valid());
    trace.truncate_keys_below(1);
    assert_eq!(trace.lower_key_bound(), Some(2));
    assert_eq!(keys_forward(&trace), vec![2, 3]);
}

#[test]
fn value_bound_only_rises() {
    let mut trace = PersistentTrace::new();
    assert_eq!(trace.lower_value_bound(), &None);
    trace.truncate_values_below(&b"m".to_vec());
    trace.truncate_values_below(&b"c".to_vec());
    assert_eq!(trace.lower_value_bound(), &Some(b"m".to_vec()));
    trace.truncate_values_below(&b"z".to_vec());
    assert_eq!(trace.lower_value_bound(), &Some(b"z".to_vec()));
}

#[test]
fn insert_updates_frontiers_and_length() {
    let mut trace = PersistentTrace::new();
    trace.insert(Batch { lower: vec![3], upper: vec![5], updates: vec![(1, b"a".to_vec(), 3, 1)] }).unwrap();
    assert!(trace.dirty());
    assert_eq!(trace.lower(), &vec![0]);
    assert!(trace.upper().is_empty());
    assert_eq!(trace.len(), 1);
    trace.clear_dirty_flag();
    assert!(!trace.dirty());
    trace.insert(Batch { lower: vec![5], upper: vec![6], updates: vec![] }).unwrap();
    assert!(!trace.dirty());
    assert_eq!(trace.len(), 1);
}

#[test]
fn recede_to_collapses_history() {
    let mut trace = PersistentTrace::new();
    trace.insert(batch(vec![(1, "a", 1, 1), (1, "a", 4, 2), (1, "a", 9, 3), (2, "b", 7, 1), (2, "b", 8, -1)])).unwrap();
    trace.recede_to(4);
    let mut cursor = trace.cursor();
    let pairs = cursor.fold_times(Vec::new(), |mut acc: Vec<(u64, i64)>, t, w| {
        acc.push((t, w));
        acc
    });
    assert_eq!(pairs, vec![(1, 1), (4, 5)]);
    cursor.step_key();
    assert!(!cursor.key_valid());
    trace.recede_to(4);
    let out = trace.consolidate().unwrap();
    assert_eq!(out.updates, vec![(1, b"a".to_vec(), 0, 6)]);
}

#[test]
fn exert_changes_nothing() {
    let mut trace = PersistentTrace::new();
    trace.insert(batch(vec![(1, "a", 0, 1)])).unwrap();
    let mut effort: isize = 10;
    trace.exert(&mut effort);
    assert_eq!(effort, 10);
    assert_eq!(keys_forward(&trace), vec![1]);
}

#[test]
fn cursor_steps_and_seeks_values() {
    let mut trace = PersistentTrace::new();
    trace.insert(batch(vec![(1, "a", 0, 1), (1, "c", 0, 1), (1, "e", 0, 1), (2, "b", 0, 1), (4, "d", 0, 1)])).unwrap();
    let mut cursor = trace.cursor();
    cursor.seek_val(&b"b".to_vec());
    assert_eq!(cursor.val(), &b"c".to_vec());
    cursor.step_val();
    assert_eq!(cursor.val(), &b"e".to_vec());
    cursor.step_val_reverse();
    assert_eq!(cursor.val(), &b"c".to_vec());
    cursor.fast_forward_vals();
    assert_eq!(cursor.val(), &b"e".to_vec());
    cursor.seek_val_reverse(&b"b".to_vec());
    assert_eq!(cursor.val(), &b"a".to_vec());
    cursor.step_val_reverse();
    assert!(!cursor.val_valid());
    assert_eq!(cursor.key(), 1);
    cursor.rewind_vals();
    assert_eq!(cursor.val(), &b"a".to_vec());
    cursor.seek_val(&b"f".to_vec());
    assert!(!cursor.val_valid());
    assert_eq!(cursor.key(), 1);
}

#[test]
fn cursor_seeks_keys() {
    let mut trace = PersistentTrace::new();
    trace.insert(batch(vec![(1, "a", 0, 1), (1, "c", 0, 1), (3, "b", 0, 1), (5, "d", 0, 1), (5, "e", 0, 1)])).unwrap();
    let mut cursor = trace.cursor();
    cursor.seek_key(2);
    assert_eq!(cursor.key(), 3);
    cursor.seek_key(1);
    assert_eq!(cursor.key(), 3);
    cursor.seek_key(5);
    assert_eq!(cursor.key(), 5);
    assert_eq!(cursor.val(), &b"d".to_vec());
    cursor.seek_key_reverse(4);
    assert_eq!(cursor.key(), 3);
    cursor.seek_key_reverse(2);
    assert_eq!(cursor.key(), 1);
    assert_eq!(cursor.val(), &b"a".to_vec());
    cursor.seek_key_reverse(0);
    assert!(!cursor.key_valid());
    cursor.rewind_keys();
    assert_eq!(cursor.key(), 1);
    cursor.seek_key(6);
    assert!(!cursor.key_valid());
    assert!(!cursor.val_valid());
}

#[test]
fn consumer_hands_out_keys_and_updates() {
    let mut trace = PersistentTrace::new();
    trace.insert(batch(vec![(2, "b", 1, 3), (1, "a", 0, 1), (1, "a", 2, 2), (1, "c", 0, -1), (4, "d", 0, 1)])).unwrap();
    let mut consumer = trace.consumer();
    assert!(consumer.key_valid());
    assert_eq!(consumer.peek_key(), 1);
    let (k, mut vals) = consumer.next_key();
    assert_eq!(k, 1);
    assert_eq!(vals.remaining_values(), 3);
    assert_eq!(vals.next_value(), (b"a".to_vec(), 1, 0));
    assert_eq!(vals.next_value(), (b"a".to_vec(), 2, 2));
    assert_eq!(vals.next_value(), (b"c".to_vec(), -1, 0));
    assert!(!vals.value_valid());
    consumer.seek_key(3);
    assert_eq!(consumer.peek_key(), 4);
    let (k, vals) = consumer.next_key();
    assert_eq!(k, 4);
    assert_eq!(vals.remaining_values(), 1);
    assert!(!consumer.key_valid());
}

#[test]
fn cursor_seeks_by_predicate() {
    let mut trace = PersistentTrace::new();
    trace.insert(batch(vec![(1, "a", 0, 1), (2, "b", 0, 1), (2, "d", 0, 1), (4, "c", 0, 1), (6, "e", 0, 1)])).unwrap();
    let mut cursor = trace.cursor();
    cursor.seek_key_with(|k| k % 2 == 0);
    assert_eq!(cursor.key(), 2);
    cursor.seek_val_with(|v: &Vec<u8>| v.as_slice() >= b"c".as_slice());
    assert_eq!(cursor.val(), &b"d".to_vec());
    cursor.seek_val_with_reverse(|v: &Vec<u8>| v.as_slice() <= b"b".as_slice());
    assert_eq!(cursor.val(), &b"b".to_vec());
    cursor.seek_val_with(|v: &Vec<u8>| v.as_slice() > b"x".as_slice());
    assert!(!cursor.val_valid());
    cursor.seek_key_with(|k| k > 4);
    assert_eq!(cursor.key(), 6);
    cursor.seek_key_with_reverse(|k| k < 3);
    assert_eq!(cursor.key(), 2);
    assert_eq!(cursor.val(), &b"b".to_vec());
    cursor.seek_key_with_reverse(|k| k > 100);
    assert!(!cursor.key_valid());
    cursor.rewind_keys();
    cursor.seek_key_with(|k| k > 100);
    assert!(!cursor.key_valid());
}

#[test]
fn oversized_value_is_refused_and_earlier_updates_stay() {
    let mut trace = PersistentTrace::new();
    let big = "v".repeat(500);
    let result = trace.insert(Batch {
        lower: vec![0],
        upper: vec![1],
        updates: vec![(1, b"a".to_vec(), 0, 1), (2, big.into_bytes(), 0, 1), (3, b"c".to_vec(), 0, 1)],
    });
    assert_eq!(result, Err(CapacityError::ValueTooLarge));
    assert_eq!(keys_forward(&trace), vec![1]);
}

#[test]
fn oversized_key_is_refused() {
    let config = StoreConfig { cache_size_bytes: 1024, disk_size_bytes: 4096, max_key_size: 4, max_value_size: 512 };
    let mut trace = PersistentTrace::with_config(config);
    assert_eq!(trace.insert(batch(vec![(1, "a", 0, 1)])), Err(CapacityError::KeyTooLarge));
    assert!(!trace.cursor().key_valid());
    assert_eq!(trace.insert(batch(vec![(1, "a", 0, 0)])), Ok(()));
}

#[test]
fn standard_capacities() {
    let config = StoreConfig::standard();
    assert_eq!(config.max_key_size, 60);
    assert_eq!(config.max_value_size, 512);
    assert_eq!(config.cache_size_bytes, 1 << 30);
    assert_eq!(config.disk_size_bytes, 128 << 30);
}

#[test]
fn length_counts_value_pairs_written() {
    let mut trace = PersistentTrace::new();
    trace.insert(batch(vec![(1, "x", 0, 1), (1, "x", 1, 2), (1, "y", 0, 0), (2, "x", 0, 1)])).unwrap();
    assert_eq!(trace.len(), 2);
    trace.insert(batch(vec![(1, "x", 3, 1)])).unwrap();
    assert_eq!(trace.len(), 3);
}

#[test]
fn sample_keys_takes_the_drawn_positions() {
    let mut trace = PersistentTrace::new();
    trace.insert(batch(vec![(5, "a", 0, 1), (1, "a", 0, 1), (3, "a", 0, 1), (7, "a", 0, 1)])).unwrap();
    let mut sample = vec![99];
    trace.sample_keys(&vec![3, 0, 3, 10], &mut sample);
    assert_eq!(sample, vec![99, 1, 7]);
    trace.truncate_keys_below(4);
    let mut sample = Vec::new();
    trace.sample_keys(&vec![0, 1], &mut sample);
    assert_eq!(sample, vec![5, 7]);
}
