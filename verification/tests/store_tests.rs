use rust_ratelimit::error::RateLimitError;
use rust_ratelimit::store::{CounterStore, MemoryCounterStore};

#[test]
fn test_store_counts_one_then_two() {
    // a cold key counts one on the first hit and two on the second
    let mut store = MemoryCounterStore::new();
    let op = ("k".to_string(), 1u64, 1u64);
    let first = store.increment_batch(&vec![op.clone()]).unwrap();
    assert_eq!(first, vec![1]);
    let second = store.increment_batch(&vec![op]).unwrap();
    assert_eq!(second, vec![2]);
}

#[test]
fn test_store_batch_order_and_interleaving() {
    // results align with input order; increments within one batch stack
    let mut store = MemoryCounterStore::new();
    let counts = store
        .increment_batch(&vec![
            ("a".to_string(), 2, 60),
            ("b".to_string(), 5, 60),
            ("a".to_string(), 1, 60),
        ])
        .unwrap();
    assert_eq!(counts, vec![2, 5, 3]);
    assert_eq!(store.count_for(&"a".to_string()), 3);
    assert_eq!(store.count_for(&"b".to_string()), 5);
    assert_eq!(store.count_for(&"c".to_string()), 0);
}

#[test]
fn test_store_empty_batch() {
    let mut store = MemoryCounterStore::new();
    let counts = store.pipeline_increment_and_expire(vec![]).unwrap();
    assert!(counts.is_empty());
}

#[test]
fn test_store_zero_ttl_rejected() {
    // a zero time to live would delete the counter and is rejected, and
    // nothing is recorded
    let mut store = MemoryCounterStore::new();
    let r = store.increment_batch(&vec![
        ("a".to_string(), 1, 60),
        ("b".to_string(), 1, 0),
    ]);
    match r {
        Err(RateLimitError::Store(_)) => {}
        _ => panic!("expected a store error for a zero expiry"),
    }
    assert_eq!(store.count_for(&"a".to_string()), 0);
    assert_eq!(store.count_for(&"b".to_string()), 0);
}

#[test]
fn test_store_health_check() {
    let mut store = MemoryCounterStore::new();
    assert!(store.health_check().is_ok());
}
