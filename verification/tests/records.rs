use kad_dht::hashing::hash_to_key;
use kad_dht::storage::{copy_bytes, Storage};
use kad_dht::KEY_EXPIRATION;

#[test]
fn put_then_get_returns_the_value() {
    let mut store = Storage::new();
    let key = hash_to_key(b"alice");
    store.put(key, b"hello".to_vec(), 100);
    assert_eq!(store.get(&key, 100), Some(b"hello".to_vec()));
    assert_eq!(store.len(), 1);
}

#[test]
fn get_of_an_absent_key_is_none() {
    let mut store = Storage::new();
    store.put(hash_to_key(b"alice"), b"hello".to_vec(), 100);
    assert_eq!(store.get(&hash_to_key(b"bob"), 100), None);
    assert_eq!(Storage::new().get(&hash_to_key(b"alice"), 0), None);
}

#[test]
fn put_overwrites_and_resets_the_insertion_time() {
    let mut store = Storage::new();
    let key = hash_to_key(b"alice");
    store.put(key, b"first".to_vec(), 1000);
    store.put(key, b"second".to_vec(), 1000 + KEY_EXPIRATION - 1);
    assert_eq!(store.len(), 1);
    assert_eq!(
        store.get(&key, 1000 + 2 * KEY_EXPIRATION - 2),
        Some(b"second".to_vec())
    );
    assert_eq!(store.get(&key, 1000 + 2 * KEY_EXPIRATION - 1), None);
}

#[test]
fn record_is_read_before_its_lifetime_has_passed_and_absent_after() {
    let then = 5_000u64;
    let key = hash_to_key(b"alice");
    let mut store = Storage::new();
    store.put(key, b"hello".to_vec(), then);
    assert_eq!(KEY_EXPIRATION, 3600);
    assert_eq!(store.get(&key, then + 3599), Some(b"hello".to_vec()));
    assert_eq!(store.get(&key, then + 3600), None);
    assert_eq!(store.len(), 0);
    let mut store = Storage::new();
    store.put(key, b"hello".to_vec(), then);
    assert_eq!(store.get(&key, then + 3601), None);
}

#[test]
fn a_clock_that_went_back_expires_nothing() {
    let mut store = Storage::new();
    let key = hash_to_key(b"alice");
    store.put(key, b"hello".to_vec(), 10_000);
    assert_eq!(store.get(&key, 1), Some(b"hello".to_vec()));
}

#[test]
fn sweep_removes_the_expired_records_only() {
    let mut store = Storage::new();
    let old = hash_to_key(b"old");
    let young = hash_to_key(b"young");
    let edge = hash_to_key(b"edge");
    store.put(old, vec![1], 0);
    store.put(edge, vec![2], 400);
    store.put(young, vec![3], 401);
    store.sweep_expired(4000);
    assert_eq!(store.len(), 1);
    assert_eq!(store.get(&young, 4000), Some(vec![3]));
    assert_eq!(store.get(&old, 4000), None);
    assert_eq!(store.get(&edge, 4000), None);
}

#[test]
fn get_purges_expired_records_of_other_keys() {
    let mut store = Storage::new();
    store.put(hash_to_key(b"a"), vec![1], 0);
    store.put(hash_to_key(b"b"), vec![2], 3000);
    assert_eq!(store.len(), 2);
    assert_eq!(store.get(&hash_to_key(b"b"), 3600), Some(vec![2]));
    assert_eq!(store.len(), 1);
}

#[test]
fn copy_bytes_copies() {
    let bytes = vec![1u8, 2, 3];
    assert_eq!(copy_bytes(&bytes), bytes);
    assert_eq!(copy_bytes(&Vec::new()), Vec::<u8>::new());
}
