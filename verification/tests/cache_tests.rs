use evaluation::cache::Cache;
use evaluation::error::MyError;

#[test]
fn test() {
    let mut cache: Cache<&str, String> = Cache::new(3);
    cache.put("A", String::from("value_a")).unwrap();
    cache.put("B", String::from("value_b")).unwrap();
    cache.put("C", String::from("value_c")).unwrap();
    cache.put("D", String::from("value_d")).unwrap();
    // The cache holds three entries; inserting D evicted A, the oldest.
    // Cache == [B, C, D]

    let my_value = cache.get(&"A");
    assert!(matches!(my_value, Err(MyError::KeyNotFound("A"))));
    let my_value = cache.get(&"D");
    assert_eq!(my_value, Ok(&String::from("value_d")));
    // Cache == [B, C, D]

    let my_value = cache.get(&"B");
    assert_eq!(my_value, Ok(&String::from("value_b")));
    // Lookup never reorders: the cache is FIFO, not LRU.
    // Cache == [B, C, D]

    let my_value = cache.get(&"C");
    assert_eq!(my_value, Ok(&String::from("value_c")));
    // Cache == [B, C, D]

    let my_value = cache.get(&"X");
    assert!(matches!(my_value, Err(MyError::KeyNotFound("X"))));
    // Cache == [B, C, D]

    cache.put("A", String::from("value_a")).unwrap();
    // A was evicted earlier, so it goes back in; B, the oldest, leaves.
    // Cache == [C, D, A]

    cache.put("X", String::from("value_x")).unwrap();
    // Cache == [D, A, X]

    let my_value = cache.get(&"B");
    assert!(matches!(my_value, Err(MyError::KeyNotFound("B"))));
    // Cache == [D, A, X]

    let my_value = cache.get(&"D");
    // D is still the oldest-inserted surviving key: reads never evict.
    assert_eq!(my_value, Ok(&String::from("value_d")));
}

#[test]
fn scenario_capacity_three() {
    let mut cache: Cache<&str, String> = Cache::new(3);
    assert!(cache.put("A", String::from("value_a")).is_ok());
    assert!(cache.put("B", String::from("value_b")).is_ok());
    assert!(cache.put("C", String::from("value_c")).is_ok());
    assert_eq!(cache.len(), 3);

    // Inserting a fourth entry evicts A, the oldest.
    assert!(cache.put("D", String::from("value_d")).is_ok());
    assert_eq!(cache.len(), 3);

    assert!(matches!(cache.get(&"A"), Err(MyError::KeyNotFound("A"))));
    assert_eq!(cache.get(&"D"), Ok(&String::from("value_d")));
    assert_eq!(cache.get(&"B"), Ok(&String::from("value_b")));

    // Re-inserting a present key fails and leaves the cache unchanged.
    let rejected = cache.put("B", String::from("value_b2"));
    assert_eq!(rejected, Err(MyError::DuplicateKey("B")));
    assert_eq!(cache.len(), 3);
    assert_eq!(cache.get(&"B"), Ok(&String::from("value_b")));
    assert_eq!(cache.get(&"C"), Ok(&String::from("value_c")));
    assert_eq!(cache.get(&"D"), Ok(&String::from("value_d")));
}

#[test]
fn duplicate_rejection_keeps_state() {
    let mut cache: Cache<u64, u64> = Cache::new(2);
    assert_eq!(cache.put(7, 70), Ok(()));
    assert_eq!(cache.put(7, 71), Err(MyError::DuplicateKey(7)));
    assert_eq!(cache.len(), 1);
    // The stored value was not overwritten.
    assert_eq!(cache.get(&7), Ok(&70));
}

#[test]
fn reading_does_not_protect_from_eviction() {
    let mut cache: Cache<u64, &str> = Cache::new(2);
    cache.put(1, "one").unwrap();
    cache.put(2, "two").unwrap();
    // Read the oldest key right before the cache overflows.
    assert_eq!(cache.get(&1), Ok(&"one"));
    cache.put(3, "three").unwrap();
    // The read did not protect key 1: it was still the one evicted.
    assert!(matches!(cache.get(&1), Err(MyError::KeyNotFound(1))));
    assert_eq!(cache.get(&2), Ok(&"two"));
    assert_eq!(cache.get(&3), Ok(&"three"));
}

#[test]
fn eviction_follows_insertion_order() {
    let mut cache: Cache<u64, u64> = Cache::new(3);
    for k in 0..10u64 {
        cache.put(k, k * 10).unwrap();
        // The capacity bound holds after every insertion.
        assert!(cache.len() <= 3);
    }
    // Only the three newest keys survive.
    for k in 0..7u64 {
        assert!(matches!(cache.get(&k), Err(MyError::KeyNotFound(_))));
    }
    for k in 7..10u64 {
        assert_eq!(cache.get(&k), Ok(&(k * 10)));
    }
}

#[test]
fn empty_cache_misses() {
    let cache: Cache<u64, u64> = Cache::new(4);
    assert_eq!(cache.len(), 0);
    assert!(matches!(cache.get(&1), Err(MyError::KeyNotFound(1))));
}

#[test]
fn zero_capacity_cache_is_empty() {
    let cache: Cache<u64, u64> = Cache::new(0);
    assert_eq!(cache.len(), 0);
    assert!(matches!(cache.get(&1), Err(MyError::KeyNotFound(1))));
}

#[test]
fn error_carries_key_and_message() {
    let mut cache: Cache<u64, &str> = Cache::new(1);
    cache.put(5, "five").unwrap();

    let dup = cache.put(5, "again").unwrap_err();
    assert_eq!(*dup.key(), 5);
    assert_eq!(dup.message(), "the key is already present");

    let miss = cache.get(&9).unwrap_err();
    assert_eq!(*miss.key(), 9);
    assert_eq!(miss.message(), "the key is not present");
}
