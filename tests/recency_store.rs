use cache_lru::cache_lru::Cache;

#[test]
fn scenario_fourth_key_evicts_first() {
    let mut cache = Cache::new(3);
    cache.put("A", "value_a".to_string());
    cache.put("B", "value_b".to_string());
    cache.put("C", "value_c".to_string());
    cache.put("D", "value_d".to_string());
    assert_eq!(cache.get(&"A"), None);
    assert_eq!(cache.get(&"D"), Some(&"value_d".to_string()));
    assert_eq!(cache.get(&"B"), Some(&"value_b".to_string()));
    assert_eq!(cache.get(&"C"), Some(&"value_c".to_string()));
}

#[test]
fn scenario_reinserted_key_then_new_key() {
    let mut cache = Cache::new(3);
    cache.put("A", "value_a".to_string());
    cache.put("B", "value_b".to_string());
    cache.put("C", "value_c".to_string());
    cache.put("D", "value_d".to_string());
    assert_eq!(cache.get(&"A"), None);
    assert_eq!(cache.get(&"D"), Some(&"value_d".to_string()));
    assert_eq!(cache.get(&"B"), Some(&"value_b".to_string()));
    assert_eq!(cache.get(&"C"), Some(&"value_c".to_string()));
    // Recency order is now C, B, D: putting A evicts D, putting X evicts B.
    cache.put("A", "value_a".to_string());
    cache.put("X", "value_x".to_string());
    assert_eq!(cache.get(&"B"), None);
    assert_eq!(cache.get(&"D"), None);
    assert_eq!(cache.get(&"A"), Some(&"value_a".to_string()));
    assert_eq!(cache.get(&"C"), Some(&"value_c".to_string()));
    assert_eq!(cache.get(&"X"), Some(&"value_x".to_string()));
}

#[test]
fn filling_to_capacity_keeps_every_key() {
    for cap in 1..6usize {
        let mut cache = Cache::new(cap);
        for k in 0..cap {
            cache.put(k as u64, k * 10);
        }
        for k in 0..cap {
            assert_eq!(cache.get(&(k as u64)), Some(&(k * 10)));
        }
    }
}

#[test]
fn new_key_evicts_least_recently_touched() {
    let mut cache = Cache::new(3);
    cache.put(1, 10);
    cache.put(2, 20);
    cache.put(3, 30);
    // 1 is touched by a read, so 2 is now least recently used.
    assert_eq!(cache.get(&1), Some(&10));
    cache.put(4, 40);
    assert_eq!(cache.get(&2), None);
    assert_eq!(cache.get(&4), Some(&40));
    assert_eq!(cache.get(&1), Some(&10));
    assert_eq!(cache.get(&3), Some(&30));
}

#[test]
fn get_of_absent_key_changes_nothing() {
    let mut cache = Cache::new(2);
    cache.put(1, 10);
    cache.put(2, 20);
    assert_eq!(cache.get(&9), None);
    // Order is still 2, 1: a new key evicts 1.
    cache.put(3, 30);
    assert_eq!(cache.get(&1), None);
    assert_eq!(cache.get(&2), Some(&20));
    assert_eq!(cache.get(&3), Some(&30));
}

#[test]
fn touched_key_outlives_all_others() {
    let mut cache = Cache::new(4);
    cache.put('a', 1);
    cache.put('b', 2);
    cache.put('c', 3);
    cache.put('d', 4);
    assert_eq!(cache.get(&'a'), Some(&1));
    cache.put('w', 5);
    cache.put('x', 6);
    cache.put('y', 7);
    assert_eq!(cache.get(&'b'), None);
    assert_eq!(cache.get(&'c'), None);
    assert_eq!(cache.get(&'d'), None);
    assert_eq!(cache.get(&'a'), Some(&1));
}

#[test]
fn put_on_existing_key_updates_and_refreshes() {
    let mut cache = Cache::new(3);
    cache.put("k1", 1);
    cache.put("k2", 2);
    cache.put("k3", 3);
    cache.put("k1", 100);
    // No key was evicted by the update.
    assert_eq!(cache.get(&"k2"), Some(&2));
    assert_eq!(cache.get(&"k3"), Some(&3));
    assert_eq!(cache.get(&"k1"), Some(&100));
    // Order is k1, k3, k2: one new key evicts k2 only.
    cache.put("k4", 4);
    assert_eq!(cache.get(&"k2"), None);
    assert_eq!(cache.get(&"k1"), Some(&100));
    assert_eq!(cache.get(&"k3"), Some(&3));
}

#[test]
fn capacity_one_keeps_only_the_last_key() {
    let mut cache = Cache::new(1);
    cache.put(String::from("x"), 1i64);
    cache.put(String::from("y"), 2i64);
    assert_eq!(cache.get(&String::from("x")), None);
    assert_eq!(cache.get(&String::from("y")), Some(&2));
    cache.put(String::from("y"), 3i64);
    assert_eq!(cache.get(&String::from("y")), Some(&3));
}

#[test]
fn empty_store_finds_nothing() {
    let mut cache: Cache<u32, u32> = Cache::new(2);
    assert_eq!(cache.get(&0), None);
}
