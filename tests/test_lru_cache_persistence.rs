use cache_lru::storage::PersistentCache;

// Persistent LRU cache with string values and then int values; the snapshot
// text stands in for the backing file.
#[test]
fn test_lru_cache_persistent() {
    let cache_file = "test_cache_string.txt";
    let mut cache = PersistentCache::new(3, cache_file);
    assert_eq!(cache.file_path(), cache_file);

    cache.put("A".to_string(), "value_a".to_string());
    cache.put("B".to_string(), "value_b".to_string());
    cache.put("C".to_string(), "value_c".to_string());
    cache.put("D".to_string(), "value_d".to_string());
    println!("Contenu du cache LRU : {:?}", cache);

    let my_value = cache.get(&"A".to_string());
    assert_eq!(my_value, None);

    let my_value = cache.get(&"C".to_string());
    assert_eq!(my_value, Some(&"value_c".to_string()));

    let saved = cache.snapshot();

    let mut cache_charge = PersistentCache::new(3, cache_file);
    cache_charge.load_snapshot(&saved).unwrap();
    println!("Contenu du cache LRU : {:?}", cache_charge);

    assert_eq!(
        cache_charge.get(&"B".to_string()),
        Some(&"value_b".to_string())
    );
    assert_eq!(
        cache_charge.get(&"D".to_string()),
        Some(&"value_d".to_string())
    );
    assert_eq!(cache_charge.get(&"A".to_string()), None);

    let cache_file_int = "test_cache_int.txt";
    let mut cache_int = PersistentCache::new(2, cache_file_int);

    cache_int.put(1, 100);
    cache_int.put(2, 200);
    cache_int.put(3, 300);

    let my_value = cache_int.get(&1);
    assert_eq!(my_value, None);

    let my_value = cache_int.get(&2);
    assert_eq!(my_value, Some(&200));

    let my_value = cache_int.get(&3);
    assert_eq!(my_value, Some(&300));

    let saved_int = cache_int.snapshot();

    let mut cache_charge_int = PersistentCache::new(2, cache_file_int);
    cache_charge_int.load_snapshot(&saved_int).unwrap();

    assert_eq!(cache_charge_int.get(&2), Some(&200));
    assert_eq!(cache_charge_int.get(&3), Some(&300));
    assert_eq!(cache_charge_int.get(&1), None);
}
