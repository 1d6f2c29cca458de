use lru_cache::{Cache, CacheTrait};

#[test]
fn test_persistent_cache_integration() {
    // Build a store of capacity 2, overflow it once, and export it.
    let snapshot: String;
    {
        let mut cache = Cache::new_persistent(2, None);
        cache.put(String::from("A"), String::from("val_A"));
        cache.put(String::from("B"), String::from("val_B"));
        cache.put(String::from("C"), String::from("val_C")); // evicts A
        snapshot = cache.save_to_string();
    }

    // A fresh store loaded from the snapshot holds exactly B and C.
    {
        let mut cache = Cache::new_persistent(2, Some(&snapshot));
        assert_eq!(cache.get(&String::from("A")), None);
        assert_eq!(cache.get(&String::from("B")), Some(String::from("val_B")));
        assert_eq!(cache.get(&String::from("C")), Some(String::from("val_C")));
    }
}

#[test]
fn test_export_format() {
    let mut cache = Cache::new(2);
    cache.put(String::from("K"), String::from("V"));
    assert_eq!(cache.save_to_string(), String::from("K:V\n"));
    cache.put(String::from("L"), String::from("W"));
    assert_eq!(cache.save_to_string(), String::from("K:V\nL:W\n"));
}

#[test]
fn test_import_skips_bad_lines() {
    let mut cache = Cache::new_persistent(3, Some("A:1\nbogus\nB:2"));
    assert_eq!(cache.get(&String::from("bogus")), None);
    assert_eq!(cache.get(&String::from("A")), Some(String::from("1")));
    assert_eq!(cache.get(&String::from("B")), Some(String::from("2")));
}

#[test]
fn test_import_splits_at_first_colon() {
    let mut cache = Cache::new_persistent(2, Some("K:a:b\n"));
    assert_eq!(cache.get(&String::from("K")), Some(String::from("a:b")));
}

#[test]
fn test_import_empty_key_and_value() {
    let mut cache = Cache::new_persistent(2, Some(":v\nk:\n"));
    assert_eq!(cache.get(&String::from("")), Some(String::from("v")));
    assert_eq!(cache.get(&String::from("k")), Some(String::from("")));
}

#[test]
fn test_import_replays_in_file_order() {
    // More records than capacity: later records evict earlier ones.
    let mut cache = Cache::new_persistent(2, Some("A:1\nB:2\nC:3\n"));
    assert_eq!(cache.get(&String::from("A")), None);
    assert_eq!(cache.get(&String::from("B")), Some(String::from("2")));
    assert_eq!(cache.get(&String::from("C")), Some(String::from("3")));
}

#[test]
fn test_import_missing_source_gives_empty_store() {
    let mut cache = Cache::new_persistent(2, None);
    assert_eq!(cache.get(&String::from("A")), None);
    let empty = String::new();
    assert_eq!(cache.save_to_string(), empty);
}

#[test]
fn test_round_trip_larger_capacity() {
    let snapshot: String;
    {
        let mut cache = Cache::new(2);
        cache.put(String::from("x"), String::from("1"));
        cache.put(String::from("y"), String::from("2"));
        snapshot = cache.save_to_string();
    }
    let mut cache = Cache::new_persistent(5, Some(&snapshot));
    assert_eq!(cache.get(&String::from("x")), Some(String::from("1")));
    assert_eq!(cache.get(&String::from("y")), Some(String::from("2")));
}
