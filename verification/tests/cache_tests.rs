use lru_cache::{Cache, CacheTrait};

#[test]
fn test_lru_cache() {
    let mut cache = Cache::new(3);
    cache.put(String::from("A"), String::from("value_a"));
    cache.put(String::from("B"), String::from("value_b"));
    cache.put(String::from("C"), String::from("value_c"));
    cache.put(String::from("D"), String::from("value_d"));
    // Cache == [B, C, D]

    let my_value = cache.get(&String::from("A"));
    assert_eq!(my_value, None);
    let my_value = cache.get(&String::from("D"));
    assert_eq!(my_value, Some(String::from("value_d")));
    // Cache == [B, C, D]

    let my_value = cache.get(&String::from("B"));
    assert_eq!(my_value, Some(String::from("value_b")));
    // Cache == [C, D, B]

    let my_value = cache.get(&String::from("C"));
    assert_eq!(my_value, Some(String::from("value_c")));
    // Cache == [D, B, C]

    let my_value = cache.get(&String::from("X"));
    assert_eq!(my_value, None);
    // Cache == [D, B, C]

    cache.put(String::from("A"), String::from("value_a"));
    // Cache == [B, C, A]

    cache.put(String::from("X"), String::from("value_x"));
    // Cache == [C, A, X]

    let my_value = cache.get(&String::from("B"));
    assert_eq!(my_value, None);
    // Cache == [C, A, X]

    let my_value = cache.get(&String::from("D"));
    // Cache == [C, A, X]
    assert_eq!(my_value, None);
}

#[test]
fn test_capacity_one() {
    let mut cache = Cache::new(1);
    cache.put(String::from("X"), String::from("1"));
    cache.put(String::from("Y"), String::from("2"));
    assert_eq!(cache.get(&String::from("X")), None);
    assert_eq!(cache.get(&String::from("Y")), Some(String::from("2")));
}

#[test]
fn test_update_is_not_insert() {
    let mut cache = Cache::new(2);
    cache.put(String::from("A"), String::from("1"));
    cache.put(String::from("B"), String::from("2"));
    // Updating A must not evict anyone and must promote A.
    cache.put(String::from("A"), String::from("3"));
    // Cache == [B, A]; inserting C now evicts B, not A.
    cache.put(String::from("C"), String::from("4"));
    assert_eq!(cache.get(&String::from("B")), None);
    assert_eq!(cache.get(&String::from("A")), Some(String::from("3")));
    assert_eq!(cache.get(&String::from("C")), Some(String::from("4")));
}

#[test]
fn test_miss_does_not_promote() {
    let mut cache = Cache::new(2);
    cache.put(String::from("A"), String::from("1"));
    cache.put(String::from("B"), String::from("2"));
    // A miss is not a use: the order [A, B] must be untouched.
    assert_eq!(cache.get(&String::from("Z")), None);
    cache.put(String::from("C"), String::from("3"));
    assert_eq!(cache.get(&String::from("A")), None);
    assert_eq!(cache.get(&String::from("B")), Some(String::from("2")));
}

#[test]
fn test_hit_promotes() {
    let mut cache = Cache::new(2);
    cache.put(String::from("A"), String::from("1"));
    cache.put(String::from("B"), String::from("2"));
    // The hit makes A most recently used, so the next eviction takes B.
    assert_eq!(cache.get(&String::from("A")), Some(String::from("1")));
    cache.put(String::from("C"), String::from("3"));
    assert_eq!(cache.get(&String::from("B")), None);
    assert_eq!(cache.get(&String::from("A")), Some(String::from("1")));
    assert_eq!(cache.get(&String::from("C")), Some(String::from("3")));
}
