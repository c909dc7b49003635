use file_tree::auto_key_map::AutoKeyMap;

#[test]
fn should_auto_increment_keys() {
    let mut map = AutoKeyMap::new();
    let key1 = map.insert(1);
    let key2 = map.insert(2);
    let key3 = map.insert(3);
    assert_eq!(key1, 0);
    assert_eq!(key2, 1);
    assert_eq!(key3, 2);

    assert_eq!(map.get(key1), Some(&1));
    assert_eq!(map.get(key2), Some(&2));
    assert_eq!(map.get(key3), Some(&3));
}

#[test]
fn values_mut_should_be_ordered_by_key() {
    let mut map = AutoKeyMap::new();
    map.insert(1);
    map.insert(2);
    map.insert(3);

    let values = map.values_mut();
    assert_eq!(values[0], 1);
    assert_eq!(values[1], 2);
    assert_eq!(values[2], 3);
}

#[test]
fn insert_into_empty_map_yields_key_zero() {
    let mut map: AutoKeyMap<&str> = AutoKeyMap::new();
    assert_eq!(map.insert("first"), 0);
}

#[test]
fn removing_the_maximum_key_reuses_it() {
    let mut map = AutoKeyMap::new();
    map.insert("a");
    map.insert("b");
    let k2 = map.insert("c");
    assert_eq!(k2, 2);
    assert_eq!(map.remove(2), Some("c"));
    assert_eq!(map.insert("d"), 2);
}

#[test]
fn freed_keys_below_the_maximum_are_never_reused() {
    let mut map = AutoKeyMap::new();
    map.insert("a");
    map.insert("b");
    map.insert("c");
    assert_eq!(map.remove(0), Some("a"));
    assert_eq!(map.insert("d"), 3);
}

#[test]
fn remove_of_absent_key_is_none_not_an_error() {
    let mut map = AutoKeyMap::new();
    map.insert(10);
    assert_eq!(map.remove(7), None);
    assert_eq!(map.len(), 1);
}

#[test]
fn snapshots_stay_ascending_after_churn() {
    let mut map = AutoKeyMap::new();
    map.insert(10);
    map.insert(20);
    map.insert(30);
    map.insert(40);
    map.remove(1);
    map.remove(3);
    map.insert(50);

    let keys = map.keys();
    assert_eq!(keys, vec![0, 2, 3]);

    let entries = map.entries();
    let flat: Vec<(usize, i32)> = entries.iter().map(|(k, v)| (*k, **v)).collect();
    assert_eq!(flat, vec![(0, 10), (2, 30), (3, 50)]);

    let values = map.values_mut();
    assert_eq!(values, &vec![10, 30, 50]);
}

#[test]
fn get_mut_updates_the_stored_value() {
    let mut map = AutoKeyMap::new();
    let k = map.insert(5);
    if let Some(v) = map.get_mut(k) {
        *v = 99;
    }
    assert_eq!(map.get(k), Some(&99));
    assert_eq!(map.get_mut(42), None);
}

#[test]
fn mutation_through_values_mut_is_visible() {
    let mut map = AutoKeyMap::new();
    map.insert(1);
    map.insert(2);
    let values = map.values_mut();
    values[0] = 7;
    assert_eq!(map.get(0), Some(&7));
}
