use voxel_world::store::NamedStore;

#[test]
fn stored_value_reads_back() {
    let mut store: NamedStore<u32> = NamedStore::new();
    store.insert("camera".to_string(), 1);
    store.insert("light".to_string(), 2);
    assert_eq!(store.get(&"camera".to_string()), Some(&1));
    assert_eq!(store.get(&"light".to_string()), Some(&2));
    assert_eq!(store.get(&"sun".to_string()), None);
    assert!(store.contains(&"light".to_string()));
    assert!(!store.contains(&"sun".to_string()));
}

#[test]
fn insert_replaces_and_keeps_order() {
    let mut store: NamedStore<&str> = NamedStore::new();
    store.insert("b".to_string(), "first");
    store.insert("a".to_string(), "second");
    store.insert("b".to_string(), "third");
    assert_eq!(store.get(&"b".to_string()), Some(&"third"));
    assert_eq!(store.get(&"a".to_string()), Some(&"second"));
    assert_eq!(store.names(), vec!["b".to_string(), "a".to_string()]);
}

#[test]
fn empty_store_has_no_names() {
    let store: NamedStore<u8> = NamedStore::new();
    assert!(store.names().is_empty());
}
