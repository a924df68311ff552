use kvnode::storage::{KVStore, StorageInterface};

#[test]
fn can_put_and_get() {
    for (xs, ys) in [("a", "b"), ("", ""), ("key", "value with spaces"), ("ü", "ß")] {
        let xs = xs.to_string();
        let ys = ys.to_string();
        let mut store = KVStore::default();
        store.put(&xs, &ys);
        assert!(store.get(&xs) == Some(ys));
    }
}

#[test]
fn can_put_and_get_and_del_and_not_get() {
    for (xs, ys) in [("a", "b"), ("", ""), ("key", "value")] {
        let xs = xs.to_string();
        let ys = ys.to_string();
        let mut store = KVStore::default();
        store.put(&xs, &ys);
        store.delete(&xs);
        assert!(store.get(&xs).is_none());
    }
}

#[test]
fn put_overwrites() {
    for (xs, ys, zs) in [("a", "b", "c"), ("", "", "x"), ("k", "v", "v")] {
        let xs = xs.to_string();
        let ys = ys.to_string();
        let zs = zs.to_string();
        let mut store = KVStore::default();
        store.put(&xs, &ys);
        assert_eq!(store.get(&xs), Some(ys));
        store.put(&xs, &zs);
        assert!(store.get(&xs) == Some(zs));
    }
}

#[test]
fn other_keys_are_untouched() {
    let mut store = KVStore::default();
    store.put(&"a".to_string(), &"1".to_string());
    store.put(&"b".to_string(), &"2".to_string());
    store.delete(&"a".to_string());
    store.delete(&"missing".to_string());
    assert_eq!(store.get(&"a".to_string()), None);
    assert_eq!(store.get(&"b".to_string()), Some("2".to_string()));
}
