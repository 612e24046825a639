use mini_redis::db;

#[test]
fn set_returns_previous_value() {
    let mut store = db::new();
    assert_eq!(store.set("k".to_string(), b"one".to_vec()), None);
    assert_eq!(store.set("k".to_string(), b"two".to_vec()), Some(b"one".to_vec()));
    assert_eq!(store.get("k"), Some(b"two".to_vec()));
}

#[test]
fn del_and_contains_key() {
    let mut store = db::new();
    assert!(!store.contains_key("k"));
    assert!(!store.del("k"));
    store.set("k".to_string(), vec![1, 2, 3]);
    assert!(store.contains_key("k"));
    assert!(store.del("k"));
    assert!(!store.contains_key("k"));
    assert_eq!(store.get("k"), None);
}

#[test]
fn keys_are_exact_text() {
    let mut store = db::new();
    store.set("Key".to_string(), b"v".to_vec());
    assert_eq!(store.get("key"), None);
    assert_eq!(store.get("Key"), Some(b"v".to_vec()));
}
