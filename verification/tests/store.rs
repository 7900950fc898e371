//! The store without the command layer.

use miniredis::store::Store;

#[test]
fn get_missing_key_returns_none() {
    let mut store = Store::new();
    assert_eq!(store.get(b"absent"), None);
}

#[test]
fn store_set_then_get_round_trip() {
    let mut store = Store::new();
    store.set(b"foo".to_vec(), b"bar".to_vec(), None);
    assert_eq!(store.get(b"foo"), Some(b"bar".to_vec()));
}

#[test]
fn set_overwrites_existing_key() {
    let mut store = Store::new();
    store.set(b"foo".to_vec(), b"old".to_vec(), None);
    store.set(b"foo".to_vec(), b"new".to_vec(), None);
    assert_eq!(store.get(b"foo"), Some(b"new".to_vec()));
}

#[test]
fn del_existing_and_missing() {
    let mut store = Store::new();
    store.set(b"foo".to_vec(), b"bar".to_vec(), None);
    assert!(store.del(b"foo"));
    assert!(!store.del(b"foo"));
    assert_eq!(store.get(b"foo"), None);
}

#[test]
fn binary_keys_and_values_pass_through() {
    let mut store = Store::new();
    let key = vec![0x00, 0xff, 0x80];
    let value = vec![0xde, 0xad, 0x00, 0xbe, 0xef];
    store.set(key.clone(), value.clone(), None);
    assert_eq!(store.get(&key), Some(value));
}
