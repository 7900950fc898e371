//! Expiry of keys and eviction of the least recently used one.

use miniredis::clock::{Clock, Instant, LAST_READING};
use miniredis::lru::{LruList, NIL};
use miniredis::store::Store;
use miniredis::table::Table;

fn at(millis: u64) -> Instant {
    Instant { nanos: millis as u128 * 1_000_000 }
}

fn put(store: &mut Store, key: &str, value: &str, expires_at: Option<Instant>) {
    store.set(key.as_bytes().to_vec(), value.as_bytes().to_vec(), expires_at);
}

#[test]
fn key_without_expiry_has_ttl_minus_one() {
    let mut store = Store::new();
    put(&mut store, "k", "v", None);
    assert_eq!(store.ttl_secs(b"k"), -1);
    assert_eq!(store.ttl_secs(b"absent"), -2);
}

#[test]
fn value_is_readable_until_its_expiry_and_not_after() {
    let mut store = Store::new();
    put(&mut store, "k", "v", Some(at(1000)));
    assert_eq!(store.get_at(b"k", at(999)), Some(b"v".to_vec()));
    assert_eq!(store.len(), 1);
    assert_eq!(store.get_at(b"k", at(1000)), None);
    assert_eq!(store.len(), 0);
}

#[test]
fn ttl_rounds_up() {
    let mut store = Store::new();
    put(&mut store, "k", "v", Some(at(1500)));
    assert_eq!(store.ttl_secs_at(b"k", at(0)), 2);
    assert_eq!(store.ttl_secs_at(b"k", at(500)), 1);
    assert_eq!(store.ttl_secs_at(b"k", at(1499)), 1);
    assert_eq!(store.ttl_secs_at(b"k", at(1500)), -2);
    assert_eq!(store.len(), 0);
}

#[test]
fn ttl_is_cut_to_the_largest_integer() {
    let mut store = Store::new();
    put(&mut store, "k", "v", Some(Instant { nanos: u128::MAX }));
    assert_eq!(store.ttl_secs_at(b"k", at(0)), i64::MAX);
}

#[test]
fn expire_sets_the_expiry_of_an_existing_key_only() {
    let mut store = Store::new();
    put(&mut store, "k", "v", None);
    assert!(store.expire_at(b"k", at(5000), at(0)));
    assert_eq!(store.ttl_secs_at(b"k", at(0)), 5);
    assert!(!store.expire_at(b"absent", at(5000), at(0)));
    assert!(!store.expire_at(b"k", at(9000), at(5000)));
    assert_eq!(store.len(), 0);
    put(&mut store, "k", "v", None);
    let far = store.now().after_secs(100);
    assert!(store.expire(b"k", far));
    let ttl = store.ttl_secs(b"k");
    assert!((99..=100).contains(&ttl));
}

#[test]
fn sweep_removes_only_the_expired() {
    let mut store = Store::new();
    put(&mut store, "forever", "1", None);
    put(&mut store, "later", "2", Some(at(2000)));
    put(&mut store, "past", "3", Some(at(500)));
    put(&mut store, "now", "4", Some(at(1000)));
    store.sweep_expired_at(at(1000));
    assert_eq!(store.len(), 2);
    assert_eq!(store.get_at(b"forever", at(1000)), Some(b"1".to_vec()));
    assert_eq!(store.get_at(b"later", at(1000)), Some(b"2".to_vec()));
    assert_eq!(store.get_at(b"past", at(0)), None);
    assert_eq!(store.get_at(b"now", at(0)), None);
}

#[test]
fn sweep_reads_the_clock() {
    let mut store = Store::new();
    let soon = store.now().after_millis(5);
    put(&mut store, "k", "v", Some(soon));
    put(&mut store, "stays", "v", None);
    let begin = std::time::Instant::now();
    while begin.elapsed().as_millis() < 30 {}
    store.sweep_expired();
    assert_eq!(store.len(), 1);
}

#[test]
fn overwriting_clears_the_expiry() {
    let mut store = Store::new();
    put(&mut store, "k", "old", Some(at(100)));
    put(&mut store, "k", "new", None);
    assert_eq!(store.get_at(b"k", at(1000)), Some(b"new".to_vec()));
}

#[test]
fn overflow_evicts_the_least_recently_used() {
    let mut store = Store::with_capacity(2);
    put(&mut store, "a", "1", None);
    put(&mut store, "b", "2", None);
    assert_eq!(store.get(b"a"), Some(b"1".to_vec()));
    put(&mut store, "c", "3", None);
    assert_eq!(store.get(b"b"), None);
    assert_eq!(store.get(b"a"), Some(b"1".to_vec()));
    assert_eq!(store.get(b"c"), Some(b"3".to_vec()));
}

#[test]
fn overwriting_counts_as_use_and_takes_no_room() {
    let mut store = Store::with_capacity(2);
    put(&mut store, "a", "1", None);
    put(&mut store, "b", "2", None);
    put(&mut store, "a", "3", None);
    assert_eq!(store.len(), 2);
    put(&mut store, "c", "4", None);
    assert_eq!(store.get(b"a"), Some(b"3".to_vec()));
    assert_eq!(store.get(b"b"), None);
}

#[test]
fn deleting_frees_room() {
    let mut store = Store::with_capacity(2);
    put(&mut store, "a", "1", None);
    put(&mut store, "b", "2", None);
    assert!(store.del(b"a"));
    put(&mut store, "c", "3", None);
    assert_eq!(store.get(b"b"), Some(b"2".to_vec()));
    assert_eq!(store.len(), 2);
}

#[test]
fn expired_key_still_takes_room_until_it_is_removed() {
    let mut store = Store::with_capacity(1);
    put(&mut store, "dead", "1", Some(at(0)));
    assert_eq!(store.len(), 1);
    put(&mut store, "new", "2", None);
    assert_eq!(store.len(), 1);
    assert!(!store.del(b"dead"));
    assert_eq!(store.get(b"new"), Some(b"2".to_vec()));
}

#[test]
fn sweeping_frees_room() {
    let mut store = Store::with_capacity(2);
    put(&mut store, "dead", "1", Some(at(10)));
    put(&mut store, "a", "2", None);
    store.sweep_expired_at(at(10));
    put(&mut store, "b", "3", None);
    assert_eq!(store.get(b"a"), Some(b"2".to_vec()));
    assert_eq!(store.get(b"b"), Some(b"3".to_vec()));
    assert_eq!(store.len(), 2);
}

#[test]
fn capacity_of_zero_lets_one_key_in() {
    let mut store = Store::with_capacity(0);
    put(&mut store, "a", "1", None);
    assert_eq!(store.len(), 1);
    put(&mut store, "b", "2", None);
    assert_eq!(store.len(), 1);
    assert_eq!(store.get(b"b"), Some(b"2".to_vec()));
}

#[test]
fn unlimited_store_never_evicts() {
    let mut store = Store::default();
    for i in 0..1000 {
        put(&mut store, &format!("k{i}"), &format!("v{i}"), None);
    }
    assert_eq!(store.len(), 1000);
    for i in 0..1000 {
        assert_eq!(store.get(format!("k{i}").as_bytes()), Some(format!("v{i}").into_bytes()));
    }
}

#[test]
fn many_operations_agree_with_a_plain_list() {
    let mut store = Store::with_capacity(5);
    let mut list: Vec<(Vec<u8>, Vec<u8>)> = Vec::new();
    let mut seed: u64 = 42;
    for step in 0..600u64 {
        seed = seed.wrapping_mul(6364136223846793005).wrapping_add(1);
        let key = format!("k{}", (seed >> 33) % 10).into_bytes();
        let place = list.iter().position(|(k, _)| *k == key);
        match (seed >> 50) % 3 {
            0 => {
                let value = format!("v{step}").into_bytes();
                store.set(key.clone(), value.clone(), None);
                match place {
                    Some(i) => {
                        list.remove(i);
                    }
                    None => {
                        if list.len() >= 5 {
                            list.pop();
                        }
                    }
                }
                list.insert(0, (key, value));
            }
            1 => {
                let found = place.map(|i| list.remove(i));
                assert_eq!(store.get(&key), found.as_ref().map(|(_, v)| v.clone()));
                if let Some(entry) = found {
                    list.insert(0, entry);
                }
            }
            _ => {
                assert_eq!(store.del(&key), place.is_some());
                if let Some(i) = place {
                    list.remove(i);
                }
            }
        }
        assert_eq!(store.len(), list.len());
    }
}

#[test]
fn recency_list_links_and_reuses_nodes() {
    let mut list = LruList::new();
    assert_eq!(list.evict(), None);
    assert_eq!(list.first(), NIL);
    let a = list.push_front(b"a".to_vec());
    let b = list.push_front(b"b".to_vec());
    let c = list.push_front(b"c".to_vec());
    assert_eq!(list.first(), c);
    assert_eq!(list.next(c), b);
    assert_eq!(list.next(b), a);
    assert_eq!(list.next(a), NIL);
    list.move_to_front(a);
    list.move_to_front(a);
    assert_eq!(list.key(list.first()), b"a");
    list.remove(c);
    assert_eq!(list.len(), 2);
    assert_eq!(list.next(a), b);
    let d = list.push_front(b"d".to_vec());
    assert_eq!(d, c);
    assert_eq!(list.evict(), Some(b"b".to_vec()));
    assert_eq!(list.evict(), Some(b"a".to_vec()));
    assert_eq!(list.evict(), Some(b"d".to_vec()));
    assert_eq!(list.evict(), None);
}

#[test]
fn table_maps_byte_strings() {
    let mut table: Table<u64> = Table::new();
    for i in 0..500u64 {
        table.insert(i.to_be_bytes().to_vec(), i);
    }
    table.insert(7u64.to_be_bytes().to_vec(), 1007);
    table.insert(Vec::new(), 1);
    assert_eq!(table.get(&7u64.to_be_bytes()), Some(&1007));
    assert_eq!(table.get(b""), Some(&1));
    assert_eq!(table.remove(&8u64.to_be_bytes()), Some(8));
    assert_eq!(table.remove(&8u64.to_be_bytes()), None);
    assert_eq!(table.get(&8u64.to_be_bytes()), None);
    assert_eq!(table.get(&499u64.to_be_bytes()), Some(&499));
}

#[test]
fn clock_moves_forward() {
    let clock = Clock::start();
    let first = clock.now();
    let begin = std::time::Instant::now();
    while begin.elapsed().as_millis() < 5 {}
    let second = clock.now();
    assert!(second.nanos >= first.nanos + 4_000_000);
}

#[test]
fn points_in_time_are_cut_to_the_last_one() {
    let last = Instant { nanos: u128::MAX };
    assert_eq!(last.after_secs(1), last);
    assert_eq!(last.after_millis(1), last);
    assert_eq!(at(1).after_secs(2), at(2001));
    assert_eq!(at(1).after_millis(2), at(3));
}

#[test]
fn longest_lifetime_is_not_cut() {
    assert_eq!(LAST_READING, std::time::Duration::MAX.as_nanos());
    let longest = u64::MAX as u128 * 1_000_000_000;
    for now in [Clock::start().now(), Store::new().now(), Instant { nanos: LAST_READING }] {
        assert!(now.nanos <= LAST_READING);
        assert_eq!(now.after_secs(u64::MAX).nanos, now.nanos + longest);
    }
}
