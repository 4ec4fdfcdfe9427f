use index_pool::Inner;
use index_pool::Store;

#[test]
fn store_never_attached_is_absent() {
    let mut store: Store<u32> = Store::new(4, 2, 100);
    assert_eq!(store.size(), 0);
    assert_eq!(store.len("missing"), 0);
    assert!(store.try_pull_at("missing", 50).is_none());
    assert_eq!(store.len("missing"), 0);
}

#[test]
fn store_batch_fills_on_miss() {
    let mut store: Store<u32> = Store::new(4, 3, 100);
    let (obj, ts) = store.pull_at("k", 10, || 7u32);
    assert_eq!(obj, 7);
    assert_eq!(ts, 10);
    assert_eq!(store.len("k"), 2);
    assert_eq!(store.size(), 1);
}

#[test]
fn store_attach_then_retrieve_round_trip() {
    let mut store: Store<u32> = Store::new(4, 4, 100);
    store.attach_at("k", 5, 42);
    assert_eq!(store.len("k"), 1);
    let got = store.try_pull_at("k", 50);
    assert_eq!(got, Some((42, 5)));
    assert_eq!(store.len("k"), 0);
}

#[test]
fn store_capacity_evicts_first_key() {
    let mut store: Store<u32> = Store::new(2, 2, 100);
    store.attach_at("b", 0, 1);
    store.attach_at("a", 0, 2);
    assert_eq!(store.size(), 2);
    store.attach_at("c", 0, 3);
    assert_eq!(store.size(), 2);
    assert_eq!(store.len("a"), 0);
    assert_eq!(store.len("b"), 1);
    assert_eq!(store.len("c"), 1);
}

#[test]
fn store_empty_key_blocks_eviction() {
    let mut store: Store<u32> = Store::new(2, 2, 100);
    store.attach_at("", 0, 1);
    store.attach_at("b", 0, 2);
    store.attach_at("c", 0, 3);
    assert_eq!(store.size(), 3);
    assert_eq!(store.len(""), 1);
}

#[test]
fn store_expired_entry_discarded() {
    let mut store: Store<u32> = Store::new(4, 2, 1000);
    store.attach_at("k", 0, 9);
    assert!(store.try_pull_at("k", 1500).is_none());
    assert_eq!(store.len("k"), 0);
    let (obj, ts) = store.pull_at("k", 1600, || 11u32);
    assert_eq!((obj, ts), (11, 1600));
    assert!(store.try_pull_at("k", 1700).is_some());
}

#[test]
fn store_not_expired_at_exact_allowance() {
    let mut store: Store<u32> = Store::new(4, 2, 1000);
    store.attach_at("k", 0, 9);
    assert_eq!(store.try_pull_at("k", 1000), Some((9, 0)));
}

#[test]
fn store_overflow_trim_discards_most_recent() {
    let mut store: Store<u32> = Store::new(4, 2, 100);
    store.attach_at("k", 0, 1);
    store.attach_at("k", 1, 2);
    store.attach_at("k", 2, 3);
    assert_eq!(store.len("k"), 3);
    assert_eq!(store.try_pull_at("k", 10), Some((2, 1)));
    assert_eq!(store.len("k"), 1);
}

#[test]
fn store_retrieve_is_lifo() {
    let mut store: Store<u32> = Store::new(4, 8, 100);
    store.attach_at("k", 0, 1);
    store.attach_at("k", 1, 2);
    assert_eq!(store.try_pull_at("k", 10), Some((2, 1)));
    assert_eq!(store.try_pull_at("k", 10), Some((1, 0)));
    assert_eq!(store.try_pull_at("k", 10), None);
    assert_eq!(store.size(), 1);
}

#[test]
fn store_keys_sort_by_text_not_arrival() {
    let mut store: Store<u32> = Store::new(3, 1, 100);
    store.attach_at("zeta", 0, 1);
    store.attach_at("alpha", 0, 2);
    store.attach_at("mid", 0, 3);
    store.attach_at("beta", 0, 4);
    assert_eq!(store.size(), 3);
    assert_eq!(store.len("alpha"), 0);
    assert_eq!(store.len("beta"), 1);
    assert_eq!(store.len("mid"), 1);
    assert_eq!(store.len("zeta"), 1);
}

#[test]
fn entry_expiration_is_strict() {
    let e = Inner::new(5u32, 100);
    assert!(!e.expired(50, 150));
    assert!(e.expired(49, 150));
    assert!(!e.expired(10, 0));
    assert_eq!(e.start_time(), 100);
    assert_eq!(e.into_object(), 5);
}
