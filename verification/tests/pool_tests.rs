use index_pool::pool::DEFAULT_POOL_INDEXES;
use index_pool::Pool;

#[derive(Debug)]
struct Obj {
    idx: usize,
}

impl Obj {
    fn new(idx: usize) -> Self {
        Self { idx }
    }
}

#[test]
fn test_detach() {
    let pool = Pool::default();
    let (pool, object) = pool.pull("item1", || Obj::new(1)).detach();
    assert_eq!(object.idx, 1);
    assert_eq!(pool.len("item1"), 7);
    drop(object);
    assert_eq!(pool.len("item1"), 7);
}

#[test]
fn test_detach_then_attach() {
    let pool = Pool::default();
    let (pool, object) = pool.pull("item1", || Obj::new(1)).detach();
    assert_eq!(object.idx, 1);
    assert_eq!(pool.len("item1"), 7);
    pool.attach("item1", object);
    assert_eq!(pool.try_pull("item1").unwrap().get().idx, 1);
    assert_eq!(pool.len("item1"), 8);
}

#[test]
fn test_pull_and_size() {
    let pool = Pool::default();
    pool.attach("item1", Obj::new(1));
    assert_eq!(pool.size(), 1);

    let object1 = pool.try_pull("item1");
    let object2 = pool.try_pull("item1");
    let object3 = pool.pull("item2", || Obj::new(2));
    assert_eq!(pool.size(), 2);

    assert_eq!(object1.is_some(), true);
    assert_eq!(object2.is_none(), true);

    assert_eq!(pool.len("item1"), 0);
    drop(object1);
    assert_eq!(pool.len("item1"), 1);
    drop(object2);
    assert_eq!(pool.len("item1"), 1);

    assert_eq!(object3.get().idx, 2);
    assert_eq!(pool.len("item2"), 7);
    drop(object3);
    assert_eq!(pool.len("item2"), 8);
}

#[test]
fn test_fill_up_pool() {
    let pool = Pool::default();
    for x in 0..DEFAULT_POOL_INDEXES {
        pool.attach(&format!("item{}", x), Obj::new(x));
        assert_eq!(pool.size(), x + 1)
    }
    for x in 0..DEFAULT_POOL_INDEXES {
        assert_eq!(pool.len(&format!("item{}", x)), 1);
    }
}

fn wait_millis(ms: u64) {
    let start = std::time::Instant::now();
    while start.elapsed() < std::time::Duration::from_millis(ms) {}
}

#[test]
fn test_expire_pool() {
    let pool = Pool::new(32, 8, 1000);
    for x in 1..7 {
        pool.attach(&format!("item{}", x), Obj::new(x));
    }
    assert_eq!(pool.size(), 6);
    wait_millis(1500);
    for x in 1..7 {
        assert_eq!(pool.try_pull(&format!("item{})", x)).is_none(), true);
    }
    for x in 1..7 {
        pool.pull(&format!("item{})", x), || Obj::new(x));
    }
    for x in 1..7 {
        assert_eq!(pool.try_pull(&format!("item{})", x)).is_some(), true);
    }
}

#[test]
fn test_smoke() {
    let pool = Pool::default();
    for x in 0..10000 {
        let obj = pool.pull(&format!("item{}", x), || Obj::new(x));
        assert_eq!(obj.get().idx, x);
        if x >= 32 {
            assert!(pool.size() >= 31);
        }
    }
}

#[test]
fn pool_is_full_counts_distinct_keys() {
    let pool: Pool<u32> = Pool::new(2, 1, 1000);
    assert!(!pool.is_full());
    pool.attach("a", 1);
    assert!(!pool.is_full());
    pool.attach("b", 2);
    assert!(pool.is_full());
}

#[test]
fn pool_never_attached_reports_absent() {
    let pool: Pool<u32> = Pool::default();
    assert_eq!(pool.len("nowhere"), 0);
    assert!(pool.try_pull("nowhere").is_none());
    assert_eq!(pool.size(), 0);
}

#[test]
fn guard_replace_swaps_object() {
    let pool: Pool<u32> = Pool::new(4, 2, 1000);
    let mut guard = pool.pull("k", || 1u32);
    let old = guard.replace(9);
    assert_eq!(old, 1);
    assert_eq!(*guard.get(), 9);
}

#[test]
fn guard_drop_returns_object_to_pool() {
    let pool: Pool<u32> = Pool::new(4, 2, 1000);
    let guard = pool.pull("k", || 5u32);
    assert_eq!(pool.len("k"), 1);
    drop(guard);
    assert_eq!(pool.len("k"), 2);
    assert_eq!(*pool.try_pull("k").unwrap().get(), 5);
}
