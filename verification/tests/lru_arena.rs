use lib::arena::LruCache;
use lib::cache::Cache;

#[test]
fn get_on_empty_cache_returns_none() {
    let mut c: LruCache<i32, i32> = LruCache::new(2);
    assert!(c.get(&1).is_none());
}

#[test]
fn put_then_get_returns_value() {
    let mut c: LruCache<i32, i32> = LruCache::new(3);
    c.put(1, 10);
    assert_eq!(*c.get(&1).unwrap(), 10);
}

#[test]
fn put_overwrites_existing_key() {
    let mut c: LruCache<i32, i32> = LruCache::new(3);
    c.put(1, 10);
    c.put(1, 99);
    assert_eq!(*c.get(&1).unwrap(), 99);
}

#[test]
fn fills_below_capacity_without_eviction() {
    let mut c: LruCache<i32, i32> = LruCache::new(3);
    c.put(1, 10);
    c.put(2, 20);
    assert_eq!(*c.get(&1).unwrap(), 10);
    assert_eq!(*c.get(&2).unwrap(), 20);
}

#[test]
fn eviction_removes_least_recently_used() {
    let mut c: LruCache<i32, i32> = LruCache::new(2);
    c.put(1, 10);
    c.put(2, 20);
    c.put(3, 30); // evicts 1

    assert!(c.get(&1).is_none());
    assert_eq!(*c.get(&2).unwrap(), 20);
    assert_eq!(*c.get(&3).unwrap(), 30);
}

#[test]
fn get_refreshes_recency_and_protects_from_eviction() {
    let mut c: LruCache<i32, i32> = LruCache::new(2);
    c.put(1, 10);
    c.put(2, 20);
    c.get(&1); // 1 is now most recently used, 2 becomes LRU
    c.put(3, 30); // evicts 2, not 1

    assert!(c.get(&2).is_none());
    assert_eq!(*c.get(&1).unwrap(), 10);
    assert_eq!(*c.get(&3).unwrap(), 30);
}

#[test]
fn put_on_existing_key_also_refreshes_recency() {
    let mut c: LruCache<i32, i32> = LruCache::new(2);
    c.put(1, 10);
    c.put(2, 20);
    c.put(1, 11); // touches 1, 2 becomes LRU
    c.put(3, 30); // evicts 2, not 1

    assert!(c.get(&2).is_none());
    assert_eq!(*c.get(&1).unwrap(), 11);
    assert_eq!(*c.get(&3).unwrap(), 30);
}

#[test]
fn repeated_eviction_reuses_freed_slots() {
    let mut c: LruCache<i32, i32> = LruCache::new(2);
    for i in 0..10 {
        c.put(i, i * 100);
    }

    assert!(c.get(&7).is_none());
    assert_eq!(*c.get(&8).unwrap(), 800);
    assert_eq!(*c.get(&9).unwrap(), 900);
}

#[test]
fn evicted_key_can_be_reinserted() {
    let mut c: LruCache<i32, i32> = LruCache::new(2);
    c.put(1, 10);
    c.put(2, 20);
    c.put(3, 30); // evicts 1
    c.put(1, 111); // re-insert 1, evicts 2 (now LRU)

    assert!(c.get(&2).is_none());
    assert_eq!(*c.get(&1).unwrap(), 111);
    assert_eq!(*c.get(&3).unwrap(), 30);
}

#[test]
fn capacity_of_one_evicts_every_put() {
    let mut c: LruCache<i32, i32> = LruCache::new(1);
    c.put(1, 10);
    c.put(2, 20);

    assert!(c.get(&1).is_none());
    assert_eq!(*c.get(&2).unwrap(), 20);
}

// Further cases.

#[test]
fn arena_middle_entry_moves_to_front() {
    let mut c: LruCache<u64, u64> = LruCache::new(3);
    c.put(1, 1);
    c.put(2, 2);
    c.put(3, 3); // order: 3 2 1
    assert_eq!(*c.get(&2).unwrap(), 2); // order: 2 3 1
    c.put(4, 4); // evicts 1; order: 4 2 3
    assert!(c.get(&1).is_none());
    c.put(5, 5); // evicts 3
    assert!(c.get(&3).is_none());
    assert_eq!(*c.get(&2).unwrap(), 2);
    assert_eq!(*c.get(&4).unwrap(), 4);
    assert_eq!(*c.get(&5).unwrap(), 5);
}

#[test]
fn arena_get_of_head_changes_nothing() {
    let mut c: LruCache<u8, u8> = LruCache::new(2);
    c.put(1, 10);
    c.put(2, 20);
    assert_eq!(*c.get(&2).unwrap(), 20);
    assert_eq!(*c.get(&2).unwrap(), 20);
    c.put(3, 30); // evicts 1
    assert!(c.get(&1).is_none());
    assert_eq!(*c.get(&2).unwrap(), 20);
}

#[test]
fn arena_miss_changes_nothing() {
    let mut c: LruCache<i32, i32> = LruCache::new(2);
    c.put(1, 10);
    c.put(2, 20);
    assert!(c.get(&7).is_none());
    c.put(3, 30); // still evicts 1
    assert!(c.get(&1).is_none());
    assert_eq!(*c.get(&2).unwrap(), 20);
}

fn basic_put_get<C: Cache<i32, i32>>() {
    let mut c = C::new(3);
    assert!(c.get(&1).is_none());

    c.put(1, 10);
    assert_eq!(*c.get(&1).unwrap(), 10);

    c.put(1, 99);
    assert_eq!(*c.get(&1).unwrap(), 99);
}

fn eviction_and_recency<C: Cache<i32, i32>>() {
    let mut c = C::new(2);
    c.put(1, 10);
    c.put(2, 20);
    c.get(&1); // 1 is now most recently used, 2 becomes LRU
    c.put(3, 30); // evicts 2, not 1

    assert!(c.get(&2).is_none());
    assert_eq!(*c.get(&1).unwrap(), 10);
    assert_eq!(*c.get(&3).unwrap(), 30);
}

fn repeated_eviction_reuses_capacity<C: Cache<i32, i32>>() {
    let mut c = C::new(2);
    for i in 0..20 {
        c.put(i, i * 100);
    }

    assert!(c.get(&17).is_none());
    assert_eq!(*c.get(&18).unwrap(), 1800);
    assert_eq!(*c.get(&19).unwrap(), 1900);
}

#[test]
fn arena_basic_put_get() {
    basic_put_get::<LruCache<i32, i32>>();
}

#[test]
fn arena_eviction_and_recency() {
    eviction_and_recency::<LruCache<i32, i32>>();
}

#[test]
fn arena_repeated_eviction_reuses_capacity() {
    repeated_eviction_reuses_capacity::<LruCache<i32, i32>>();
}

#[test]
fn rc_refcell_basic_put_get() {
    basic_put_get::<lib::rc_refcell::LruCache<i32, i32>>();
}

#[test]
fn rc_refcell_eviction_and_recency() {
    eviction_and_recency::<lib::rc_refcell::LruCache<i32, i32>>();
}

#[test]
fn rc_refcell_repeated_eviction_reuses_capacity() {
    repeated_eviction_reuses_capacity::<lib::rc_refcell::LruCache<i32, i32>>();
}

#[test]
fn rc_refcell_middle_entry_moves_to_front() {
    let mut c: lib::rc_refcell::LruCache<u64, u64> = Cache::new(3);
    c.put(1, 1);
    c.put(2, 2);
    c.put(3, 3);
    assert_eq!(*c.get(&2).unwrap(), 2);
    c.put(4, 4);
    assert!(c.get(&1).is_none());
    c.put(5, 5);
    assert!(c.get(&3).is_none());
    assert_eq!(*c.get(&2).unwrap(), 2);
}
