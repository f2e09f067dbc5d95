use lib::arena;
use lib::rc_refcell;
use lib::Cache;

/// A small deterministic stream of operations: (is_put, key, value).
fn ops(n: usize) -> Vec<(bool, u32, u32)> {
    let mut state: u32 = 12345;
    let mut out = Vec::new();
    for _ in 0..n {
        state = state.wrapping_mul(1103515245).wrapping_add(12345);
        let is_put = (state >> 16) % 3 != 0;
        let key = (state >> 8) % 7;
        let value = state % 1000;
        out.push((is_put, key, value));
    }
    out
}

fn run<C: Cache<u32, u32>>(capacity: usize) -> Vec<Option<u32>> {
    let mut c = C::new(capacity);
    let mut seen = Vec::new();
    for (is_put, key, value) in ops(500) {
        if is_put {
            c.put(key, value);
        } else {
            seen.push(c.get(&key).copied());
        }
    }
    seen
}

/// A plain model: entries most recently used first.
fn run_model(capacity: usize) -> Vec<Option<u32>> {
    let mut entries: Vec<(u32, u32)> = Vec::new();
    let mut seen = Vec::new();
    for (is_put, key, value) in ops(500) {
        let pos = entries.iter().position(|e| e.0 == key);
        if is_put {
            match pos {
                Some(p) => {
                    entries.remove(p);
                }
                None => {
                    if entries.len() >= capacity {
                        entries.pop();
                    }
                }
            }
            entries.insert(0, (key, value));
        } else {
            match pos {
                Some(p) => {
                    let e = entries.remove(p);
                    entries.insert(0, e);
                    seen.push(Some(e.1));
                }
                None => seen.push(None),
            }
        }
    }
    seen
}

#[test]
fn both_designs_answer_every_lookup_alike() {
    for capacity in 1..6 {
        let a = run::<arena::LruCache<u32, u32>>(capacity);
        let b = run::<rc_refcell::LruCache<u32, u32>>(capacity);
        let m = run_model(capacity);
        assert_eq!(a, m);
        assert_eq!(b, m);
    }
}

#[test]
fn read_after_write_on_both_designs() {
    let mut a: arena::LruCache<i32, &str> = Cache::new(2);
    let mut b: rc_refcell::LruCache<i32, &str> = Cache::new(2);
    for (k, v) in [(1, "one"), (2, "two"), (3, "three"), (1, "uno")] {
        a.put(k, v);
        b.put(k, v);
        assert_eq!(a.get(&k).copied(), Some(v));
        assert_eq!(b.get(&k).copied(), Some(v));
    }
    assert!(a.get(&2).is_none());
    assert!(b.get(&2).is_none());
    assert_eq!(a.get(&3).copied(), Some("three"));
    assert_eq!(b.get(&3).copied(), Some("three"));
}
