use castlemaker::CounterMap;

#[test]
fn fresh_allocator_hands_out_consecutive_keys() {
    let mut store: CounterMap<u32> = CounterMap::new();
    let n: usize = 25;
    for expected in 0..n {
        let key = store.push(expected as u32 * 10);
        assert_eq!(key, expected);
    }
    assert_eq!(store.len(), n);
    for key in 0..n {
        assert_eq!(store.get(key), Some(&(key as u32 * 10)));
    }
}

#[test]
fn removal_does_not_reclaim_keys() {
    let mut store: CounterMap<&'static str> = CounterMap::new();
    let a = store.push("first");
    let b = store.push("second");
    assert_eq!(a, 0);
    assert_eq!(b, 1);
    assert_eq!(store.remove(a), Some("first"));
    assert_eq!(store.get(a), None);
    let c = store.push("third");
    assert_eq!(c, 2);
    assert_eq!(store.get(b), Some(&"second"));
    assert_eq!(store.get(c), Some(&"third"));
}

#[test]
fn update_touches_only_live_keys() {
    let mut store: CounterMap<u8> = CounterMap::new();
    let k = store.push(7);
    assert!(store.update(k, 9));
    assert_eq!(store.get(k), Some(&9));
    assert!(!store.update(5, 1));
    assert_eq!(store.len(), 1);
    store.remove(k);
    assert!(!store.update(k, 2));
    assert_eq!(store.get(k), None);
}
