use value_pool::comptime_alive_index::AliveValuePool;
use value_pool::runtime_alive_index::ValuePoolEntry;

#[test]
fn comptime_alive_index_test_general() {
    let mut pool = AliveValuePool::new();
    let zero_idx = pool.push(0);

    let two_idx = pool.push(2);

    assert_eq!(pool.get(zero_idx.clone()), &0);
    *pool.get_mut(two_idx.clone()) = 22;

    assert_eq!(pool.get(two_idx.clone()), &22);

    pool.swap(zero_idx.clone(), two_idx.clone());

    assert_eq!(pool.get(zero_idx), &22);
    assert_eq!(pool.get(two_idx), &0);
}

#[test]
fn test_entry_new() {
    let entry = ValuePoolEntry::new(41);
    // the entry exists; its contents are reachable only through the pools
    let _ = entry;
}
