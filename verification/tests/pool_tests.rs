use value_pool::{UntypedValueRef, ValuePool, ValueRef};

fn get_store() -> ValuePool<u32> {
    let mut store: ValuePool<u32> = ValuePool::with_capacity(10);

    for i in [12, 3, 123, 5, 1, 5, 8, 3, 0, 74, 52] {
        store.push(i);
    }
    store
}

#[test]
fn test_simple_stats() {
    let mut store: ValuePool<u32> = ValuePool::with_capacity(8);

    for i in [12, 3, 123, 5, 1, 5, 8, 3] {
        store.push(i);
    }
    let ref_to_123 = ValueRef::new(2);
    store.remove(ref_to_123);

    assert_eq!(store.element_count(), 7);
    assert_eq!(store.waiting_positions(), 1);
    assert_eq!(store.capacity(), 8);
}

#[test]
fn test_next_push_ref() {
    let mut store = get_store(); // 12,3,123,5,1,5,8,3,0,74,52
    assert_eq!(store.next_push_ref(), ValueRef::new(11));

    store.remove(ValueRef::new(2));
    assert_eq!(store.next_push_ref(), ValueRef::new(2));
    store.push(9);

    // 12,3,9,5,1,5,8,3,0,74,52 => 12,3,9,1,5,8,3,0,74,52
    store.remove_full(ValueRef::new(3));
    assert_eq!(store.next_push_ref(), ValueRef::new(10));
}

#[test]
fn test_push_get_round_trip() {
    let mut pool: ValuePool<String> = ValuePool::new();
    let r = pool.push(String::from("alpha"));
    assert_eq!(pool.get(r), Some(&String::from("alpha")));
    let s = pool.push(String::from("beta"));
    assert_eq!(pool.get(s), Some(&String::from("beta")));
    assert_eq!(pool.get(r), Some(&String::from("alpha")));
}

#[test]
fn test_take_idempotent() {
    let mut pool: ValuePool<u32> = ValuePool::new();
    pool.push(2);
    let ref_to_3 = pool.push(3);
    pool.push(4);
    assert_eq!(pool.take(ref_to_3), Some(3));
    assert_eq!(pool.take(ref_to_3), None);
    // a new occupancy of the same slot can be taken exactly once again
    let again = pool.push(30);
    assert_eq!(again, ref_to_3);
    assert_eq!(pool.take(ref_to_3), Some(30));
    assert_eq!(pool.take(ref_to_3), None);
}

#[test]
fn test_element_count_accounting() {
    let mut pool: ValuePool<u32> = ValuePool::new();
    let mut pushes = 0usize;
    let mut removals = 0usize;
    let a = pool.push(1);
    pushes += 1;
    let b = pool.push(2);
    pushes += 1;
    let c = pool.push(3);
    pushes += 1;
    assert_eq!(pool.element_count(), pushes - removals);
    assert!(pool.take(b).is_some());
    removals += 1;
    assert_eq!(pool.element_count(), pushes - removals);
    // an unsuccessful take does not count
    assert!(pool.take(b).is_none());
    assert_eq!(pool.element_count(), pushes - removals);
    pool.remove(a);
    removals += 1;
    assert_eq!(pool.element_count(), pushes - removals);
    pool.push(4);
    pushes += 1;
    assert!(pool.take(c).is_some());
    removals += 1;
    assert_eq!(pool.element_count(), pushes - removals);
    assert!(!pool.is_empty());
}

#[test]
fn test_lifo_reuse() {
    let mut pool: ValuePool<u32> = ValuePool::new();
    pool.push(10);
    let p = pool.push(20);
    pool.push(30);
    pool.remove(p); // not the trailing position
    let q = pool.push(40);
    assert_eq!(q, p);
    assert_eq!(pool.get(p), Some(&40));
    // the most recently freed position wins over older ones
    let a = pool.push(50);
    let b = pool.push(60);
    pool.take(a);
    pool.take(b);
    let again = pool.push(70);
    assert_eq!(again, b);
}

#[test]
fn test_remove_trailing_shrinks() {
    let mut pool: ValuePool<u32> = ValuePool::new();
    pool.push(1);
    let last = pool.push(2);
    pool.remove(last);
    assert_eq!(pool.element_count(), 1);
    assert_eq!(pool.waiting_positions(), 0);
    assert_eq!(pool.next_push_ref(), last);
}

#[test]
fn test_get_out_of_range() {
    let mut pool: ValuePool<u32> = ValuePool::new();
    pool.push(5);
    assert_eq!(pool.get(ValueRef::new(7)), None);
    assert_eq!(pool.get_mut(ValueRef::new(7)), None);
    assert_eq!(pool.take(ValueRef::new(7)), None);
    assert!(!pool.has_item(ValueRef::new(7)));
    assert!(!pool.is_ref_in_bounce(ValueRef::new(7)));
    assert!(pool.is_ref_in_bounce(ValueRef::new(0)));
}

#[test]
fn test_swap_and_stale_refs() {
    let mut pool: ValuePool<u32> = ValuePool::new();
    let mut ref_to_13 = pool.push(13);
    let mut ref_to_14 = pool.push(14);
    let copy_ref_to_14 = ref_to_14;
    let swapped = pool.swap(ref_to_13, ref_to_14);
    assert!(swapped.is_some());
    (ref_to_13, ref_to_14) = swapped.unwrap();
    assert_eq!(ref_to_13, copy_ref_to_14);
    assert_eq!(pool.get(ref_to_13), Some(&13));
    assert_eq!(pool.get(ref_to_14), Some(&14));
    // out of bounds: nothing happens
    assert!(pool.swap(ValueRef::new(0), ValueRef::new(9)).is_none());
}

#[test]
fn test_get_mut_writes_through() {
    let mut pool: ValuePool<u32> = ValuePool::new();
    let r = pool.push(1);
    if let Some(v) = pool.get_mut(r) {
        *v = 99;
    }
    assert_eq!(pool.get(r), Some(&99));
    assert_eq!(pool.get_unchecked(r), Some(&99));
    if let Some(v) = pool.get_unchecked_mut(r) {
        *v = 100;
    }
    assert_eq!(pool.take_unchecked(r), Some(100));
    assert_eq!(pool.take_unchecked(r), None);
}

#[test]
fn test_find() {
    let mut pool = ValuePool::new();
    pool.push(1);
    pool.push(2);
    pool.push(3);
    pool.push(4);
    assert_eq!(pool.find(&3), Some(ValueRef::new(2)));

    pool.remove(ValueRef::new(2));
    pool.push(5); // reuses position 2
    pool.push(3);
    assert_eq!(pool.find(&3), Some(ValueRef::new(4)));
    assert_eq!(pool.find(&77), None);
}

#[test]
fn test_clear_and_reserve() {
    let mut pool = ValuePool::new();
    pool.push(1);
    pool.push(2);
    pool.push(3);
    assert_eq!(pool.element_count(), 3);
    pool.reserve(100);
    assert_eq!(pool.element_count(), 3);
    assert!(pool.capacity() >= 3);
    pool.clear();
    assert_eq!(pool.element_count(), 0);
    assert!(pool.is_empty());
    assert_eq!(pool.waiting_positions(), 0);
}

#[test]
fn test_remove_full_relocates() {
    let mut pool: ValuePool<u32> = ValuePool::new();
    pool.push(1);
    let middle = pool.push(2);
    let last = pool.push(3);
    assert_eq!(pool.remove_full(middle), Some(2));
    // the former last element now sits at the removed position
    assert_eq!(pool.get(middle), Some(&3));
    assert_eq!(pool.get(last), None);
    assert_eq!(pool.element_count(), 2);
}

#[test]
fn test_untyped_conversions() {
    let value_ref: ValueRef<usize> = ValueRef::new(2);
    let untyped: UntypedValueRef = value_ref.into();
    assert_eq!(untyped, UntypedValueRef::new(2));
    let typed_again: ValueRef<u8> = untyped.into();
    assert_eq!(typed_again, ValueRef::new(2));
    assert_eq!(UntypedValueRef::default(), UntypedValueRef::new(0));
    assert_eq!(ValueRef::<u32>::default(), ValueRef::new(0));
    assert!(UntypedValueRef::new(1) < UntypedValueRef::new(2));
    assert!(ValueRef::<u32>::new(3) > ValueRef::new(2));
}
