use value_pool::linked_list::{reuse_insert_left, reuse_insert_right, DoubleLinkedList, DoubleLinkedView};

fn get_ll() -> DoubleLinkedList<u32> {
    let mut l = DoubleLinkedList::new();
    l.push(32);
    l.push(12);
    l.push(55);
    l.push(12);
    l // 32,12,55,12
}

fn get_large_data() -> Vec<(u32, usize)> {
    vec![
        (860, 0),
        (587, 0),
        (151, 0),
        (246, 0),
        (77, 3),
        (334, 4),
        (49, 5),
        (448, 4),
        (571, 4),
        (35, 5),
        (45, 1),
        (384, 1),
        (63, 0),
        (959, 10),
        (148, 13),
        (787, 0),
        (610, 16),
        (384, 6),
        (468, 4),
        (399, 16),
        (884, 3),
        (690, 13),
        (275, 18),
        (100, 23),
        (810, 3),
        (828, 16),
        (273, 23),
        (771, 14),
        (70, 24),
        (940, 23),
        (880, 7),
        (522, 15),
        (481, 2),
        (286, 4),
        (911, 5),
        (257, 34),
        (771, 36),
        (565, 15),
        (224, 19),
        (721, 32),
        (194, 31),
        (74, 26),
        (338, 20),
        (197, 16),
        (90, 27),
        (624, 28),
        (416, 24),
        (463, 12),
        (562, 47),
        (454, 19),
        (352, 46),
        (753, 42),
        (195, 10),
        (442, 38),
        (258, 43),
        (998, 24),
        (437, 36),
        (673, 33),
        (525, 47),
        (410, 24),
        (188, 57),
        (788, 39),
    ]
}

#[test]
fn test_get() {
    let l = get_ll();
    assert_eq!(l.len(), 4);
    assert_eq!(l.get(0), Some(&32));
    assert_eq!(l.get(1), Some(&12));
    assert_eq!(l.len(), 4);
    assert_eq!(l.get(2), Some(&55));
    assert_eq!(l.get(3), Some(&12));
    assert_eq!(l.get(4), None);
}

#[test]
fn test_pop() {
    let mut l = get_ll();
    assert_eq!(l.len(), 4);
    assert_eq!(l.pop(), Some(12));
    assert_eq!(l.len(), 3);
    assert_eq!(l.pop(), Some(55));
    assert_eq!(l.pop(), Some(12));
    assert_eq!(l.len(), 1);
    assert_eq!(l.pop(), Some(32));
    assert_eq!(l.len(), 0);
    assert_eq!(l.pop(), None);
}

#[test]
fn test_view() {
    let l = get_ll();
    let view1 = l.get_view(0).unwrap();
    let view2 = l.get_view(l.len() - 1).unwrap();

    assert!(l.get_view(l.len()).is_none());

    assert_eq!(l.peek_view(view1), Some(&32));
    assert_eq!(l.peek_view(view2), Some(&12));
}

#[test]
fn test_insert_left() {
    let mut l = get_ll();
    let view1 = l.get_view(0).unwrap();
    let view2 = l.get_view(l.len() - 1).unwrap();

    assert!(l.insert_left(&view1, 0).is_some());
    assert!(l.insert_left(&view2, 1).is_some());

    assert_eq!(vec![0, 32, 12, 55, 1, 12], l.into_vec());
}

#[test]
fn test_reuse_insert_left() {
    let mut l = get_ll(); // 32,12,55,12
    let mut old_view = l.push(76); // 32,12,55,12,76
    let old_insert = (l.len() - 1, old_view);

    // => 32,12,10,55,12,76
    old_view =
        reuse_insert_left(&mut l, (old_insert.0, &old_insert.1), (2, 10)).expect("valid view");

    // => 32,12,10,55,80, 12,76
    reuse_insert_left(&mut l, (2, &old_view), (4, 80));
    assert_eq!(vec![32, 12, 10, 55, 80, 12, 76], l.into_vec());
}

#[test]
fn test_insert_right() {
    let mut l = get_ll();
    let view1 = l.get_view(0).unwrap();
    let view2 = l.get_view(l.len() - 1).unwrap();

    assert!(l.insert_right(&view1, 0).is_some());
    assert!(l.insert_right(&view2, 1).is_some());

    assert_eq!(vec![32, 0, 12, 55, 12, 1], l.into_vec());
}

#[test]
fn test_swap() {
    let mut l = get_ll(); // [32,12,55,12]
    let view1 = l.get_view(0).unwrap(); // 32
    let view2 = l.get_view(l.len() - 1).unwrap(); // last 12

    assert!(l.swap(&view1, &view2).is_some());

    assert_eq!(vec![12, 12, 55, 32], l.clone().into_vec());

    let view3 = l.get_view(2).unwrap(); // view should point to 55

    assert!(l.swap(&view1, &view3).is_some());

    assert_eq!(vec![12, 12, 32, 55], l.into_vec());
}

#[test]
fn test_inner_swap() {
    let mut l = get_ll(); // [32,12,55,12]
    let mut view1 = l.get_view(0).unwrap(); // 32
    let view2 = l.get_view(l.len() - 1).unwrap(); // last 12

    (view1, _) = l.inner_swap(view1, view2).unwrap();

    assert_eq!(vec![12, 12, 55, 32], l.clone().into_vec());

    let view3 = l.get_view(2).unwrap(); // view should point to 55

    assert!(l.inner_swap(view1, view3).is_some());

    assert_eq!(vec![12, 12, 32, 55], l.into_vec());
}

#[test]
fn test_insert() {
    let mut l = get_ll();
    let inserts = [(6, 0), (3, 0), (4, 3), (2, 5)];
    for (value, index) in inserts.iter() {
        l.insert(*index, *value);
    }
    assert_eq!(vec![3, 6, 32, 4, 12, 2, 55, 12], l.into_vec());
}

#[test]
fn test_multi_insert() {
    let mut l = get_ll();
    let mut compare_l = get_ll();
    let data = get_large_data();

    for (value, index) in data.iter() {
        compare_l.insert(*index, *value);
    }
    l.multi_insert(data.into_iter().map(|(v, i)| (i, v)).collect());
    assert_eq!(compare_l.into_vec(), l.into_vec());
}

#[test]
fn test_multi_insert_2() {
    let mut l = get_ll();
    let mut compare_l = get_ll();
    let data = vec![(3, 10), (1, 20), (0, 30), (2, 40), (4, 50)];

    for (index, value) in data.iter() {
        compare_l.insert(*index, *value);
    }
    l.multi_insert(data);
    assert_eq!(compare_l.into_vec(), l.into_vec());
}

#[test]
fn test_multi_push_get() {
    let mut l = get_ll();
    let mut compare_l = get_ll();
    let data = get_large_data();

    for (value, _) in data.iter() {
        compare_l.push(*value);
    }
    l.multi_push(data.iter().map(|(value, _)| *value).collect());
    assert_eq!(compare_l.clone().into_vec(), l.clone().into_vec());

    let indexes = vec![12, 2, 14, 3, 5, 20];
    let iterative_gotten_views: Vec<DoubleLinkedView<u32>> = indexes
        .iter()
        .map(|index| l.get_view(*index).unwrap())
        .collect();
    assert_eq!(
        l.multi_get_view(indexes.clone()).unwrap(),
        iterative_gotten_views
    );
    assert_eq!(
        compare_l.multi_get_view(indexes).unwrap(),
        iterative_gotten_views
    );
}

#[test]
fn test_multi_push_front() {
    let mut l = get_ll();
    let mut compare_l = get_ll();
    let data = get_large_data();

    for (value, _) in data.iter() {
        compare_l.push_front(*value);
    }
    l.multi_push_front(data.iter().map(|(value, _)| *value).collect());
    assert_eq!(compare_l.into_vec(), l.into_vec());
}

#[test]
fn test_order_matches_reference_vec() {
    let mut l: DoubleLinkedList<u32> = DoubleLinkedList::new();
    let mut reference: Vec<u32> = Vec::new();
    for v in [7, 3, 9] {
        l.push(v);
        reference.push(v);
    }
    l.push_front(1);
    reference.insert(0, 1);
    l.insert(2, 4);
    reference.insert(2, 4);
    l.pop();
    reference.pop();
    let view = l.get_view(1).unwrap();
    l.insert_right(&view, 8);
    reference.insert(2, 8);
    assert_eq!(l.into_vec(), reference);
}

#[test]
fn test_iterators_match_get() {
    let l = get_ll(); // 32,12,55,12
    let mut forward = l.iter();
    assert_eq!(forward.size_hint(), (4, Some(4)));
    let mut collected: Vec<u32> = Vec::new();
    while let Some(v) = forward.next(&l) {
        collected.push(*v);
    }
    assert_eq!(collected, vec![32, 12, 55, 12]);
    assert_eq!(forward.size_hint(), (0, Some(0)));
    assert_eq!(forward.next(&l), None);

    let mut backward = l.iter_reverse();
    let mut rev_collected: Vec<u32> = Vec::new();
    while let Some(v) = backward.next(&l) {
        rev_collected.push(*v);
    }
    assert_eq!(rev_collected, vec![12, 55, 12, 32]);

    for i in 0..l.len() {
        assert_eq!(l.get(i), Some(&collected[i]));
        assert_eq!(l.get(i), Some(&rev_collected[l.len() - 1 - i]));
    }
}

#[test]
fn test_into_iterator_partial_consumption() {
    let l = get_ll();
    let mut it = l.into_iter();
    assert_eq!(it.next(), Some(32));
    assert_eq!(it.next(), Some(12));
    // dropping the iterator here with two values left is fine
}

#[test]
fn test_from_vec_round_trip() {
    let values = vec![5, 4, 3, 2, 1];
    let l = DoubleLinkedList::from_vec(values.clone());
    assert_eq!(l.len(), 5);
    assert_eq!(l.get(0), Some(&5));
    assert_eq!(l.into_vec(), values);
    let empty: Vec<u32> = Vec::new();
    assert_eq!(DoubleLinkedList::from_vec(empty).into_vec(), Vec::<u32>::new());
}

#[test]
fn test_swap_view_stability() {
    let mut l = get_ll(); // 32,12,55,12
    let view_a = l.get_view(0).unwrap(); // 32
    let view_b = l.get_view(2).unwrap(); // 55
    assert!(l.swap(&view_a, &view_b).is_some());
    // both views still denote their values; the order shows the exchange
    assert_eq!(l.peek_view(l.get_view(0).unwrap()), Some(&55));
    assert_eq!(l.peek_view(view_a), Some(&32));
    assert_eq!(l.peek_view(view_b), Some(&55));
    assert_eq!(l.clone().into_vec(), vec![55, 12, 32, 12]);
    // swapping an endpoint keeps start and end right
    let head = l.get_view(0).unwrap();
    let tail = l.get_view(3).unwrap();
    assert!(l.swap(&head, &tail).is_some());
    assert_eq!(l.get(0), Some(&12));
    assert_eq!(l.get(3), Some(&55));
    assert_eq!(l.pop(), Some(55));
}

#[test]
fn test_neighbour_walks() {
    let l = get_ll(); // 32,12,55,12
    let middle = l.get_view(2).unwrap(); // 55
    let left = l.get_left_neighbour(&middle, 2).unwrap();
    assert_eq!(l.peek_view(left), Some(&32));
    let right = l.get_right_neighbour(&middle, 1).unwrap();
    assert_eq!(l.peek_view(right), Some(&12));
    let middle_again = l.get_view(2).unwrap();
    assert!(l.get_left_neighbour(&middle_again, 3).is_none());
    assert!(l.get_right_neighbour(&middle_again, 2).is_none());
    let same = l.get_left_neighbour(&l.get_view(2).unwrap(), 0).unwrap();
    assert_eq!(l.peek_view(same), Some(&55));
}

#[test]
fn test_stale_view_after_pop() {
    let mut l = get_ll();
    let last_view = l.get_view(3).unwrap();
    assert_eq!(l.pop(), Some(12));
    assert_eq!(l.peek_view(last_view), None);
    let mut l2: DoubleLinkedList<u32> = DoubleLinkedList::new();
    assert_eq!(l2.pop(), None);
    assert!(l2.get_view(0).is_none());
    assert!(l2.insert(0, 1).is_none());
}

#[test]
fn test_get_mut_and_peek_view_mut() {
    let mut l = get_ll();
    if let Some(v) = l.get_mut(1) {
        *v = 99;
    }
    assert_eq!(l.get(1), Some(&99));
    assert_eq!(l.get_mut(4), None);
    let view = l.get_view(2).unwrap();
    if let Some(v) = l.peek_view_mut(view) {
        *v = 100;
    }
    assert_eq!(l.get(2), Some(&100));
}

#[test]
fn test_multi_get() {
    let l = get_ll(); // 32,12,55,12
    let values = l.multi_get(vec![3, 0, 9, 2]).unwrap();
    assert_eq!(values, vec![&12, &32, &55]);
}

#[test]
fn test_multi_insert_empty_cases() {
    let mut l: DoubleLinkedList<u32> = DoubleLinkedList::new();
    assert!(l.multi_insert(vec![(0, 1), (3, 2)]).is_some());
    assert_eq!(l.len(), 0);
    assert!(l.multi_push(Vec::new()).is_none());
    assert!(l.multi_push_front(Vec::new()).is_none());
    assert!(l.multi_push(vec![1, 2]).is_some());
    assert_eq!(l.into_vec(), vec![1, 2]);
}

#[test]
fn test_reuse_insert_right_paths() {
    let mut l = get_ll(); // 32,12,55,12
    let anchor = l.get_view(1).unwrap(); // 12 at position 1
    // nearer via the anchor: insert right of position 2
    let v = reuse_insert_right(&mut l, (1, &anchor), (2, 70)).unwrap();
    assert_eq!(l.peek_view(v), Some(&70));
    assert_eq!(l.clone().into_vec(), vec![32, 12, 55, 70, 12]);
    // out of range gives nothing
    assert!(reuse_insert_right(&mut l, (1, &anchor), (9, 71)).is_none());
    // fall back to a fresh walk when the anchor is no closer
    let anchor2 = l.get_view(4).unwrap();
    assert!(reuse_insert_right(&mut l, (4, &anchor2), (0, 72)).is_some());
    assert_eq!(l.into_vec(), vec![32, 72, 12, 55, 70, 12]);
}

#[test]
fn test_pop_single_element_off_origin() {
    // leave the single remaining node at an arena position other than 0
    let mut l: DoubleLinkedList<u32> = DoubleLinkedList::new();
    l.push(10);
    l.push_front(20); // head lives in a later arena slot than the tail
    assert_eq!(l.pop(), Some(10));
    assert_eq!(l.len(), 1);
    assert_eq!(l.pop(), Some(20));
    assert_eq!(l.pop(), None);
    assert_eq!(l.len(), 0);
    l.push(30);
    assert_eq!(l.get(0), Some(&30));
}
