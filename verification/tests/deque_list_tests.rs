use lfll::{List, LockFreeDequeList};

fn keys_of<T>(list: &LockFreeDequeList<T>) -> Vec<i64> {
    let mut it = list.iter();
    let mut out = Vec::new();
    while let Some((k, _)) = it.next() {
        out.push(*k);
    }
    out
}

#[test]
fn deque_list_test_basic_sequential_operations() {
    let mut list = LockFreeDequeList::<&'static str>::new();

    assert_eq!(list.push_back("A"), 1);
    assert_eq!(list.push_back("C"), 2);
    assert_eq!(list.push_back("B"), 3);

    assert!(list.contains(&1));
    assert!(list.contains(&2));
    assert!(list.contains(&3));
    assert!(!list.contains(&4), "Should not contain uninserted keys");

    assert!(list.delete(&2), "Deleting existing element should succeed");
    assert!(!list.contains(&2), "Element should be gone after deletion");
    assert!(!list.delete(&5), "Deleting non-existent element should fail");

    assert!(list.contains(&1));
    assert!(list.contains(&3));
}

#[test]
fn deque_list_push_front_counts_down_from_zero() {
    let mut list = LockFreeDequeList::<i64>::new();
    assert_eq!(list.push_front(100), 0);
    assert_eq!(list.push_front(200), -1);
    assert_eq!(list.push_front(300), -2);
    assert_eq!(keys_of(&list), vec![-2, -1, 0]);
    assert_eq!(list.get(&-2), Some(&300));
    assert_eq!(list.get(&0), Some(&100));
}

#[test]
fn deque_list_front_pushes_come_before_back_pushes() {
    let mut list = LockFreeDequeList::<&'static str>::new();
    assert_eq!(list.push_back("b1"), 1);
    assert_eq!(list.push_front("f0"), 0);
    assert_eq!(list.push_back("b2"), 2);
    assert_eq!(list.push_front("f1"), -1);
    let mut it = list.iter();
    let mut values = Vec::new();
    while let Some((_, v)) = it.next() {
        values.push(*v);
    }
    assert_eq!(values, vec!["f1", "f0", "b1", "b2"]);
}

#[test]
fn deque_list_reserved_back_keys() {
    let mut list = LockFreeDequeList::<&'static str>::new();
    let first = list.reserve_back();
    let second = list.reserve_back();
    assert_eq!((first, second), (1, 2));
    assert_eq!(list.push_back_reserved("second", second), 2);
    assert_eq!(list.push_back_reserved("first", first), 1);
    assert_eq!(list.push_back("third"), 3);
    assert_eq!(keys_of(&list), vec![1, 2, 3]);
    assert_eq!(list.get(&1), Some(&"first"));
}

#[test]
fn deque_list_push_back_after_deleting_tail() {
    let mut list = LockFreeDequeList::<i32>::new();
    assert_eq!(list.push_back(10), 1);
    assert_eq!(list.push_back(20), 2);
    assert!(list.delete(&2));
    assert_eq!(list.push_back(30), 3);
    assert_eq!(keys_of(&list), vec![1, 3]);
    assert!(list.delete(&1));
    assert!(list.delete(&3));
    assert!(list.is_empty());
    assert_eq!(list.push_back(40), 4);
    assert_eq!(keys_of(&list), vec![4]);
}

#[test]
fn deque_list_pop_front_in_order() {
    let mut list = LockFreeDequeList::<&'static str>::new();
    list.push_back("x");
    list.push_back("y");
    list.push_front("w");
    assert_eq!(list.pop_front(), Some((&0, &"w")));
    assert_eq!(list.pop_front(), Some((&1, &"x")));
    assert_eq!(list.pop_front(), Some((&2, &"y")));
    assert_eq!(list.pop_front(), None);
}

#[test]
fn deque_list_contains_many_and_garbage() {
    let mut list = LockFreeDequeList::<i64>::new();
    for i in 1..=6 {
        assert_eq!(list.push_back(i), i);
    }
    assert!(list.delete(&2));
    assert!(list.delete(&5));
    assert_eq!(
        list.contains_many(&[1, 2, 3, 4, 5, 6, 6]),
        vec![true, false, true, true, false, true, false]
    );
    assert_eq!(list.take_garbage().len(), 2);
}

#[test]
fn deque_list_tail_node_follows_back_pushes() {
    let mut list = LockFreeDequeList::<i32>::new();
    assert_eq!(list.tail_node(), 0);
    list.push_back(1);
    let t = list.tail_node();
    assert_ne!(t, 0);
    assert_ne!(t, list.head_node());
    assert_eq!(list.search_node(&1), Some(t));
}

#[test]
fn deque_list_uninit_then_init() {
    let mut list = LockFreeDequeList::<i32>::uninit();
    list.init();
    assert!(list.is_empty());
    assert_eq!(list.push_back(5), 1);
    assert!(list.contains(&1));
}

#[test]
fn deque_list_many_pushes_then_contains_many() {
    let mut back = LockFreeDequeList::<i64>::new();
    let mut front = LockFreeDequeList::<i64>::new();
    let total = 8000i64;
    for i in 0..total {
        assert_eq!(back.push_back(i), i + 1);
        assert_eq!(front.push_front(i), -i);
    }
    let back_keys: Vec<i64> = (1..=total).collect();
    let front_keys: Vec<i64> = (0..total).map(|i| -i).collect();
    assert!(back.contains_many(&back_keys).iter().all(|&b| b));
    assert!(front.contains_many(&front_keys).iter().all(|&b| b));
}

#[test]
fn deque_list_delete_all_then_prune() {
    let mut list = LockFreeDequeList::<i64>::new();
    for i in 1..=1000 {
        list.push_back(i);
    }
    for i in (2..=1000).step_by(2) {
        assert!(list.delete(&i));
    }
    for i in (1..=1000).step_by(2) {
        assert!(list.delete(&i));
    }
    let keys: Vec<i64> = (1..=1000).collect();
    assert!(list.contains_many(&keys).iter().all(|&b| !b));
    assert_eq!(list.take_garbage().len(), 1000);
}

#[test]
fn deque_list_head_key_is_below_every_sequence_key() {
    let list = LockFreeDequeList::<i32>::new();
    let head = list.head_node();
    assert_eq!(list.node_key(head), i64::MIN);
}

#[test]
fn deque_list_init_again_keeps_entries() {
    let mut list = LockFreeDequeList::<i32>::new();
    assert_eq!(list.push_back(7), 1);
    assert_eq!(list.push_front(6), 0);
    list.init();
    assert_eq!(keys_of(&list), vec![0, 1]);
    assert_eq!(list.push_back(8), 2);
    assert_eq!(keys_of(&list), vec![0, 1, 2]);
}
