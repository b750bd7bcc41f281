use lfll::garbage::{ScopedGarbageCollector, ThreadedGC};
use lfll::{LinkedNode, List, LockFreeLinkedList};

fn keys_of(list: &LockFreeLinkedList<i32, &'static str>) -> Vec<i32> {
    let mut it = list.iter();
    let mut out = Vec::new();
    while let Some((k, _)) = it.next() {
        out.push(*k);
    }
    out
}

fn pairs_of(list: &LockFreeLinkedList<i32, &'static str>) -> Vec<(i32, &'static str)> {
    let mut it = list.iter();
    let mut out = Vec::new();
    while let Some((k, v)) = it.next() {
        out.push((*k, *v));
    }
    out
}

#[test]
fn linked_list_test_basic_sequential_operations() {
    let mut list = LockFreeLinkedList::<i32, &'static str>::new();

    assert!(list.insert(10, "A"));
    assert!(list.insert(30, "C"));
    assert!(list.insert(20, "B"));

    assert!(
        !list.insert(20, "Duplicate"),
        "Duplicate insert should return false"
    );

    assert!(list.contains(&10));
    assert!(list.contains(&20));
    assert!(list.contains(&30));
    assert!(!list.contains(&40), "Should not contain uninserted keys");

    assert!(list.delete(&20), "Deleting existing element should succeed");
    assert!(!list.contains(&20), "Element should be gone after deletion");
    assert!(!list.delete(&50), "Deleting non-existent element should fail");

    assert!(list.contains(&10));
    assert!(list.contains(&30));
}

#[test]
fn linked_list_test_iteration_and_sorting() {
    let mut list = LockFreeLinkedList::<i32, &'static str>::new();

    assert!(list.insert(50, "Fifty"));
    assert!(list.insert(10, "Ten"));
    assert!(list.insert(30, "Thirty"));
    assert!(list.insert(40, "Forty"));
    assert!(list.insert(20, "Twenty"));

    let keys = keys_of(&list);
    assert_eq!(keys, vec![10, 20, 30, 40, 50], "List is not sorted!");

    let pairs = pairs_of(&list);
    assert_eq!(
        pairs,
        vec![
            (10, "Ten"),
            (20, "Twenty"),
            (30, "Thirty"),
            (40, "Forty"),
            (50, "Fifty")
        ]
    );

    assert!(list.delete(&30));
    assert!(list.delete(&10));

    let updated_keys = keys_of(&list);
    assert_eq!(
        updated_keys,
        vec![20, 40, 50],
        "Iterator did not skip deleted nodes correctly!"
    );
}

#[test]
fn linked_list_duplicate_insert_keeps_first_value() {
    let mut list = LockFreeLinkedList::<i32, &'static str>::new();
    assert!(list.insert(7, "first"));
    assert!(!list.insert(7, "second"));
    assert_eq!(pairs_of(&list), vec![(7, "first")]);
    assert_eq!(list.get(&7), Some(&"first"));
}

#[test]
fn linked_list_get_finds_element_or_none() {
    let mut list = LockFreeLinkedList::<i32, &'static str>::new();
    assert_eq!(list.get(&1), None);
    list.insert(1, "one");
    list.insert(3, "three");
    assert_eq!(list.get(&1), Some(&"one"));
    assert_eq!(list.get(&3), Some(&"three"));
    assert_eq!(list.get(&2), None);
}

#[test]
fn linked_list_empty_list_edges() {
    let mut list = LockFreeLinkedList::<i32, &'static str>::new();
    assert!(list.is_empty());
    assert!(!list.contains(&0));
    assert!(!list.delete(&0));
    assert_eq!(list.pop_front(), None);
    assert!(keys_of(&list).is_empty());
    assert!(list.insert(0, "zero"));
    assert!(!list.is_empty());
}

#[test]
fn linked_list_insert_then_delete_restores_list() {
    let mut list = LockFreeLinkedList::<i32, &'static str>::new();
    list.insert(1, "a");
    list.insert(5, "e");
    let before = pairs_of(&list);
    assert!(list.insert(3, "c"));
    assert_eq!(pairs_of(&list), vec![(1, "a"), (3, "c"), (5, "e")]);
    assert!(list.delete(&3));
    assert_eq!(pairs_of(&list), before);
}

#[test]
fn linked_list_delete_then_reinsert_gives_new_value() {
    let mut list = LockFreeLinkedList::<i32, &'static str>::new();
    assert!(list.insert(4, "old"));
    assert!(list.delete(&4));
    assert!(!list.contains(&4));
    assert!(list.insert(4, "new"));
    assert_eq!(list.get(&4), Some(&"new"));
}

#[test]
fn linked_list_extreme_keys() {
    let mut list = LockFreeLinkedList::<i64, i64>::new();
    assert!(list.insert(i64::MAX, 1));
    assert!(list.insert(i64::MIN, 2));
    assert!(list.insert(0, 3));
    assert!(list.contains(&i64::MIN));
    assert!(list.contains(&i64::MAX));
    let mut it = list.iter();
    let mut keys = Vec::new();
    while let Some((k, _)) = it.next() {
        keys.push(*k);
    }
    assert_eq!(keys, vec![i64::MIN, 0, i64::MAX]);
}

#[test]
fn linked_list_pop_front_takes_smallest() {
    let mut list = LockFreeLinkedList::<i32, &'static str>::new();
    list.insert(20, "b");
    list.insert(10, "a");
    list.insert(30, "c");
    assert_eq!(list.pop_front(), Some((&10, &"a")));
    assert_eq!(keys_of(&list), vec![20, 30]);
    assert_eq!(list.pop_front(), Some((&20, &"b")));
    assert_eq!(list.pop_front(), Some((&30, &"c")));
    assert_eq!(list.pop_front(), None);
    assert!(list.is_empty());
}

#[test]
fn linked_list_contains_many_reports_first_occurrence() {
    let mut list = LockFreeLinkedList::<i32, i32>::new();
    for k in [1, 3, 5] {
        list.insert(k, k * 10);
    }
    assert_eq!(
        list.contains_many(&[5, 2, 1, 5, 4, 3]),
        vec![true, false, true, false, false, true]
    );
    assert_eq!(list.contains_many(&[]), Vec::<bool>::new());
}

#[test]
fn linked_list_search_node_finds_node() {
    let mut list = LockFreeLinkedList::<i32, &'static str>::new();
    list.insert(8, "eight");
    let h = list.search_node(&8).expect("key 8 is in the list");
    assert_eq!(list.node(h).key, 8);
    assert_eq!(list.node(h).element, Some("eight"));
    assert!(list.search_node(&9).is_none());
    let head = list.head_node();
    assert_eq!(list.node(head).element, None);
}

#[test]
fn linked_list_deleted_nodes_go_to_garbage() {
    let mut list = LockFreeLinkedList::<i32, i32>::new();
    for i in 1..=10 {
        list.insert(i, i);
    }
    for i in (2..=10).step_by(2) {
        assert!(list.delete(&i));
    }
    assert!(!list.delete(&2));
    let mut bag = list.take_garbage();
    assert_eq!(bag.len(), 5);
    assert_eq!(list.take_garbage().len(), 0);
    let mut gc = ThreadedGC::new();
    gc.collect(&mut bag);
    assert_eq!(bag.len(), 0);
    assert_eq!(gc.prune(), 5);
    assert_eq!(gc.prune(), 0);
    let mut it = list.iter();
    let mut keys = Vec::new();
    while let Some((k, _)) = it.next() {
        keys.push(*k);
    }
    assert_eq!(keys, vec![1, 3, 5, 7, 9]);
}

#[test]
fn linked_node_new_is_unlinked() {
    let n = LinkedNode::new(3, Some("x"));
    assert_eq!(n.key, 3);
    assert_eq!(n.element, Some("x"));
    assert_eq!(n.backlink, 0);
    let s = n.succ.load();
    assert_eq!(s.ptr, 0);
    assert!(!s.mark);
    assert!(!s.flag);
}

#[test]
fn linked_list_uninit_then_init() {
    let mut list = LockFreeLinkedList::<i32, i32>::uninit();
    let h = list.init();
    assert_eq!(h, 1);
    assert_eq!(list.init(), 1);
    assert!(list.is_empty());
    assert!(list.insert(2, 4));
    assert_eq!(list.get(&2), Some(&4));
}

#[test]
fn linked_list_many_inserts_then_contains_many() {
    let mut list = LockFreeLinkedList::<i32, i32>::new();
    let num_groups = 8;
    let items_per_group = 1000;
    let mut expected_keys = Vec::new();
    for t in 0..num_groups {
        for i in 0..items_per_group {
            let key = (t * items_per_group) + i + 1;
            assert!(list.insert(key, key));
            expected_keys.push(key);
        }
    }
    let results = list.contains_many(&expected_keys);
    for (index, &was_found) in results.iter().enumerate() {
        assert!(was_found, "Missing key: {}", expected_keys[index]);
    }
}

#[test]
fn linked_list_delete_all_then_prune() {
    let mut list = LockFreeLinkedList::<i32, i32>::new();
    for i in 1..=1000 {
        list.insert(i, i);
    }
    for i in (2..=1000).step_by(2) {
        assert!(list.delete(&i));
    }
    for i in (1..=1000).step_by(2) {
        assert!(list.delete(&i));
    }
    let keys: Vec<i32> = (1..=1000).collect();
    let results = list.contains_many(&keys);
    for (i, &was_found) in results.iter().enumerate() {
        assert!(!was_found, "Key {} should have been deleted", i);
    }
    assert!(list.is_empty());
    let mut gc = ThreadedGC::new();
    let mut bag = list.take_garbage();
    gc.collect(&mut bag);
    assert_eq!(gc.prune(), 1000);
}

#[test]
fn linked_list_insert_from_deleted_hint() {
    let mut list = LockFreeLinkedList::<i32, i32>::new();
    list.insert(10, 1);
    list.insert(20, 2);
    list.insert(40, 4);
    let hint = list.search_node(&20).expect("20 is held");
    assert!(list.delete(&20));
    let h = list.insert_from(30, 3, hint);
    assert_ne!(h, 0);
    assert_eq!(list.node(h).key, 30);
    assert_eq!(list.insert_from(40, 5, hint), 0);
    let mut it = list.iter();
    let mut keys = Vec::new();
    while let Some((k, _)) = it.next() {
        keys.push(*k);
    }
    assert_eq!(keys, vec![10, 30, 40]);
}

#[test]
fn linked_list_try_flag_finds_predecessor() {
    let mut list = LockFreeLinkedList::<i32, i32>::new();
    list.insert(10, 1);
    list.insert(20, 2);
    list.insert(30, 3);
    let gone = list.search_node(&10).expect("10 is held");
    assert!(list.delete(&10));
    let head = list.head_node();
    assert_eq!(list.try_flag(head, gone), (0, false));
    let p20 = list.search_node(&20).expect("20 is held");
    let p30 = list.search_node(&30).expect("30 is held");
    assert_eq!(list.try_flag(head, p30), (p20, true));
    assert!(list.node(p20).succ.load().flag);
}

#[test]
fn linked_list_insert_from_deleted_hint_meets_deleted_key() {
    // From a deleted hint the search follows the hint's last successor; when that
    // node holds the key and has been deleted too, nothing is inserted.
    let mut list = LockFreeLinkedList::<i32, i32>::new();
    list.insert(10, 1);
    list.insert(20, 2);
    list.insert(30, 3);
    let hint = list.search_node(&20).expect("20 is held");
    assert!(list.delete(&20));
    assert!(list.delete(&30));
    assert_eq!(list.insert_from(30, 4, hint), 0);
    assert!(!list.contains(&30));
    assert_ne!(list.insert_from(30, 5, list.head_node()), 0);
    assert_eq!(list.get(&30), Some(&5));
}

#[test]
fn linked_list_try_flag_from_deleted_predecessor() {
    let mut list = LockFreeLinkedList::<i32, i32>::new();
    list.insert(10, 1);
    list.insert(20, 2);
    list.insert(30, 3);
    let gone = list.search_node(&10).expect("10 is held");
    assert!(list.delete(&10));
    let p20 = list.search_node(&20).expect("20 is held");
    let p30 = list.search_node(&30).expect("30 is held");
    assert_eq!(list.try_flag(gone, p30), (p20, true));
    assert_eq!(list.try_flag(p20, p30), (p20, false));
    list.help_flagged(p20, p30);
    assert!(!list.contains(&30));
    assert!(list.contains(&20));
}
