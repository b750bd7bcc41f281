use lfll::{List, LockFreeSkipList};

fn keys_of<V>(list: &LockFreeSkipList<i32, V>) -> Vec<i32> {
    let mut it = list.iter();
    let mut out = Vec::new();
    while let Some((k, _)) = it.next() {
        out.push(*k);
    }
    out
}

#[test]
fn skip_list_test_basic_sequential_operations() {
    let mut list = LockFreeSkipList::<i32, &'static str>::new();

    assert!(list.insert(10, "A"));
    assert!(list.insert(30, "C"));
    assert!(list.insert(20, "B"));

    assert!(
        !list.insert(20, "Duplicate"),
        "Duplicate insert should return false"
    );

    assert!(list.contains(&10));
    assert!(list.contains(&20));
    assert!(list.contains(&30));
    assert!(!list.contains(&40), "Should not contain uninserted keys");

    assert!(list.delete(&20), "Deleting existing element should succeed");
    assert!(!list.contains(&20), "Element should be gone after deletion");
    assert!(!list.delete(&50), "Deleting non-existent element should fail");

    assert!(list.contains(&10));
    assert!(list.contains(&30));
}

#[test]
fn skip_list_test_iteration_and_sorting() {
    let mut list = LockFreeSkipList::<i32, &'static str>::new();

    assert!(list.insert(50, "Fifty"));
    assert!(list.insert(10, "Ten"));
    assert!(list.insert(30, "Thirty"));
    assert!(list.insert(40, "Forty"));
    assert!(list.insert(20, "Twenty"));

    let keys = keys_of(&list);
    assert_eq!(keys, vec![10, 20, 30, 40, 50], "List is not sorted!");

    let mut it = list.iter();
    let mut pairs = Vec::new();
    while let Some((k, v)) = it.next() {
        pairs.push((*k, *v));
    }
    assert_eq!(
        pairs,
        vec![
            (10, "Ten"),
            (20, "Twenty"),
            (30, "Thirty"),
            (40, "Forty"),
            (50, "Fifty")
        ]
    );

    assert!(list.delete(&30));
    assert!(list.delete(&10));

    let updated_keys = keys_of(&list);
    assert_eq!(
        updated_keys,
        vec![20, 40, 50],
        "Iterator did not skip deleted nodes correctly!"
    );
}

#[test]
fn skip_list_seeded_towers_of_every_height() {
    let mut list = LockFreeSkipList::<i32, i32>::new();
    for (i, seed) in [1usize, 2, 4, 8, 16, 0, 3, 1 << 15].iter().enumerate() {
        let key = (i as i32) * 10;
        assert!(list.insert_seeded(key, key + 1, *seed));
    }
    assert_eq!(keys_of(&list), vec![0, 10, 20, 30, 40, 50, 60, 70]);
    for i in 0..8 {
        assert!(list.contains(&(i * 10)));
        assert!(!list.contains(&(i * 10 + 5)));
    }
    assert!(!list.insert_seeded(30, 0, 1));
    assert!(list.delete(&50));
    assert!(!list.contains(&50));
    assert_eq!(keys_of(&list), vec![0, 10, 20, 30, 40, 60, 70]);
}

#[test]
fn skip_list_get_through_tall_tower_gives_none() {
    // The search meets the top node of a tower first; only the bottom node holds
    // the element.
    let mut list = LockFreeSkipList::<i32, &'static str>::new();
    assert!(list.insert_seeded(1, "short", 1));
    assert!(list.insert_seeded(2, "tall", 4));
    assert_eq!(list.get(&1), Some(&"short"));
    assert_eq!(list.get(&2), None);
    assert!(list.contains(&2));
}

#[test]
fn skip_list_stale_tower_hides_key() {
    // Deleting a key unlinks the bottom of its tower only; the upper nodes stay and
    // a search for the same key stops at them.
    let mut list = LockFreeSkipList::<i32, i32>::new();
    assert!(list.insert_seeded(5, 50, 8));
    assert!(list.delete(&5));
    assert!(!list.contains(&5));
    assert!(list.insert_seeded(5, 51, 1));
    assert_eq!(keys_of(&list), vec![5]);
    assert!(!list.contains(&5));
    assert!(!list.delete(&5));
    assert_eq!(keys_of(&list), vec![5]);
}

#[test]
fn skip_list_stale_tower_hides_later_key() {
    let mut list = LockFreeSkipList::<i32, i32>::new();
    assert!(list.insert_seeded(5, 50, 2));
    assert!(list.insert_seeded(7, 70, 1));
    assert!(list.delete(&5));
    assert!(list.insert_seeded(6, 60, 1));
    assert_eq!(keys_of(&list), vec![6, 7]);
    assert!(!list.contains(&6));
    assert!(list.contains(&7));
    assert_eq!(list.contains_many(&[6, 7]), vec![true, true]);
}

#[test]
fn skip_list_pop_front_and_empty() {
    let mut list = LockFreeSkipList::<i32, &'static str>::new();
    assert!(list.is_empty());
    assert_eq!(list.pop_front(), None);
    list.insert_seeded(3, "c", 1);
    list.insert_seeded(1, "a", 1);
    assert_eq!(list.pop_front(), Some((&1, &"a")));
    assert_eq!(list.pop_front(), Some((&3, &"c")));
    assert_eq!(list.pop_front(), None);
    assert!(list.is_empty());
}

#[test]
fn skip_list_contains_many_reports_first_occurrence() {
    let mut list = LockFreeSkipList::<i32, i32>::new();
    for k in [2, 4, 6] {
        list.insert(k, k);
    }
    assert_eq!(
        list.contains_many(&[6, 6, 1, 2, 4]),
        vec![true, false, false, true, true]
    );
}

#[test]
fn skip_list_garbage_counts_unlinked_nodes() {
    let mut list = LockFreeSkipList::<i32, i32>::new();
    assert!(list.insert_seeded(1, 1, 1));
    assert!(list.insert_seeded(2, 2, 1));
    assert!(list.delete(&1));
    assert_eq!(list.take_garbage().len(), 1);
    assert_eq!(list.take_garbage().len(), 0);
}

#[test]
fn skip_list_keys_below_a_deleted_key_stay_visible() {
    let mut list = LockFreeSkipList::<i32, i32>::new();
    assert!(list.insert_seeded(3, 30, 4));
    assert!(list.insert_seeded(5, 50, 8));
    assert!(list.insert_seeded(9, 90, 2));
    assert!(list.delete(&5));
    assert!(list.contains(&3));
    assert!(list.insert_seeded(4, 40, 16));
    assert!(list.contains(&4));
    assert!(list.delete(&4));
    assert!(!list.contains(&4));
    assert!(list.contains(&3));
    assert_eq!(keys_of(&list), vec![3, 9]);
}

#[test]
fn skip_list_many_inserts_then_contains() {
    let mut list = LockFreeSkipList::<i32, i32>::new();
    for t in 0..10 {
        for i in 0..1000 {
            let key = (t * 1000) + i + 1;
            assert!(list.insert(key, key));
        }
    }
    for key in 1..=10000 {
        assert!(list.contains(&key), "Missing key: {}", key);
    }
}

#[test]
fn skip_list_delete_all_then_absent() {
    let mut list = LockFreeSkipList::<i32, i32>::new();
    for i in 1..=1000 {
        list.insert(i, i);
    }
    for i in (2..=1000).step_by(2) {
        assert!(list.delete(&i));
    }
    for i in (1..=1000).step_by(2) {
        assert!(list.delete(&i));
    }
    for i in 1..=1000 {
        assert!(!list.contains(&i), "Key {} should have been deleted", i);
    }
    assert!(list.is_empty());
    assert!(list.take_garbage().len() > 1000);
}

#[test]
fn skip_list_seed_does_not_change_entries() {
    let mut a = LockFreeSkipList::<i32, i32>::new();
    let mut b = LockFreeSkipList::<i32, i32>::new();
    for k in [4, 1, 9] {
        a.insert_seeded(k, k * 2, 1);
        b.insert_seeded(k, k * 2, 1 << 12);
    }
    assert_eq!(keys_of(&a), keys_of(&b));
    assert_eq!(a.get(&4), Some(&8));
    assert_eq!(b.get(&4), None);
}

#[test]
fn skip_list_delete_after_deleting_a_tall_tower() {
    // The deleted tower of 2 keeps its upper node; the search for 5 passes it and
    // the deletion of 5 still succeeds.
    let mut list = LockFreeSkipList::<i32, i32>::new();
    assert!(list.insert_seeded(2, 20, 2));
    assert!(list.insert_seeded(5, 50, 1));
    assert!(list.delete(&2));
    assert!(list.contains(&5));
    assert!(list.delete(&5));
    assert_eq!(keys_of(&list), Vec::<i32>::new());
    assert!(!list.contains(&5));
}

#[test]
fn skip_list_try_flag_twice() {
    let mut list = LockFreeSkipList::<i32, i32>::new();
    assert!(list.insert_seeded(5, 50, 1));
    let head = list.head_node(0);
    let target = list.search_node(&5).expect("5 is held");
    assert_eq!(list.try_flag(head, target), (head, true));
    assert_eq!(list.try_flag(head, target), (head, false));
    list.help_flagged(head, target);
    assert!(!list.contains(&5));
    assert_eq!(keys_of(&list), Vec::<i32>::new());
}
