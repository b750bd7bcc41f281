use lfll::garbage::{DiscardedGC, GarbageCollector, GarbageItem, ScopedGarbageCollector, ThreadLocalBag, ThreadedGC};

#[test]
fn threaded_gc_collects_and_prunes() {
    let mut bag = ThreadLocalBag::new();
    <ThreadedGC as GarbageCollector>::push(&mut bag, 3);
    <ThreadedGC as GarbageCollector>::push(&mut bag, 5);
    assert_eq!(bag.len(), 2);
    let mut gc = ThreadedGC::new();
    gc.collect(&mut bag);
    assert_eq!(bag.len(), 0);
    <ThreadedGC as GarbageCollector>::push(&mut bag, 8);
    gc.collect(&mut bag);
    assert_eq!(gc.prune(), 3);
    assert_eq!(gc.prune(), 0);
}

#[test]
fn threaded_gc_prune_now_empties_bag() {
    let mut bag = ThreadLocalBag::new();
    for i in 1..=4 {
        <ThreadedGC as GarbageCollector>::push(&mut bag, i);
    }
    assert_eq!(ThreadedGC::prune_now(&mut bag), 4);
    assert_eq!(bag.len(), 0);
    assert_eq!(ThreadedGC::prune_now(&mut bag), 0);
}

#[test]
fn discarded_gc_keeps_nothing() {
    let mut bag = ThreadLocalBag::new();
    <DiscardedGC as GarbageCollector>::push(&mut bag, 3);
    assert_eq!(bag.len(), 0);
    bag.push(GarbageItem { ptr: 9 });
    let mut gc = DiscardedGC::new();
    gc.collect(&mut bag);
    assert_eq!(bag.len(), 1);
    assert_eq!(DiscardedGC::prune_now(&mut bag), 0);
    assert_eq!(bag.len(), 1);
    assert_eq!(gc.prune(), 0);
}

#[test]
fn bag_drain_gives_items_in_order() {
    let mut bag = ThreadLocalBag::new();
    bag.push(GarbageItem { ptr: 1 });
    bag.push(GarbageItem { ptr: 2 });
    let items = bag.drain();
    assert_eq!(items, vec![GarbageItem { ptr: 1 }, GarbageItem { ptr: 2 }]);
    assert_eq!(bag.len(), 0);
}
