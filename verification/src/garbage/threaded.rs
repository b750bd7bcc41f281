use crate::garbage::{GarbageCollector, GarbageItem, ScopedGarbageCollector};
use vstd::prelude::*;

verus! {

/// The bag of garbage of one thread.
pub struct ThreadLocalBag {
    garbage: Vec<GarbageItem>,
}

impl View for ThreadLocalBag {
    type V = Seq<GarbageItem>;

    closed spec fn view(&self) -> Seq<GarbageItem> {
        self.garbage@
    }
}

impl ThreadLocalBag {
    /// An empty bag.
    pub fn new() -> (b: Self)
        ensures
            b@.len() == 0,
    {
        Self { garbage: Vec::new() }
    }

    pub fn push(&mut self, item: GarbageItem)
        ensures
            final(self)@ == old(self)@.push(item),
    {
        self.garbage.push(item);
    }

    /// Takes every item out of the bag, in the order they were pushed.
    pub fn drain(&mut self) -> (items: Vec<GarbageItem>)
        ensures
            items@ == old(self)@,
            final(self)@.len() == 0,
    {
        let mut items: Vec<GarbageItem> = Vec::new();
        std::mem::swap(&mut items, &mut self.garbage);
        items
    }

    /// Number of items in the bag.
    pub fn len(&self) -> (n: usize)
        ensures
            n == self@.len(),
    {
        self.garbage.len()
    }
}

/// A collector that keeps garbage per thread and reclaims what the threads hand it.
pub struct ThreadedGC {
    garbage: Vec<GarbageItem>,
}

impl GarbageCollector for ThreadedGC {
    open spec fn keeps_garbage() -> bool {
        true
    }

    fn push(bag: &mut ThreadLocalBag, del: usize) {
        bag.push(GarbageItem { ptr: del });
    }
}

impl ScopedGarbageCollector for ThreadedGC {
    closed spec fn held(&self) -> Seq<GarbageItem> {
        self.garbage@
    }

    fn new() -> (gc: Self) {
        Self { garbage: Vec::new() }
    }

    fn collect(&mut self, bag: &mut ThreadLocalBag)
        ensures
            final(self).held() == old(self).held() + old(bag)@,
            final(bag)@.len() == 0,
    {
        let mut items = bag.drain();
        self.garbage.append(&mut items);
    }

    fn prune_now(bag: &mut ThreadLocalBag) -> (n: usize)
        ensures
            n == old(bag)@.len(),
            final(bag)@.len() == 0,
    {
        let items = bag.drain();
        let mut i: usize = 0;
        while i < items.len()
            invariant
                i <= items@.len(),
            decreases items@.len() - i,
        {
            i = i + 1;
        }
        i
    }

    fn prune(&mut self) -> (n: usize) {
        let mut items: Vec<GarbageItem> = Vec::new();
        std::mem::swap(&mut items, &mut self.garbage);
        let mut i: usize = 0;
        while i < items.len()
            invariant
                i <= items@.len(),
            decreases items@.len() - i,
        {
            i = i + 1;
        }
        i
    }
}

} // verus!
