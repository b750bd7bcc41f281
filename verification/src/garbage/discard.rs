use crate::garbage::{GarbageCollector, GarbageItem, ScopedGarbageCollector, ThreadLocalBag};
use vstd::prelude::*;

verus! {

/// A collector that reclaims nothing: what is pushed to it is forgotten.
pub struct DiscardedGC;

impl GarbageCollector for DiscardedGC {
    open spec fn keeps_garbage() -> bool {
        false
    }

    fn push(bag: &mut ThreadLocalBag, del: usize) {
    }
}

impl ScopedGarbageCollector for DiscardedGC {
    closed spec fn held(&self) -> Seq<GarbageItem> {
        Seq::empty()
    }

    fn new() -> (gc: Self) {
        Self
    }

    /// Gathers nothing: the bag keeps its items.
    fn collect(&mut self, bag: &mut ThreadLocalBag)
        ensures
            final(bag)@ == old(bag)@,
    {
    }

    /// Reclaims nothing: the bag keeps its items.
    fn prune_now(bag: &mut ThreadLocalBag) -> (n: usize)
        ensures
            n == 0,
            final(bag)@ == old(bag)@,
    {
        0
    }

    fn prune(&mut self) -> (n: usize)
        ensures
            n == 0,
    {
        0
    }
}

} // verus!
