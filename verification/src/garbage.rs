use vstd::prelude::*;

pub mod discard;
pub mod threaded;

pub use discard::DiscardedGC;
pub use threaded::{ThreadLocalBag, ThreadedGC};

verus! {

/// A node taken out of a list, waiting to be reclaimed.
#[derive(Debug, Clone, Copy, PartialEq, Eq, Structural)]
pub struct GarbageItem {
    /// Handle of the unlinked node.
    pub ptr: usize,
}

/// Where unlinked nodes go.
pub trait GarbageCollector {
    /// Hands the node with handle `del` to the collector, through the bag of the
    /// thread that unlinked it.
    fn push(bag: &mut ThreadLocalBag, del: usize)
        ensures
            Self::keeps_garbage() ==> final(bag)@ == old(bag)@.push(GarbageItem { ptr: del }),
            !Self::keeps_garbage() ==> final(bag)@ == old(bag)@,
    ;

    /// Whether the collector keeps what is pushed.
    spec fn keeps_garbage() -> bool;
}

/// A collector scoped to the threads that share it: it gathers the bags of those
/// threads and reclaims what it gathered.
pub trait ScopedGarbageCollector: Sized {
    /// The items gathered so far and not yet reclaimed.
    spec fn held(&self) -> Seq<GarbageItem>;

    /// An empty collector.
    fn new() -> (gc: Self)
        ensures
            gc.held().len() == 0,
    ;

    /// Gathers the items of a thread's bag into the collector.
    fn collect(&mut self, bag: &mut ThreadLocalBag);

    /// Reclaims the items of a thread's bag at once; gives how many were reclaimed,
    /// which leave the bag.
    fn prune_now(bag: &mut ThreadLocalBag) -> (n: usize)
        ensures
            final(bag)@.len() + n == old(bag)@.len(),
    ;

    /// Reclaims the gathered items; gives how many were reclaimed.
    fn prune(&mut self) -> (n: usize)
        ensures
            n == old(self).held().len(),
            final(self).held().len() == 0,
    ;
}

} // verus!
