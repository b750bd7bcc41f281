//! Ordered linked lists after the algorithm of Fomitchev and Ruppert: nodes are
//! linked through successor words that carry a pointer and two control bits
//! (mark and flag), and deletion goes through flag, mark and unlink steps.

pub mod deque_list;
pub mod garbage;
pub mod key;
pub mod linked_list;
pub mod seedable;
pub mod skip_list;
pub mod succ;

pub use deque_list::LockFreeDequeList;
pub use garbage::{DiscardedGC, GarbageCollector, GarbageItem, ScopedGarbageCollector, ThreadLocalBag, ThreadedGC};
pub use key::ListKey;
pub use linked_list::{LinkedNode, LockFreeLinkedList};
pub use seedable::Seedable;
pub use skip_list::{LockFreeSkipList, SkipNode};
pub use succ::{AtomicSucc, List, Node, NodeIter, SuccData};
