use crate::garbage::{GarbageItem, ThreadLocalBag};
use crate::key::{
    has_key, inserted_into, law_insert_largest_appends, law_insert_smallest_prepends,
    removed_from, sorted_entries, ListKey,
};
use crate::linked_list::{LinkedNode, LockFreeLinkedList};
use crate::succ::{first_occurrence, List, Node, NodeIter, MAX_PTR};
use vstd::prelude::*;

verus! {

/// A list of elements kept in push order under `i64` sequence keys: `push_front`
/// takes keys counting down from 0, `push_back` keys counting up from 1.
pub struct LockFreeDequeList<T> {
    list: LockFreeLinkedList<i64, T>,
    front_seq: i64,
    back_seq: i64,
    /// Handle of the node last pushed at the back (0 when none); a hint where to
    /// start searching.
    tail_hint: usize,
}

impl<T> LockFreeDequeList<T> {
    /// The deque is initialized and consistent.
    pub closed spec fn wf(&self) -> bool {
        &&& self.list.wf()
        &&& self.list.node_at(self.list.head_handle()).key == i64::MIN
        &&& (self.tail_hint == 0 || self.list.valid_handle(self.tail_hint))
    }

    /// The sequence keys and elements of the deque, in key order.
    pub closed spec fn entries(&self) -> Seq<(i64, T)> {
        self.list.entries()
    }

    /// The key that the next `push_front` takes.
    pub closed spec fn front_seq_view(&self) -> i64 {
        self.front_seq
    }

    /// The key that the next `reserve_back` takes.
    pub closed spec fn back_seq_view(&self) -> i64 {
        self.back_seq
    }

    /// Number of nodes ever allocated.
    pub closed spec fn node_count(&self) -> nat {
        self.list.node_count()
    }

    /// `h` names a node of the deque's arena.
    pub closed spec fn valid_handle(&self, h: usize) -> bool {
        self.list.valid_handle(h)
    }

    /// `h` names a node of the deque (the head included).
    pub closed spec fn is_live(&self, h: usize) -> bool {
        self.list.is_live(h)
    }

    /// Handle of the node after the live node `h`, 0 at the end.
    pub closed spec fn next_live(&self, h: usize) -> usize {
        self.list.next_live(h)
    }

    /// The key of the node `h`.
    pub closed spec fn key_of(&self, h: usize) -> int {
        self.list.key_of(h)
    }

    /// Handle of the node last pushed at the back, 0 when none.
    pub closed spec fn tail_view(&self) -> usize {
        self.tail_hint
    }

    /// Handle of the dummy head.
    pub closed spec fn head_handle(&self) -> usize {
        self.list.head_handle()
    }

    /// The key of the node `h`, as stored.
    pub closed spec fn key_at(&self, h: usize) -> i64 {
        self.list.node_at(h).key
    }

    /// The handles that the deque has handed to its garbage bag.
    pub closed spec fn garbage(&self) -> Seq<GarbageItem> {
        self.list.garbage()
    }

    /// The deque has not been initialized.
    pub closed spec fn is_uninit(&self) -> bool {
        &&& self.list.is_uninit()
        &&& self.tail_hint == 0
    }

    /// An empty deque.
    pub fn new() -> (d: Self)
        ensures
            d.wf(),
            d.entries().len() == 0,
            d.front_seq_view() == 0,
            d.back_seq_view() == 1,
            d.node_count() == 1,
            d.head_handle() == 1,
            d.key_at(d.head_handle()) == i64::MIN,
            d.tail_view() == 0,
            d.garbage().len() == 0,
    {
        let mut r = Self::uninit();
        r.init();
        r
    }

    /// A deque without its head node; `init` allocates it.
    pub fn uninit() -> (d: Self)
        ensures
            d.is_uninit(),
            d.front_seq_view() == 0,
            d.back_seq_view() == 1,
            d.garbage().len() == 0,
    {
        Self { list: LockFreeLinkedList::uninit(), front_seq: 0, back_seq: 1, tail_hint: 0 }
    }

    /// Allocates the head node if there is none yet, and gives it a key below every
    /// sequence key; on an initialized deque it changes no entry.
    pub fn init(&mut self)
        requires
            old(self).is_uninit() || old(self).wf(),
        ensures
            final(self).wf(),
            final(self).key_at(final(self).head_handle()) == i64::MIN,
            old(self).is_uninit() ==> final(self).entries().len() == 0 && final(self).node_count() == 1
                && final(self).head_handle() == 1 && final(self).tail_view() == 0,
            old(self).wf() ==> final(self).entries() == old(self).entries() && final(self).node_count()
                == old(self).node_count() && final(self).head_handle() == old(self).head_handle()
                && final(self).tail_view() == old(self).tail_view(),
            final(self).front_seq_view() == old(self).front_seq_view(),
            final(self).back_seq_view() == old(self).back_seq_view(),
            final(self).garbage() == old(self).garbage(),
    {
        self.list.init();
        self.list.set_head_key(i64::MIN);
    }

    /// The key stored in the node `h`; the head's is `i64::MIN`.
    pub fn node_key(&self, h: usize) -> (k: i64)
        requires
            self.wf(),
            self.valid_handle(h),
        ensures
            k == self.key_at(h),
            h == self.head_handle() ==> k == i64::MIN,
    {
        self.list.node_key(h)
    }

    /// Handle of the node last pushed at the back, 0 when none.
    pub fn tail_node(&self) -> (h: usize)
        requires
            self.wf(),
        ensures
            h == self.tail_view(),
            h == 0 || self.valid_handle(h),
    {
        self.tail_hint
    }

    /// Pushes `value` at the front under the key `front_seq`, which then counts down
    /// (wrapping); gives that key. The value goes in only if no entry holds the key.
    pub fn push_front(&mut self, value: T) -> (seq: i64)
        requires
            old(self).wf(),
            old(self).node_count() < MAX_PTR,
        ensures
            final(self).wf(),
            seq == old(self).front_seq_view(),
            final(self).front_seq_view() == vstd::wrapping::i64_specs::wrapping_sub(seq, 1),
            final(self).back_seq_view() == old(self).back_seq_view(),
            inserted_into(old(self).entries(), final(self).entries(), seq, value),
            final(self).node_count() == old(self).node_count() + (if has_key(old(self).entries(), seq as int) {
                0int
            } else {
                1
            }),
            final(self).garbage() == old(self).garbage(),
            final(self).tail_view() == old(self).tail_view(),
            final(self).head_handle() == old(self).head_handle(),
    {
        let seq = self.front_seq;
        self.front_seq = self.front_seq.wrapping_sub(1);
        self.list.insert(seq, value);
        seq
    }

    /// Pushes `value` at the back under a newly reserved key; gives that key.
    pub fn push_back(&mut self, value: T) -> (seq: i64)
        requires
            old(self).wf(),
            old(self).node_count() < MAX_PTR,
        ensures
            final(self).wf(),
            seq == old(self).back_seq_view(),
            final(self).back_seq_view() == vstd::wrapping::i64_specs::wrapping_add(seq, 1),
            final(self).front_seq_view() == old(self).front_seq_view(),
            inserted_into(old(self).entries(), final(self).entries(), seq, value),
            final(self).node_count() == old(self).node_count() + (if has_key(old(self).entries(), seq as int) {
                0int
            } else {
                1
            }),
            final(self).garbage() == old(self).garbage(),
            final(self).tail_view() == (if has_key(old(self).entries(), seq as int) {
                old(self).tail_view()
            } else {
                (old(self).node_count() + 1) as usize
            }),
            final(self).head_handle() == old(self).head_handle(),
    {
        let seq = self.reserve_back();
        self.push_back_reserved(value, seq)
    }

    /// Inserts `value` under the key `seq` (reserved before with `reserve_back`),
    /// searching from the node last pushed at the back when that node comes before
    /// `seq`; gives `seq`. The value goes in only if no entry holds the key.
    pub fn push_back_reserved(&mut self, value: T, seq: i64) -> (r: i64)
        requires
            old(self).wf(),
            old(self).node_count() < MAX_PTR,
        ensures
            final(self).wf(),
            r == seq,
            final(self).front_seq_view() == old(self).front_seq_view(),
            final(self).back_seq_view() == old(self).back_seq_view(),
            inserted_into(old(self).entries(), final(self).entries(), seq, value),
            final(self).node_count() == old(self).node_count() + (if has_key(old(self).entries(), seq as int) {
                0int
            } else {
                1
            }),
            final(self).garbage() == old(self).garbage(),
            final(self).tail_view() == (if has_key(old(self).entries(), seq as int) {
                old(self).tail_view()
            } else {
                (old(self).node_count() + 1) as usize
            }),
            final(self).head_handle() == old(self).head_handle(),
    {
        let mut hint = self.tail_node();
        let head_ptr = self.list.head_node();

        if hint == 0 || self.list.node(hint).key >= seq {
            hint = head_ptr;
        } else {
            while self.list.node(hint).load_successor().mark
                invariant
                    self.wf(),
                    self.list.valid_handle(hint),
                    self.list.valid_handle(head_ptr),
                    head_ptr == self.list.head_handle(),
                    self.list.is_live(head_ptr),
                    hint == head_ptr || self.list.key_of(hint) < seq,
                ensures
                    self.wf(),
                    self.list.valid_handle(hint),
                    hint == head_ptr || (self.list.key_of(hint) < seq && !self.list.node_at(hint).succ@.mark),
                decreases self.list.back_measure(hint),
            {
                proof {
                    self.list.lemma_backlink(hint);
                }
                let bl = self.list.node(hint).load_backlink();
                if bl != 0 && self.list.node(bl).key < seq {
                    hint = bl;
                } else {
                    hint = head_ptr;
                    break;
                }
            }
        }
        proof {
            if hint != head_ptr {
                self.list.lemma_unmarked_is_live(hint);
            }
        }
        let new_node = self.list.insert_from(seq, value, hint);
        if new_node != 0 {
            self.tail_hint = new_node;
        }
        seq
    }

    /// Reserves the next back key; the key then counts up (wrapping).
    pub fn reserve_back(&mut self) -> (seq: i64)
        ensures
            seq == old(self).back_seq_view(),
            final(self).back_seq_view() == vstd::wrapping::i64_specs::wrapping_add(seq, 1),
            final(self).front_seq_view() == old(self).front_seq_view(),
            final(self).entries() == old(self).entries(),
            old(self).wf() ==> final(self).wf(),
            final(self).node_count() == old(self).node_count(),
            final(self).garbage() == old(self).garbage(),
            final(self).tail_view() == old(self).tail_view(),
            final(self).head_handle() == old(self).head_handle(),
    {
        let seq = self.back_seq;
        self.back_seq = self.back_seq.wrapping_add(1);
        seq
    }

    /// Deletes the entry with key `key`; gives whether there was one.
    pub fn delete(&mut self, key: &i64) -> (deleted: bool)
        requires
            old(self).wf(),
        ensures
            final(self).wf(),
            deleted == has_key(old(self).entries(), *key as int),
            removed_from(old(self).entries(), final(self).entries(), *key as int),
            deleted ==> final(self).garbage().len() == old(self).garbage().len() + 1,
            !deleted ==> final(self).garbage() == old(self).garbage(),
            final(self).front_seq_view() == old(self).front_seq_view(),
            final(self).back_seq_view() == old(self).back_seq_view(),
            final(self).node_count() == old(self).node_count(),
            final(self).tail_view() == old(self).tail_view(),
            final(self).head_handle() == old(self).head_handle(),
    {
        self.list.delete(key)
    }
}

impl<T> LockFreeDequeList<T> {
    /// The entries of a consistent deque are strictly increasing by key.
    pub proof fn lemma_sorted(&self)
        requires
            self.wf(),
        ensures
            sorted_entries(self.entries()),
    {
        self.list.lemma_sorted();
    }

    /// A push at the back under a key above every key of the deque puts the element
    /// last.
    pub proof fn law_push_back_appends(before: &Self, after: &Self, seq: i64, value: T)
        requires
            after.wf(),
            inserted_into(before.entries(), after.entries(), seq, value),
            forall|i: int| 0 <= i < before.entries().len() ==> (#[trigger] before.entries()[i]).0 < seq,
        ensures
            after.entries() == before.entries().push((seq, value)),
    {
        after.lemma_sorted();
        law_insert_largest_appends(before.entries(), after.entries(), seq, value);
    }

    /// A push at the front under a key below every key of the deque puts the element
    /// first.
    pub proof fn law_push_front_prepends(before: &Self, after: &Self, seq: i64, value: T)
        requires
            after.wf(),
            inserted_into(before.entries(), after.entries(), seq, value),
            forall|i: int| 0 <= i < before.entries().len() ==> (#[trigger] before.entries()[i]).0 > seq,
        ensures
            after.entries() == seq![(seq, value)] + before.entries(),
    {
        after.lemma_sorted();
        law_insert_smallest_prepends(before.entries(), after.entries(), seq, value);
    }

    /// Takes the bag of unlinked nodes out of the deque and leaves an empty one.
    pub fn take_garbage(&mut self) -> (bag: ThreadLocalBag)
        requires
            old(self).wf(),
        ensures
            final(self).wf(),
            bag@ == old(self).garbage(),
            final(self).garbage().len() == 0,
            final(self).entries() == old(self).entries(),
            final(self).front_seq_view() == old(self).front_seq_view(),
            final(self).back_seq_view() == old(self).back_seq_view(),
            final(self).node_count() == old(self).node_count(),
    {
        self.list.take_garbage()
    }
}

impl<T> LockFreeDequeList<T> {
    /// Handle of the dummy head.
    pub fn head_node(&self) -> (h: usize)
        requires
            self.wf(),
        ensures
            h == self.head_handle(),
            self.valid_handle(h),
            self.key_at(h) == i64::MIN,
    {
        self.list.head_node()
    }

    /// Searches from the live node `curr_node` for the first node whose key is not
    /// below `key`; gives its predecessor and it (0 when there is none).
    pub fn search_from(&mut self, key: &i64, curr_node: usize) -> (r: (usize, usize))
        requires
            old(self).wf(),
            old(self).valid_handle(curr_node),
        ensures
            *final(self) == *old(self),
            final(self).valid_handle(r.0),
            r.0 == curr_node || final(self).key_of(r.0) < *key as int,
            r.1 == 0 || (final(self).valid_handle(r.1) && final(self).key_of(r.1) >= *key as int),
            old(self).is_live(curr_node) ==> final(self).is_live(r.0) && r.1 == final(self).next_live(
                r.0,
            ),
    {
        self.list.search_from(key, curr_node)
    }

    /// The node holding `key`, if any.
    pub fn search_node(&mut self, key: &i64) -> (r: Option<usize>)
        requires
            old(self).wf(),
        ensures
            *final(self) == *old(self),
            r.is_some() == has_key(old(self).entries(), *key as int),
            r.is_some() ==> old(self).is_live(r.unwrap()) && old(self).key_of(r.unwrap())
                == *key as int,
    {
        self.list.search_node(key)
    }
}

impl<T> List<i64, T, LinkedNode<i64, T>> for LockFreeDequeList<T> {
    open spec fn list_wf(&self) -> bool {
        self.wf()
    }

    open spec fn list_entries(&self) -> Seq<(i64, T)> {
        self.entries()
    }

    fn contains(&mut self, key: &i64) -> (found: bool)
        ensures
            found == has_key(old(self).list_entries(), *key as int),
    {
        self.list.contains(key)
    }

    fn contains_many(&mut self, keys: &[i64]) -> (found: Vec<bool>) {
        self.list.contains_many(keys)
    }

    fn is_empty(&self) -> (empty: bool) {
        self.list.is_empty()
    }

    fn get<'a>(&'a mut self, key: &i64) -> (r: Option<&'a T>)
        ensures
            r.is_some() == has_key(old(self).list_entries(), *key as int),
    {
        self.list.get(key)
    }

    fn iter<'a>(&'a self) -> (it: NodeIter<'a, i64, T, LinkedNode<i64, T>>) {
        self.list.iter()
    }

    fn pop_front<'a>(&'a mut self) -> (r: Option<(&'a i64, &'a T)>) {
        self.list.pop_front()
    }
}

} // verus!
