use crate::garbage::{GarbageCollector, GarbageItem, ThreadLocalBag, ThreadedGC};
use crate::key::{has_key, inserted_into, removed_from, sorted_entries, ListKey};
use crate::succ::{
    clean, first_occurrence, is_key_order, key_order, lemma_key_order_first, linked_run,
    next_handle, run_entries, AtomicSucc, List, Node, NodeIter, SuccData, MAX_PTR,
};
use vstd::prelude::*;

verus! {

/// A node of a `LockFreeLinkedList`.
pub struct LinkedNode<K, V> {
    /// The key, by which the list is ordered.
    pub key: K,
    /// The element; none for the dummy head.
    pub element: Option<V>,
    /// Handle of the predecessor at the time the node was deleted (0 is null).
    pub backlink: usize,
    /// Successor handle with the mark and flag bits.
    pub succ: AtomicSucc,
}

impl<K, V> LinkedNode<K, V> {
    /// A node with no successor and no backlink.
    pub fn new(key: K, element: Option<V>) -> (n: Self)
        ensures
            n.key == key,
            n.element == element,
            n.backlink == 0,
            n.succ@ == clean(0),
    {
        Self { key, element, backlink: 0, succ: AtomicSucc::default() }
    }
}

impl<K, V> Node<K, V> for LinkedNode<K, V> {
    open spec fn key_view(&self) -> K {
        self.key
    }

    open spec fn element_view(&self) -> Option<V> {
        self.element
    }

    open spec fn backlink_view(&self) -> usize {
        self.backlink
    }

    open spec fn succ_view(&self) -> SuccData {
        self.succ@
    }

    fn key(&self) -> (k: &K) {
        &self.key
    }

    fn element(&self) -> (e: Option<&V>) {
        match &self.element {
            Some(v) => Some(v),
            None => None,
        }
    }

    fn load_backlink(&self) -> (b: usize) {
        self.backlink
    }

    fn store_backlink(&mut self, new_val: usize) {
        self.backlink = new_val;
    }

    fn load_successor(&self) -> (s: SuccData) {
        self.succ.load()
    }

    fn store_successor(&mut self, new_val: SuccData) {
        self.succ.store(new_val);
    }

    fn swap_successor(&mut self, expected: SuccData, new_val: SuccData) -> (r: Result<
        SuccData,
        SuccData,
    >) {
        self.succ.compare_exchange(expected, new_val)
    }
}

/// The successor that position `j` of `chain` holds while the node after position `sp`
/// is being deleted: the node at `sp` is flagged from stage 1 on and the node after it
/// is marked at stage 2; every other link is clean.
pub open spec fn expected_succ(chain: Seq<int>, j: int, sp: int, st: int) -> SuccData {
    let p = next_handle(chain, j) as usize;
    if st >= 1 && j == sp {
        SuccData { ptr: p, mark: false, flag: true }
    } else if st == 2 && j == sp + 1 {
        SuccData { ptr: p, mark: true, flag: false }
    } else {
        SuccData { ptr: p, mark: false, flag: false }
    }
}

/// An ordered linked list of keys and elements, with a dummy head node.
///
/// Nodes live in an arena and are named by handles (arena index plus one, 0 is
/// null). A deleted node stays in the arena, marked, with a backlink to the node that
/// preceded it; its handle goes to the list's garbage bag.
pub struct LockFreeLinkedList<K, V> {
    pub(crate) nodes: Vec<LinkedNode<K, V>>,
    /// Handle of the dummy head; 0 before `init`.
    pub(crate) head: usize,
    /// Handles of the unlinked nodes.
    pub(crate) trash: ThreadLocalBag,
    /// Indices of the nodes reachable from the head, in list order.
    pub(crate) chain: Ghost<Seq<int>>,
    /// For each unlinked node, the order in which it was unlinked.
    pub(crate) rank: Ghost<Seq<nat>>,
    /// Number of unlinks so far.
    pub(crate) ndel: Ghost<nat>,
}

impl<K: ListKey, V> LockFreeLinkedList<K, V> {
    /// The integer key of the node at index `i`.
    pub closed spec fn kint(&self, i: int) -> int {
        self.nodes@[i].key.key_int()
    }

    /// The node at index `i` is one of the list.
    pub closed spec fn on_chain(&self, i: int) -> bool {
        self.chain@.contains(i)
    }

    /// The node at index `i` has been unlinked: it is marked, and its backlink leads
    /// to a linked node or to a node unlinked after it.
    pub closed spec fn unlinked_ok(&self, i: int) -> bool {
        let b = self.nodes@[i].backlink;
        &&& self.nodes@[i].succ@.mark
        &&& !self.nodes@[i].succ@.flag
        &&& self.nodes@[i].succ@.ptr <= self.nodes@.len()
        &&& self.rank@[i] < self.ndel@
        &&& 1 <= b <= self.nodes@.len()
        &&& (self.on_chain(b - 1) || self.rank@[b - 1] > self.rank@[i])
        &&& (b == self.head || self.kint(b - 1) < self.kint(i))
        &&& (self.nodes@[i].succ@.ptr != 0 ==> self.nodes@[i].succ@.ptr != self.head && self.kint(
            self.nodes@[i].succ@.ptr - 1,
        ) > self.kint(i))
    }

    /// The list is consistent, with the deletion of the node after position `sp` of the
    /// chain at stage `st` (0: none, 1: predecessor flagged, 2: node marked too).
    pub closed spec fn inv(&self, sp: int, st: int) -> bool {
        let chain = self.chain@;
        let nodes = self.nodes@;
        &&& 1 <= self.head <= nodes.len()
        &&& nodes.len() <= MAX_PTR
        &&& chain.len() >= 1
        &&& chain[0] == self.head - 1
        &&& nodes[self.head - 1].element.is_none()
        &&& self.rank@.len() == nodes.len()
        &&& chain.no_duplicates()
        &&& 0 <= st <= 2
        &&& st >= 1 ==> 0 <= sp && sp + 1 < chain.len()
        &&& forall|j: int| 0 <= j < chain.len() ==> 0 <= #[trigger] chain[j] < nodes.len()
        &&& forall|j: int|
            0 <= j < chain.len() ==> (#[trigger] nodes[chain[j]]).succ@ == expected_succ(
                chain,
                j,
                sp,
                st,
            )
        &&& forall|a: int, b: int|
            1 <= a < b < chain.len() ==> self.kint(#[trigger] chain[a]) < self.kint(
                #[trigger] chain[b],
            )
        &&& forall|j: int| 1 <= j < chain.len() ==> (#[trigger] nodes[chain[j]]).element.is_some()
        &&& forall|i: int| 0 <= i < nodes.len() && !self.on_chain(i) ==> #[trigger] self.unlinked_ok(i)
        &&& st == 2 ==> nodes[chain[sp + 1]].backlink == chain[sp] + 1
    }

    /// The list has not been initialized: no node, not even the head.
    pub closed spec fn is_uninit(&self) -> bool {
        &&& self.head == 0
        &&& self.nodes@.len() == 0
        &&& self.chain@.len() == 0
        &&& self.rank@.len() == 0
        &&& self.ndel@ == 0
    }

    /// The list is initialized and consistent.
    pub closed spec fn wf(&self) -> bool {
        self.inv(0, 0)
    }

    /// The key and element pairs of the list, in list order.
    pub closed spec fn entries(&self) -> Seq<(K, V)> {
        run_entries(self.nodes@, self.chain@.drop_first())
    }

    /// Number of nodes ever allocated.
    pub closed spec fn node_count(&self) -> nat {
        self.nodes@.len()
    }

    /// The node `del` comes right after the node `prev` in the list, and its deletion
    /// is at stage `st` (1: `prev` flagged, 2: `del` marked too).
    pub closed spec fn deleting(&self, prev: usize, del: usize, st: int) -> bool {
        exists|sp: int| self.inv(sp, st) && self.chain@[sp] == prev - 1 && self.chain@[sp + 1] == del - 1
    }

    /// While `del` is being deleted after `prev`, `prev` holds `del` flagged, and `del`
    /// holds its successor clean at stage 1 and marked at stage 2.
    pub proof fn lemma_deleting_words(&self, prev: usize, del: usize, st: int)
        requires
            self.deleting(prev, del, st),
            1 <= st <= 2,
        ensures
            self.node_at(prev).succ@ == (SuccData { ptr: del, mark: false, flag: true }),
            !self.node_at(del).succ@.flag,
            self.node_at(del).succ@.mark == (st == 2),
    {
        let sp = choose|sp: int|
            self.inv(sp, st) && self.chain@[sp] == prev - 1 && self.chain@[sp + 1] == del - 1;
        let c = self.chain@;
        assert(self.nodes@[c[sp]].succ@ == expected_succ(c, sp, sp, st));
        assert(self.nodes@[c[sp + 1]].succ@ == expected_succ(c, sp + 1, sp, st));
    }

    /// `self` and `other` have the same nodes in the same order, the same head and
    /// arena size, and the same garbage.
    pub closed spec fn same_links_as(&self, other: &Self) -> bool {
        &&& self.chain@ == other.chain@
        &&& self.head == other.head
        &&& self.nodes@.len() == other.nodes@.len()
        &&& self.trash@ == other.trash@
        &&& self.rank@ == other.rank@
        &&& self.ndel@ == other.ndel@
        &&& forall|i: int| 0 <= i < self.nodes@.len() ==> (#[trigger] self.nodes@[i]).key == other.nodes@[i].key
            && self.nodes@[i].element == other.nodes@[i].element
    }

    /// `self` and `other` hold the same nodes with the same links and the same garbage.
    pub closed spec fn same_state_as(&self, other: &Self) -> bool {
        &&& self.nodes@ == other.nodes@
        &&& self.head == other.head
        &&& self.trash@ == other.trash@
        &&& self.chain@ == other.chain@
        &&& self.rank@ == other.rank@
        &&& self.ndel@ == other.ndel@
    }

    /// `self` and `other` have the same arena size and the same key and element at
    /// each node.
    pub closed spec fn same_data_as(&self, other: &Self) -> bool {
        &&& self.nodes@.len() == other.nodes@.len()
        &&& forall|i: int| 0 <= i < self.nodes@.len() ==> (#[trigger] self.nodes@[i]).key == other.nodes@[i].key
            && self.nodes@[i].element == other.nodes@[i].element
    }

    /// The handles that the list has handed to its garbage bag.
    pub closed spec fn garbage(&self) -> Seq<GarbageItem> {
        self.trash@
    }

    /// Handle of the dummy head.
    pub closed spec fn head_handle(&self) -> usize {
        self.head
    }

    /// `h` names a node.
    pub open spec fn valid_handle(&self, h: usize) -> bool {
        1 <= h <= self.node_count()
    }

    /// The node that handle `h` names.
    pub closed spec fn node_at(&self, h: usize) -> LinkedNode<K, V> {
        self.nodes@[h - 1]
    }

    /// `h` names a node of the list (the head included).
    pub closed spec fn is_live(&self, h: usize) -> bool {
        1 <= h && self.on_chain(h - 1)
    }

    /// Position of the node with handle `h` in the list (the head at 0).
    pub closed spec fn pos_of(&self, h: usize) -> int {
        choose|j: int| 0 <= j < self.chain@.len() && self.chain@[j] == h - 1
    }

    /// The integer key of the node with handle `h`.
    pub open spec fn key_of(&self, h: usize) -> int {
        self.node_at(h).key.key_int()
    }

    /// Handle of the node after the node with handle `h`, 0 at the end.
    pub closed spec fn next_live(&self, h: usize) -> usize {
        next_handle(self.chain@, self.pos_of(h)) as usize
    }

    proof fn lemma_pos_of(&self, h: usize)
        requires
            self.inv(0, 0) || exists|sp: int, st: int| self.inv(sp, st),
            self.is_live(h),
        ensures
            0 <= self.pos_of(h) < self.chain@.len(),
            self.chain@[self.pos_of(h)] == h - 1,
            forall|j: int| 0 <= j < self.chain@.len() && self.chain@[j] == h - 1 ==> j == self.pos_of(h),
    {
        assert(self.chain@.contains(h - 1));
        let j0 = choose|j: int| 0 <= j < self.chain@.len() && self.chain@[j] == h - 1;
        assert(0 <= self.pos_of(h) < self.chain@.len());
        assert forall|j: int| 0 <= j < self.chain@.len() && self.chain@[j] == h - 1 implies j
            == self.pos_of(h) by {
            assert(self.chain@.no_duplicates());
        }
    }

    proof fn lemma_live_at(&self, j: int)
        requires
            self.inv(0, 0) || exists|sp: int, st: int| self.inv(sp, st),
            0 <= j < self.chain@.len(),
        ensures
            self.is_live((self.chain@[j] + 1) as usize),
            self.pos_of((self.chain@[j] + 1) as usize) == j,
    {
        let h = (self.chain@[j] + 1) as usize;
        assert(self.chain@[j] == h - 1);
        assert(self.chain@.contains(h - 1));
        self.lemma_pos_of(h);
    }

    /// The list is sorted: entries are strictly increasing by key.
    proof fn lemma_entries_sorted(&self)
        requires
            self.wf(),
        ensures
            sorted_entries(self.entries()),
            self.entries().len() == self.chain@.len() - 1,
            forall|j: int|
                0 <= j < self.entries().len() ==> (#[trigger] self.entries()[j]).0.key_int()
                    == self.kint(self.chain@[j + 1]),
    {
        let e = self.entries();
        assert forall|a: int, b: int| 0 <= a < b < e.len() implies (#[trigger] e[a]).0.key_int()
            < (#[trigger] e[b]).0.key_int() by {
            assert(self.chain@.drop_first()[a] == self.chain@[a + 1]);
            assert(self.chain@.drop_first()[b] == self.chain@[b + 1]);
        }
        assert forall|j: int| 0 <= j < e.len() implies (#[trigger] e[j]).0.key_int() == self.kint(
            self.chain@[j + 1],
        ) by {
            assert(self.chain@.drop_first()[j] == self.chain@[j + 1]);
        }
    }
}

impl<K: ListKey, V> LockFreeLinkedList<K, V> {
    /// `new_list` is `old_list` after the marked node at position `sp + 1` has been
    /// linked past and moved to the unlinked nodes.
    spec fn unlink_step(old_list: &Self, new_list: &Self, sp: int) -> bool {
        &&& old_list.inv(sp, 2)
        &&& new_list.head == old_list.head
        &&& new_list.nodes@.len() == old_list.nodes@.len()
        &&& forall|i: int|
            0 <= i < old_list.nodes@.len() && i != old_list.chain@[sp] ==> new_list.nodes@[i]
                == old_list.nodes@[i]
        &&& new_list.nodes@[old_list.chain@[sp]].key == old_list.nodes@[old_list.chain@[sp]].key
        &&& new_list.nodes@[old_list.chain@[sp]].element == old_list.nodes@[old_list.chain@[sp]].element
        &&& new_list.nodes@[old_list.chain@[sp]].backlink == old_list.nodes@[old_list.chain@[sp]].backlink
        &&& new_list.nodes@[old_list.chain@[sp]].succ@ == clean(next_handle(old_list.chain@, sp + 1))
        &&& new_list.chain@ == old_list.chain@.remove(sp + 1)
        &&& new_list.rank@ == old_list.rank@.update(old_list.chain@[sp + 1], old_list.ndel@)
        &&& new_list.ndel@ == old_list.ndel@ + 1
    }

    #[verifier::spinoff_prover]
    #[verifier::rlimit(40)]
    proof fn lemma_unlink_chain(old_list: &Self, new_list: &Self, sp: int)
        requires
            Self::unlink_step(old_list, new_list, sp),
        ensures
            new_list.chain@.len() == old_list.chain@.len() - 1,
            forall|j: int| #![trigger new_list.chain@[j]]
                0 <= j < new_list.chain@.len() ==> new_list.chain@[j] == (if j <= sp {
                    old_list.chain@[j]
                } else {
                    old_list.chain@[j + 1]
                }),
            forall|j: int| #![trigger next_handle(new_list.chain@, j)]
                0 <= j < new_list.chain@.len() ==> next_handle(new_list.chain@, j) == (if j < sp {
                    next_handle(old_list.chain@, j)
                } else {
                    next_handle(old_list.chain@, j + 1)
                }),
            new_list.chain@.no_duplicates(),
            !new_list.on_chain(old_list.chain@[sp + 1]),
            forall|i: int|
                0 <= i < new_list.nodes@.len() && i != old_list.chain@[sp + 1] ==> (
                #[trigger] new_list.on_chain(i) <==> old_list.on_chain(i)),
    {
        let oc = old_list.chain@;
        let nc = new_list.chain@;
        let del = oc[sp + 1];
        assert(nc.no_duplicates()) by {
            assert forall|a: int, b: int| 0 <= a < b < nc.len() implies nc[a] != nc[b] by {
                let oa = if a <= sp { a } else { a + 1 };
                let ob = if b <= sp { b } else { b + 1 };
                assert(oc[oa] != oc[ob]);
            }
        }
        assert forall|i: int| 0 <= i < new_list.nodes@.len() && i != del implies (
        #[trigger] new_list.on_chain(i) <==> old_list.on_chain(i)) by {
            if old_list.on_chain(i) {
                let j = choose|j: int| 0 <= j < oc.len() && oc[j] == i;
                let nj = if j <= sp { j } else { j - 1 };
                assert(nc[nj] == i);
            }
            if new_list.on_chain(i) {
                let j = choose|j: int| 0 <= j < nc.len() && nc[j] == i;
                let oj = if j <= sp { j } else { j + 1 };
                assert(oc[oj] == i);
            }
        }
        assert(!new_list.on_chain(del)) by {
            if new_list.on_chain(del) {
                let j = choose|j: int| 0 <= j < nc.len() && nc[j] == del;
                let oj = if j <= sp { j } else { j + 1 };
                assert(oc[oj] == del);
                assert(oj != sp + 1);
            }
        }
    }

    #[verifier::spinoff_prover]
    proof fn lemma_unlink_links(old_list: &Self, new_list: &Self, sp: int)
        requires
            Self::unlink_step(old_list, new_list, sp),
        ensures
            forall|j: int|
                0 <= j < new_list.chain@.len() ==> (#[trigger] new_list.nodes@[new_list.chain@[j]]).succ@
                    == expected_succ(new_list.chain@, j, 0, 0),
            forall|a: int, b: int|
                1 <= a < b < new_list.chain@.len() ==> new_list.kint(#[trigger] new_list.chain@[a])
                    < new_list.kint(#[trigger] new_list.chain@[b]),
            forall|j: int|
                1 <= j < new_list.chain@.len() ==> (#[trigger] new_list.nodes@[new_list.chain@[j]]).element.is_some(),
            forall|j: int|
                0 <= j < new_list.chain@.len() ==> 0 <= #[trigger] new_list.chain@[j] < new_list.nodes@.len(),
    {
        Self::lemma_unlink_chain(old_list, new_list, sp);
        let oc = old_list.chain@;
        let nc = new_list.chain@;
        assert forall|j: int| 0 <= j < nc.len() implies (#[trigger] new_list.nodes@[nc[j]]).succ@
            == expected_succ(nc, j, 0, 0) by {
            if j < sp {
                assert(old_list.nodes@[oc[j]].succ@ == expected_succ(oc, j, sp, 2));
                assert(oc[j] != oc[sp]);
            } else if j == sp {
            } else {
                assert(old_list.nodes@[oc[j + 1]].succ@ == expected_succ(oc, j + 1, sp, 2));
                assert(oc[j + 1] != oc[sp]);
            }
        }
        assert forall|a: int, b: int| 1 <= a < b < nc.len() implies new_list.kint(#[trigger] nc[a])
            < new_list.kint(#[trigger] nc[b]) by {
            let oa = if a <= sp { a } else { a + 1 };
            let ob = if b <= sp { b } else { b + 1 };
            assert(old_list.kint(oc[oa]) < old_list.kint(oc[ob]));
        }
        assert forall|j: int| 1 <= j < nc.len() implies (#[trigger] new_list.nodes@[nc[j]]).element.is_some() by {
            let oj = if j <= sp { j } else { j + 1 };
            assert(old_list.nodes@[oc[oj]].element.is_some());
        }
        assert forall|j: int| 0 <= j < nc.len() implies 0 <= #[trigger] nc[j] < new_list.nodes@.len() by {
            let oj = if j <= sp { j } else { j + 1 };
            assert(0 <= oc[oj] < old_list.nodes@.len());
        }
    }

    #[verifier::spinoff_prover]
    proof fn lemma_unlink_unlinked(old_list: &Self, new_list: &Self, sp: int)
        requires
            Self::unlink_step(old_list, new_list, sp),
        ensures
            forall|i: int|
                0 <= i < new_list.nodes@.len() && !new_list.on_chain(i) ==> #[trigger] new_list.unlinked_ok(i),
    {
        Self::lemma_unlink_chain(old_list, new_list, sp);
        let oc = old_list.chain@;
        let nc = new_list.chain@;
        let del = oc[sp + 1];
        assert forall|i: int| 0 <= i < new_list.nodes@.len() && !new_list.on_chain(i) implies #[trigger] new_list.unlinked_ok(i) by {
            if i == del {
                assert(old_list.nodes@[oc[sp + 1]].succ@ == expected_succ(oc, sp + 1, sp, 2));
                assert(oc[sp + 1] != oc[sp]);
                let b = new_list.nodes@[i].backlink;
                assert(b == oc[sp] + 1);
                assert(nc[sp] == oc[sp]);
                assert(new_list.on_chain(b - 1));
            } else {
                assert(!old_list.on_chain(i));
                assert(old_list.unlinked_ok(i));
                assert(i != oc[sp]) by {
                    assert(old_list.on_chain(oc[sp]));
                }
                let b = old_list.nodes@[i].backlink;
                if b != 0 && old_list.on_chain(b - 1) && b - 1 == del {
                    assert(new_list.rank@[b - 1] == old_list.ndel@);
                }
            }
        }
    }

    #[verifier::spinoff_prover]
    proof fn lemma_unlink_entries(old_list: &Self, new_list: &Self, sp: int)
        requires
            Self::unlink_step(old_list, new_list, sp),
        ensures
            new_list.entries() == old_list.entries().remove(sp),
    {
        Self::lemma_unlink_chain(old_list, new_list, sp);
        let oc = old_list.chain@;
        let nc = new_list.chain@;
        let ne = new_list.entries();
        let oe = old_list.entries();
        assert forall|j: int| 0 <= j < ne.len() implies ne[j] == oe.remove(sp)[j] by {
            let oj = if j < sp { j } else { j + 1 };
            assert(nc.drop_first()[j] == nc[j + 1]);
            assert(oc.drop_first()[oj] == oc[oj + 1]);
            assert(nc[j + 1] == oc[oj + 1]);
        }
        assert(ne =~= oe.remove(sp));
    }

    /// Removing the node after position `sp` from a list in which that node is
    /// marked and its predecessor now links past it gives a consistent list.
    proof fn lemma_unlink(old_list: &Self, new_list: &Self, sp: int)
        requires
            Self::unlink_step(old_list, new_list, sp),
        ensures
            new_list.wf(),
            new_list.entries() == old_list.entries().remove(sp),
    {
        Self::lemma_unlink_chain(old_list, new_list, sp);
        Self::lemma_unlink_links(old_list, new_list, sp);
        Self::lemma_unlink_unlinked(old_list, new_list, sp);
        Self::lemma_unlink_entries(old_list, new_list, sp);
        assert(new_list.chain@[0] == old_list.chain@[0]);
    }

    /// Handle of the dummy head.
    pub fn head_node(&self) -> (h: usize)
        requires
            self.wf(),
        ensures
            h == self.head_handle(),
            self.is_live(h),
            self.valid_handle(h),
            self.pos_of(h) == 0,
            self.node_at(h).element.is_none(),
    {
        proof {
            self.lemma_live_at(0);
        }
        self.head
    }

    /// Unlinks the marked node `del` from its flagged predecessor `prev`, and hands
    /// it to the garbage bag.
    pub fn help_unflag(&mut self, prev_node: usize, del_node: usize)
        requires
            old(self).deleting(prev_node, del_node, 2) || (old(self).wf() && old(self).valid_handle(
                prev_node,
            ) && old(self).valid_handle(del_node)),
        ensures
            old(self).deleting(prev_node, del_node, 2) ==> {
                &&& final(self).wf()
                &&& final(self).entries() == old(self).entries().remove(old(self).pos_of(prev_node))
                &&& final(self).head_handle() == old(self).head_handle()
                &&& final(self).node_count() == old(self).node_count()
                &&& final(self).garbage() == old(self).garbage().push(GarbageItem { ptr: del_node })
                &&& final(self).same_data_as(old(self))
                &&& final(self).node_at(del_node) == old(self).node_at(del_node)
                &&& final(self).node_at(prev_node).succ@ == (SuccData {
                    ptr: old(self).node_at(del_node).succ@.ptr,
                    mark: false,
                    flag: false,
                })
            },
            !old(self).deleting(prev_node, del_node, 2) ==> final(self).same_state_as(old(self)),
    {
        let ghost unlinking = self.deleting(prev_node, del_node, 2);
        let ghost sp = choose|sp: int|
            self.inv(sp, 2) && self.chain@[sp] == prev_node - 1 && self.chain@[sp + 1] == del_node
                - 1;
        let ghost old_list = *self;
        proof {
            if unlinking {
                assert(self.chain@.contains(prev_node - 1));
                assert(self.pos_of(prev_node) == sp) by {
                    assert(self.chain@.no_duplicates());
                }
                assert(self.nodes@[self.chain@[sp + 1]].succ@ == expected_succ(self.chain@, sp + 1, sp, 2));
                assert(self.nodes@[self.chain@[sp]].succ@ == expected_succ(self.chain@, sp, sp, 2));
            } else {
                if self.on_chain(prev_node - 1) {
                    let j = choose|j: int| 0 <= j < self.chain@.len() && self.chain@[j] == prev_node - 1;
                    assert(self.nodes@[self.chain@[j]].succ@ == expected_succ(self.chain@, j, 0, 0));
                } else {
                    assert(self.unlinked_ok(prev_node - 1));
                }
                assert(!self.nodes@[prev_node - 1].succ@.flag);
            }
        }
        let next_node = self.nodes[del_node - 1].load_successor().ptr;
        let expected = SuccData::new_flagged(del_node);
        let new_val = SuccData::new(next_node);
        match self.nodes[prev_node - 1].swap_successor(expected, new_val) {
            Ok(e) => {
                ThreadedGC::push(&mut self.trash, e.ptr);
            },
            Err(_) => {},
        }
        proof {
            if unlinking {
                self.chain = Ghost(old_list.chain@.remove(sp + 1));
                self.rank = Ghost(old_list.rank@.update(old_list.chain@[sp + 1], old_list.ndel@));
                self.ndel = Ghost(old_list.ndel@ + 1);
                Self::lemma_unlink(&old_list, self, sp);
            } else {
                assert(self.nodes@ =~= old_list.nodes@);
            }
        }
    }

    /// How far the node with handle `h` is from the end of the list along successor
    /// words: the head is farthest, then nodes by decreasing key.
    pub closed spec fn walk_measure(&self, h: usize) -> nat {
        if h == self.head {
            0x4_0000_0000_0000_0000
        } else {
            (0x2_0000_0000_0000_0000 - self.key_of(h)) as nat
        }
    }

    proof fn lemma_walk_measure(&self, a: usize, b: usize)
        requires
            self.wf(),
            self.valid_handle(a),
            self.valid_handle(b),
            b != self.head,
            a == self.head || self.key_of(a) < self.key_of(b),
        ensures
            self.walk_measure(b) < self.walk_measure(a),
    {
        K::lemma_key_int_bounded(&self.node_at(a).key);
        K::lemma_key_int_bounded(&self.node_at(b).key);
    }

    /// Searches from the node `curr_node` for the first node whose key is not below
    /// `k`, following successor words (frozen ones too, from a deleted node); gives
    /// that node's predecessor and the node (0 when there is none).
    pub fn search_from(&mut self, k: &K, curr_node: usize) -> (r: (usize, usize))
        requires
            old(self).wf(),
            old(self).valid_handle(curr_node),
        ensures
            *final(self) == *old(self),
            final(self).valid_handle(r.0),
            final(self).node_at(r.0).succ@.ptr == r.1,
            r.0 == curr_node || (r.0 != final(self).head_handle() && final(self).key_of(r.0)
                < k.key_int()),
            r.1 == 0 || (final(self).valid_handle(r.1) && final(self).key_of(r.1) >= k.key_int()),
            old(self).is_live(curr_node) ==> {
                &&& final(self).is_live(r.0)
                &&& r.1 == final(self).next_live(r.0)
                &&& final(self).pos_of(r.0) >= final(self).pos_of(curr_node)
            },
    {
        let ghost start = curr_node;
        let ghost live_start = self.is_live(curr_node);
        let mut curr_node = curr_node;
        proof {
            if live_start {
                self.lemma_pos_of(curr_node);
                let p = self.pos_of(curr_node);
                assert(self.nodes@[self.chain@[p]].succ@ == expected_succ(self.chain@, p, 0, 0));
            } else {
                assert(self.unlinked_ok(curr_node - 1));
            }
        }
        let mut succ_curr = self.nodes[curr_node - 1].load_successor();
        let mut next_node = succ_curr.ptr;
        while next_node != 0 && self.nodes[next_node - 1].key.key_lt(k)
            invariant
                *self == *old(self),
                self.wf(),
                self.valid_handle(curr_node),
                curr_node == start || (curr_node != self.head && self.key_of(curr_node) < k.key_int()),
                succ_curr == self.nodes@[curr_node - 1].succ@,
                next_node == succ_curr.ptr,
                next_node == 0 || self.valid_handle(next_node),
                !self.is_live(curr_node) ==> succ_curr.mark,
                !self.is_live(curr_node) ==> next_node == 0 || (next_node != self.head && self.key_of(
                    curr_node,
                ) < self.key_of(next_node)),
                self.is_live(curr_node) ==> next_node == self.next_live(curr_node),
                live_start ==> self.is_live(curr_node) && self.pos_of(curr_node) >= self.pos_of(start),
                live_start == old(self).is_live(start),
            ensures
                *self == *old(self),
                self.wf(),
                self.valid_handle(curr_node),
                curr_node == start || (curr_node != self.head && self.key_of(curr_node) < k.key_int()),
                self.nodes@[curr_node - 1].succ@.ptr == next_node,
                next_node == 0 || (self.valid_handle(next_node) && self.key_of(next_node) >= k.key_int()),
                live_start ==> self.is_live(curr_node) && self.pos_of(curr_node) >= self.pos_of(start)
                    && next_node == self.next_live(curr_node),
            decreases self.walk_measure(curr_node),
        {
            let ghost p = self.pos_of(curr_node);
            proof {
                if self.is_live(curr_node) {
                    self.lemma_live_node(curr_node);
                    self.lemma_pos_of(curr_node);
                    assert(p + 1 < self.chain@.len());
                    self.lemma_live_at(p + 1);
                    assert(self.nodes@[self.chain@[p + 1]].succ@ == expected_succ(self.chain@, p + 1, 0, 0));
                }
            }
            let mut curr_succ_val = succ_curr;
            let mut next_succ_val = self.nodes[next_node - 1].load_successor();
            while next_succ_val.mark && (!curr_succ_val.mark || curr_succ_val.ptr != next_node)
                invariant
                    *self == *old(self),
                    self.wf(),
                    self.valid_handle(curr_node),
                    curr_node == start || (curr_node != self.head && self.key_of(curr_node) < k.key_int()),
                    succ_curr == self.nodes@[curr_node - 1].succ@,
                    curr_succ_val == succ_curr,
                    next_node == succ_curr.ptr,
                    next_node != 0,
                    self.valid_handle(next_node),
                    next_succ_val == self.nodes@[next_node - 1].succ@,
                    !self.is_live(curr_node) ==> succ_curr.mark,
                    self.is_live(curr_node) ==> !next_succ_val.mark,
                decreases 0nat,
            {
                if curr_succ_val.ptr == next_node {
                    self.help_unflag(curr_node, next_node);
                }
                succ_curr = self.nodes[curr_node - 1].load_successor();
                next_node = succ_curr.ptr;
                if next_node == 0 {
                    break;
                }
                curr_succ_val = succ_curr;
                next_succ_val = self.nodes[next_node - 1].load_successor();
            }
            if next_node != 0 && self.nodes[next_node - 1].key.key_lt(k) {
                let ghost prev_curr = curr_node;
                proof {
                    if self.is_live(curr_node) {
                        assert(next_node != self.head);
                    }
                    self.lemma_walk_measure(curr_node, next_node);
                }
                curr_node = next_node;
                succ_curr = self.nodes[curr_node - 1].load_successor();
                next_node = succ_curr.ptr;
                proof {
                    if self.is_live(prev_curr) {
                        assert(self.pos_of(curr_node) == p + 1);
                        assert(self.nodes@[self.chain@[p + 1]].succ@ == expected_succ(self.chain@, p + 1, 0, 0));
                    }
                    if self.is_live(curr_node) {
                        self.lemma_live_node(curr_node);
                    } else {
                        assert(self.unlinked_ok(curr_node - 1));
                    }
                }
            } else {
                break;
            }
        }
        (curr_node, next_node)
    }
}

impl<K: ListKey, V> LockFreeLinkedList<K, V> {
    /// Changing the successor (and backlink) of the node at position `y` from what
    /// stage (`sp1`, `st1`) wants to what stage (`sp2`, `st2`) wants, where the two
    /// stages agree on every other position, keeps the list consistent.
    #[verifier::spinoff_prover]
    proof fn lemma_restage(
        old_list: &Self,
        new_list: &Self,
        y: int,
        sp1: int,
        st1: int,
        sp2: int,
        st2: int,
    )
        requires
            old_list.inv(sp1, st1),
            0 <= y < old_list.chain@.len(),
            0 <= st2 <= 2,
            st2 >= 1 ==> 0 <= sp2 && sp2 + 1 < old_list.chain@.len(),
            forall|j: int|
                0 <= j < old_list.chain@.len() && j != y ==> expected_succ(old_list.chain@, j, sp1, st1)
                    == expected_succ(old_list.chain@, j, sp2, st2),
            new_list.nodes@.len() == old_list.nodes@.len(),
            forall|i: int|
                0 <= i < old_list.nodes@.len() && i != old_list.chain@[y] ==> new_list.nodes@[i]
                    == old_list.nodes@[i],
            new_list.nodes@[old_list.chain@[y]].key == old_list.nodes@[old_list.chain@[y]].key,
            new_list.nodes@[old_list.chain@[y]].element == old_list.nodes@[old_list.chain@[y]].element,
            new_list.nodes@[old_list.chain@[y]].succ@ == expected_succ(old_list.chain@, y, sp2, st2),
            st2 == 2 ==> new_list.nodes@[old_list.chain@[sp2 + 1]].backlink == old_list.chain@[sp2] + 1,
            new_list.chain@ == old_list.chain@,
            new_list.rank@ == old_list.rank@,
            new_list.ndel@ == old_list.ndel@,
            new_list.head == old_list.head,
            new_list.trash@ == old_list.trash@,
        ensures
            new_list.inv(sp2, st2),
            new_list.entries() == old_list.entries(),
            new_list.same_links_as(old_list),
    {
        let c = old_list.chain@;
        assert forall|j: int| 0 <= j < c.len() implies (#[trigger] new_list.nodes@[c[j]]).succ@
            == expected_succ(c, j, sp2, st2) by {
            if j != y {
                assert(c[j] != c[y]);
                assert(old_list.nodes@[c[j]].succ@ == expected_succ(c, j, sp1, st1));
            }
        }
        assert forall|a: int, b: int| 1 <= a < b < c.len() implies new_list.kint(#[trigger] c[a])
            < new_list.kint(#[trigger] c[b]) by {
            assert(old_list.kint(c[a]) < old_list.kint(c[b]));
        }
        assert forall|j: int| 1 <= j < c.len() implies (#[trigger] new_list.nodes@[c[j]]).element.is_some() by {
            assert(old_list.nodes@[c[j]].element.is_some());
        }
        assert forall|i: int| 0 <= i < new_list.nodes@.len() && !new_list.on_chain(i) implies #[trigger] new_list.unlinked_ok(i) by {
            assert(old_list.unlinked_ok(i));
            assert(i != c[y]) by {
                assert(old_list.on_chain(c[y]));
            }
        }
        assert(new_list.entries() =~= old_list.entries()) by {
            assert forall|j: int| 0 <= j < new_list.entries().len() implies new_list.entries()[j] == old_list.entries()[j] by {
                assert(c.drop_first()[j] == c[j + 1]);
            }
        }
    }

    /// Marks `del_node`, whose predecessor is flagged and whose backlink leads to that
    /// predecessor.
    pub fn try_mark(&mut self, del_node: usize)
        requires
            (exists|prev: usize|
                old(self).deleting(prev, del_node, 1) && old(self).node_at(del_node).backlink == prev)
                || (old(self).wf() && old(self).valid_handle(del_node) && old(self).node_at(
                del_node,
            ).succ@.mark),
        ensures
            old(self).node_at(del_node).succ@.mark ==> *final(self) == *old(self),
            forall|prev: usize|
                old(self).deleting(prev, del_node, 1) && old(self).node_at(del_node).backlink == prev
                    ==> final(self).deleting(prev, del_node, 2),
            final(self).entries() == old(self).entries(),
            final(self).same_links_as(old(self)),
            final(self).node_at(del_node).backlink == old(self).node_at(del_node).backlink,
            final(self).node_at(del_node).succ@ == (SuccData {
                ptr: old(self).node_at(del_node).succ@.ptr,
                mark: true,
                flag: false,
            }),
        decreases 0nat,
    {
        if self.nodes[del_node - 1].load_successor().mark {
            proof {
                assert forall|pv: usize|
                    self.deleting(pv, del_node, 1) && self.node_at(del_node).backlink == pv implies self.deleting(
                    pv,
                    del_node,
                    2,
                ) by {
                    let sp2 = choose|sp: int|
                        self.inv(sp, 1) && self.chain@[sp] == pv - 1 && self.chain@[sp + 1] == del_node - 1;
                    assert(self.nodes@[self.chain@[sp2 + 1]].succ@ == expected_succ(self.chain@, sp2 + 1, sp2, 1));
                }
                assert(!self.nodes@[del_node - 1].succ@.flag) by {
                    if exists|pv: usize|
                        self.deleting(pv, del_node, 1) && self.node_at(del_node).backlink == pv {
                        let pv = choose|pv: usize|
                            self.deleting(pv, del_node, 1) && self.node_at(del_node).backlink == pv;
                        let sp2 = choose|sp: int|
                            self.inv(sp, 1) && self.chain@[sp] == pv - 1 && self.chain@[sp + 1] == del_node - 1;
                        assert(self.nodes@[self.chain@[sp2 + 1]].succ@ == expected_succ(self.chain@, sp2 + 1, sp2, 1));
                    } else if self.on_chain(del_node - 1) {
                        let j = choose|j: int| 0 <= j < self.chain@.len() && self.chain@[j] == del_node - 1;
                        assert(self.nodes@[self.chain@[j]].succ@ == expected_succ(self.chain@, j, 0, 0));
                    } else {
                        assert(self.unlinked_ok(del_node - 1));
                    }
                }
            }
            return;
        }
        let ghost prev = choose|prev: usize|
            self.deleting(prev, del_node, 1) && self.node_at(del_node).backlink == prev;
        let ghost sp = choose|sp: int|
            self.inv(sp, 1) && self.chain@[sp] == prev - 1 && self.chain@[sp + 1] == del_node - 1;
        let ghost old_list = *self;
        proof {
            assert(self.nodes@[self.chain@[sp + 1]].succ@ == expected_succ(self.chain@, sp + 1, sp, 1));
        }
        loop
            invariant_except_break
                *self == old_list,
            invariant
                old_list == *old(self),
                old_list.inv(sp, 1),
                old_list.chain@[sp + 1] == del_node - 1,
                old_list.nodes@[del_node - 1].succ@ == expected_succ(old_list.chain@, sp + 1, sp, 1),
                1 <= del_node <= old_list.nodes@.len(),
                old_list.nodes@[del_node - 1].backlink == old_list.chain@[sp] + 1,
            ensures
                self.inv(sp, 2),
                self.entries() == old_list.entries(),
                self.same_links_as(&old_list),
            decreases 0nat,
        {
            let succ_val = self.nodes[del_node - 1].load_successor();
            if succ_val.mark {
                break;
            }
            let expected = SuccData::new(succ_val.ptr);
            let new_val = SuccData::new_marked(succ_val.ptr);
            match self.nodes[del_node - 1].swap_successor(expected, new_val) {
                Ok(_) => {
                    proof {
                        Self::lemma_restage(&old_list, self, sp + 1, sp, 1, sp, 2);
                    }
                    break;
                },
                Err(actual) => {
                    if actual.flag {
                        self.help_flagged(del_node, actual.ptr);
                    }
                },
            }
        }
        proof {
            assert forall|pv: usize|
                old_list.deleting(pv, del_node, 1) && old_list.node_at(del_node).backlink
                    == pv implies self.deleting(pv, del_node, 2) by {
                assert(pv == prev);
            }
        }
    }

    /// Finishes the deletion of `del_node`, whose predecessor `prev_node` is flagged:
    /// sets the backlink, marks the node and unlinks it.
    pub fn help_flagged(&mut self, prev_node: usize, del_node: usize)
        requires
            old(self).deleting(prev_node, del_node, 1),
        ensures
            final(self).wf(),
            final(self).entries() == old(self).entries().remove(old(self).pos_of(prev_node)),
            final(self).head_handle() == old(self).head_handle(),
            final(self).node_count() == old(self).node_count(),
            final(self).garbage() == old(self).garbage().push(GarbageItem { ptr: del_node }),
            final(self).same_data_as(old(self)),
            final(self).node_at(del_node).backlink == prev_node,
            final(self).node_at(del_node).succ@ == (SuccData {
                ptr: old(self).node_at(del_node).succ@.ptr,
                mark: true,
                flag: false,
            }),
            final(self).node_at(prev_node).succ@ == (SuccData {
                ptr: old(self).node_at(del_node).succ@.ptr,
                mark: false,
                flag: false,
            }),
        decreases 1nat,
    {
        let ghost sp = choose|sp: int|
            self.inv(sp, 1) && self.chain@[sp] == prev_node - 1 && self.chain@[sp + 1] == del_node
                - 1;
        let ghost old_list = *self;
        proof {
            assert(self.chain@.contains(prev_node - 1));
            assert(self.pos_of(prev_node) == sp) by {
                assert(self.chain@.no_duplicates());
            }
            assert(self.nodes@[self.chain@[sp + 1]].succ@ == expected_succ(self.chain@, sp + 1, sp, 1));
        }
        self.nodes[del_node - 1].store_backlink(prev_node);
        proof {
            Self::lemma_restage(&old_list, self, sp + 1, sp, 1, sp, 1);
            assert(self.pos_of(prev_node) == sp) by {
                assert(self.chain@.contains(prev_node - 1));
                assert(self.chain@.no_duplicates());
            }
        }
        let succ_val = self.nodes[del_node - 1].load_successor();
        if !succ_val.mark {
            proof {
                assert(self.chain@[sp] == prev_node - 1);
                assert(self.deleting(prev_node, del_node, 1));
                assert(self.node_at(del_node).backlink == prev_node);
            }
            self.try_mark(del_node);
        }
        proof {
            assert(self.deleting(prev_node, del_node, 2));
            assert(self.pos_of(prev_node) == sp) by {
                assert(self.chain@.contains(prev_node - 1));
                assert(self.chain@.no_duplicates());
            }
        }
        self.help_unflag(prev_node, del_node);
    }
}

impl<K: ListKey, V> LockFreeLinkedList<K, V> {
    /// What a search result tells: with `prev` before `k` (or the head) and `next`
    /// right after it and not below `k`, the entries before `prev`'s position are below
    /// `k`, the others are not, and `k` is present just when `next` holds it.
    #[verifier::spinoff_prover]
    proof fn lemma_search_result(&self, prev: usize, next: usize, k: int)
        requires
            self.wf(),
            self.is_live(prev),
            next == self.next_live(prev),
            prev == self.head || self.key_of(prev) < k,
            next == 0 || self.key_of(next) >= k,
        ensures
            0 <= self.pos_of(prev) <= self.entries().len(),
            forall|j: int| 0 <= j < self.pos_of(prev) ==> (#[trigger] self.entries()[j]).0.key_int() < k,
            forall|j: int|
                self.pos_of(prev) <= j < self.entries().len() ==> (#[trigger] self.entries()[j]).0.key_int() >= k,
            has_key(self.entries(), k) <==> (next != 0 && self.key_of(next) == k),
            next != 0 ==> self.pos_of(prev) < self.entries().len() && self.is_live(next)
                && self.pos_of(next) == self.pos_of(prev) + 1 && self.entries()[self.pos_of(prev)] == (
                self.node_at(next).key,
                self.node_at(next).element.unwrap(),
            ),
            next == 0 ==> self.pos_of(prev) == self.entries().len(),
    {
        self.lemma_pos_of(prev);
        self.lemma_entries_sorted();
        let p = self.pos_of(prev);
        let c = self.chain@;
        let e = self.entries();
        if p == 0 {
            assert(prev == self.head) by {
                if prev != self.head {
                    assert(c[0] == self.head - 1);
                }
            }
        }
        assert forall|j: int| 0 <= j < p implies (#[trigger] e[j]).0.key_int() < k by {
            assert(e[j].0.key_int() == self.kint(c[j + 1]));
            if j + 1 < p {
                assert(self.kint(c[j + 1]) < self.kint(c[p]));
            }
        }
        if next != 0 {
            assert(p + 1 < c.len());
            self.lemma_live_at(p + 1);
            assert(next - 1 == c[p + 1]);
            assert(e[p].0.key_int() == self.kint(c[p + 1]));
            assert(e[p] == (self.node_at(next).key, self.node_at(next).element.unwrap())) by {
                assert(c.drop_first()[p] == c[p + 1]);
            }
        }
        assert forall|j: int| p <= j < e.len() implies (#[trigger] e[j]).0.key_int() >= k by {
            assert(e[j].0.key_int() == self.kint(c[j + 1]));
            assert(p + 1 < c.len());
            assert(next - 1 == c[p + 1]);
            if j > p {
                assert(self.kint(c[p + 1]) < self.kint(c[j + 1]));
            }
        }
        if has_key(e, k) {
            let j = choose|j: int| 0 <= j < e.len() && (#[trigger] e[j]).0.key_int() == k;
            assert(j >= p);
            if j > p {
                assert(e[p].0.key_int() < e[j].0.key_int());
            }
        }
        if next != 0 && self.key_of(next) == k {
            assert(e[p].0.key_int() == k);
        }
    }

    /// Lists in the same state are alike in every view.
    proof fn lemma_same_state(&self, other: &Self)
        requires
            self.same_state_as(other),
            other.wf(),
        ensures
            self.wf(),
            self.entries() == other.entries(),
            forall|h: usize| #[trigger] self.is_live(h) == other.is_live(h),
            forall|h: usize| #[trigger] self.pos_of(h) == other.pos_of(h),
            forall|h: usize| #[trigger] self.next_live(h) == other.next_live(h),
            forall|h: usize| #[trigger] self.node_at(h) == other.node_at(h),
            self.node_count() == other.node_count(),
            self.head_handle() == other.head_handle(),
            self.garbage() == other.garbage(),
    {
        let c = self.chain@;
        assert forall|a: int, b: int| 1 <= a < b < c.len() implies self.kint(#[trigger] c[a]) < self.kint(
            #[trigger] c[b],
        ) by {
            assert(other.kint(c[a]) < other.kint(c[b]));
        }
        assert forall|i: int| 0 <= i < self.nodes@.len() && !self.on_chain(i) implies #[trigger] self.unlinked_ok(i) by {
            assert(other.unlinked_ok(i));
        }
    }

    /// Two nodes of the list other than the head with the same key are the same node.
    proof fn lemma_live_key_unique(&self, a: usize, b: usize)
        requires
            self.wf(),
            self.is_live(a),
            self.is_live(b),
            a != self.head,
            b != self.head,
            self.key_of(a) == self.key_of(b),
        ensures
            a == b,
    {
        self.lemma_pos_of(a);
        self.lemma_pos_of(b);
        let ja = self.pos_of(a);
        let jb = self.pos_of(b);
        let c = self.chain@;
        assert(ja != 0);
        assert(jb != 0);
        if ja < jb {
            assert(self.kint(c[ja]) < self.kint(c[jb]));
        } else if jb < ja {
            assert(self.kint(c[jb]) < self.kint(c[ja]));
        }
    }

    /// The key of a node of the list other than the head is held.
    proof fn lemma_live_entry(&self, h: usize)
        requires
            self.wf(),
            self.is_live(h),
            h != self.head,
        ensures
            has_key(self.entries(), self.key_of(h)),
    {
        self.lemma_pos_of(h);
        self.lemma_entries_sorted();
        let j = self.pos_of(h);
        assert(j != 0);
        assert(self.entries()[j - 1].0.key_int() == self.kint(self.chain@[j]));
    }

    /// Flags the predecessor of `target_node` so that the target can be deleted,
    /// searching for that predecessor from `prev_node`, a node before the target (one
    /// that has been deleted leads back through its backlinks). Gives the flagged node
    /// and `true`; `(prev_node, false)` when `prev_node` already flags the target; and
    /// `(0, false)` when the target is not in the list.
    pub fn try_flag(&mut self, prev_node: usize, target_node: usize) -> (r: (usize, bool))
        requires
            old(self).deleting(prev_node, target_node, 1) || old(self).deleting(prev_node, target_node, 2)
                || (old(self).wf() && old(self).valid_handle(prev_node) && old(self).valid_handle(
                target_node,
            ) && target_node != old(self).head_handle() && (old(self).is_live(target_node) ==> prev_node
                == old(self).head_handle() || old(self).key_of(prev_node) < old(self).key_of(target_node))),
        ensures
            old(self).deleting(prev_node, target_node, 1) || old(self).deleting(prev_node, target_node, 2)
                ==> r == (prev_node, false) && *final(self) == *old(self),
            old(self).wf() && old(self).is_live(target_node) ==> {
                &&& r.1
                &&& old(self).is_live(r.0)
                &&& old(self).next_live(r.0) == target_node
                &&& final(self).deleting(r.0, target_node, 1)
                &&& final(self).entries() == old(self).entries()
                &&& final(self).same_links_as(old(self))
            },
            old(self).wf() && old(self).is_live(prev_node) && old(self).next_live(prev_node) == target_node
                ==> r.0 == prev_node,
            old(self).wf() && !old(self).is_live(target_node) ==> r == (0usize, false)
                && final(self).same_state_as(old(self)),
            r.1 ==> final(self).node_at(r.0).succ@ == (SuccData { ptr: target_node, mark: false, flag: true }),
    {
        let ghost old_list = *self;
        let ghost midway = old_list.deleting(prev_node, target_node, 1) || old_list.deleting(
            prev_node,
            target_node,
            2,
        );
        proof {
            if midway {
                let st: int = if old_list.deleting(prev_node, target_node, 1) {
                    1
                } else {
                    2
                };
                old_list.lemma_deleting_words(prev_node, target_node, st);
                let sp = choose|sp: int|
                    old_list.inv(sp, st) && old_list.chain@[sp] == prev_node - 1 && old_list.chain@[sp + 1]
                        == target_node - 1;
                assert(0 <= old_list.chain@[sp] < old_list.nodes@.len());
            }
        }
        let mut prev = prev_node;
        loop
            invariant
                old_list == *old(self),
                midway == (old_list.deleting(prev_node, target_node, 1) || old_list.deleting(
                    prev_node,
                    target_node,
                    2,
                )),
                midway ==> *self == old_list && prev == prev_node && old_list.valid_handle(prev_node)
                    && old_list.node_at(prev_node).succ@ == (SuccData {
                    ptr: target_node,
                    mark: false,
                    flag: true,
                }),
                !midway ==> self.same_state_as(&old_list),
                !midway ==> self.wf(),
                !midway ==> old_list.wf(),
                !midway ==> old_list.valid_handle(prev),
                !midway ==> old_list.valid_handle(target_node),
                !midway ==> target_node != old_list.head_handle(),
                !midway && old_list.is_live(target_node) ==> prev == old_list.head_handle()
                    || old_list.key_of(prev) < old_list.key_of(target_node),
                !midway && old_list.is_live(prev_node) && old_list.next_live(prev_node) == target_node
                    ==> prev == prev_node,
            decreases (if midway || (old_list.is_live(prev) && old_list.next_live(prev) == target_node) {
                0nat
            } else if old_list.is_live(prev) {
                1nat
            } else {
                2nat
            }),
        {
            proof {
                if !midway {
                    self.lemma_same_state(&old_list);
                    if old_list.is_live(prev) {
                        old_list.lemma_live_node(prev);
                    } else {
                        assert(!old_list.on_chain(prev - 1));
                        assert(old_list.unlinked_ok(prev - 1));
                    }
                }
            }
            let succ_val = self.nodes[prev - 1].load_successor();
            if succ_val.ptr == target_node && succ_val.flag {
                return (prev, false);
            }
            let expected = SuccData::new(target_node);
            let new_val = SuccData::new_flagged(target_node);
            let ghost sp = self.pos_of(prev);
            proof {
                if old_list.is_live(prev) {
                    self.lemma_pos_of(prev);
                    assert(self.nodes@[self.chain@[sp]].succ@ == expected_succ(self.chain@, sp, 0, 0));
                }
            }
            match self.nodes[prev - 1].swap_successor(expected, new_val) {
                Ok(_) => {
                    proof {
                        assert(old_list.is_live(prev));
                        assert(sp + 1 < old_list.chain@.len());
                        Self::lemma_restage(&old_list, self, sp, 0, 0, sp, 1);
                        assert(self.chain@[sp] == prev - 1);
                        assert(self.chain@[sp + 1] == target_node - 1);
                        old_list.lemma_live_at(sp + 1);
                        self.lemma_deleting_words(prev, target_node, 1);
                    }
                    return (prev, true);
                },
                Err(actual) => {
                    proof {
                        assert(self.nodes@ =~= old_list.nodes@);
                        assert(self.same_state_as(&old_list));
                        self.lemma_same_state(&old_list);
                    }
                    if actual.ptr == target_node && actual.flag {
                        return (prev, false);
                    }
                    while self.nodes[prev - 1].load_successor().mark
                        invariant
                            self.same_state_as(&old_list),
                            self.wf(),
                            old_list.wf(),
                            old_list == *old(self),
                            !midway,
                            self.valid_handle(prev),
                            old_list.valid_handle(target_node),
                            old_list.is_live(target_node) ==> prev == old_list.head_handle()
                                || old_list.key_of(prev) < old_list.key_of(target_node),
                        ensures
                            self.same_state_as(&old_list),
                            self.wf(),
                            self.valid_handle(prev),
                            old_list.is_live(target_node) ==> prev == old_list.head_handle()
                                || old_list.key_of(prev) < old_list.key_of(target_node),
                            !self.nodes@[prev - 1].succ@.mark,
                        decreases self.back_measure(prev),
                    {
                        proof {
                            self.lemma_backlink(prev);
                            self.lemma_same_state(&old_list);
                        }
                        let bl = self.nodes[prev - 1].load_backlink();
                        if bl != 0 {
                            prev = bl;
                        } else {
                            break;
                        }
                    }
                    proof {
                        self.lemma_unmarked_is_live(prev);
                        self.lemma_same_state(&old_list);
                    }
                    let target_key = self.nodes[target_node - 1].key.key_clone();
                    let (new_prev, del_node) = self.search_from(&target_key, prev);
                    proof {
                        self.lemma_same_state(&old_list);
                        if old_list.is_live(target_node) {
                            self.lemma_search_result(new_prev, del_node, target_key.key_int());
                            assert(self.is_live(target_node));
                            self.lemma_live_entry(target_node);
                            self.lemma_live_key_unique(del_node, target_node);
                        }
                    }
                    if del_node != target_node {
                        return (0, false);
                    }
                    prev = new_prev;
                },
            }
        }
    }

    /// Deletes the entry with key `key`; gives whether there was one.
    pub fn delete(&mut self, key: &K) -> (deleted: bool)
        requires
            old(self).wf(),
        ensures
            final(self).wf(),
            deleted == has_key(old(self).entries(), key.key_int()),
            removed_from(old(self).entries(), final(self).entries(), key.key_int()),
            deleted ==> final(self).garbage().len() == old(self).garbage().len() + 1,
            !deleted ==> final(self).garbage() == old(self).garbage(),
            final(self).head_handle() == old(self).head_handle(),
            final(self).node_count() == old(self).node_count(),
            final(self).node_at(final(self).head_handle()).key == old(self).node_at(old(self).head_handle()).key,
    {
        let head_ptr = self.head_node();
        let (prev_node, del_node) = self.search_from(key, head_ptr);
        proof {
            self.lemma_search_result(prev_node, del_node, key.key_int());
        }
        if del_node == 0 || !self.nodes[del_node - 1].key.key_eq(key) {
            return false;
        }
        let ghost p = self.pos_of(prev_node);
        let (actual_prev, result) = self.try_flag(prev_node, del_node);
        proof {
            assert(self.pos_of(prev_node) == p);
        }
        if actual_prev != 0 {
            self.help_flagged(actual_prev, del_node);
        }
        result
    }
}

impl<K: ListKey, V> LockFreeLinkedList<K, V> {
    /// `new_list` is `base` with a new node (at the end of the arena) linked after
    /// position `jp`.
    spec fn link_step(base: &Self, new_list: &Self, jp: int) -> bool {
        let c = base.chain@;
        let ni = base.nodes@.len() as int;
        &&& base.wf()
        &&& 0 <= jp < c.len()
        &&& new_list.nodes@.len() == ni + 1
        &&& new_list.nodes@.len() <= MAX_PTR
        &&& forall|i: int| 0 <= i < ni && i != c[jp] ==> new_list.nodes@[i] == base.nodes@[i]
        &&& new_list.nodes@[c[jp]].key == base.nodes@[c[jp]].key
        &&& new_list.nodes@[c[jp]].element == base.nodes@[c[jp]].element
        &&& new_list.nodes@[c[jp]].backlink == base.nodes@[c[jp]].backlink
        &&& new_list.nodes@[c[jp]].succ@ == clean(ni + 1)
        &&& new_list.nodes@[ni].succ@ == clean(next_handle(c, jp))
        &&& new_list.nodes@[ni].element.is_some()
        &&& (jp == 0 || base.kint(c[jp]) < new_list.kint(ni))
        &&& (jp + 1 == c.len() || new_list.kint(ni) < base.kint(c[jp + 1]))
        &&& new_list.chain@ == c.insert(jp + 1, ni)
        &&& new_list.rank@ == base.rank@.push(0)
        &&& new_list.ndel@ == base.ndel@
        &&& new_list.head == base.head
    }

    #[verifier::spinoff_prover]
    #[verifier::rlimit(40)]
    proof fn lemma_link_chain(base: &Self, new_list: &Self, jp: int)
        requires
            Self::link_step(base, new_list, jp),
        ensures
            new_list.chain@.len() == base.chain@.len() + 1,
            forall|j: int| #![trigger new_list.chain@[j]]
                0 <= j < new_list.chain@.len() ==> new_list.chain@[j] == (if j <= jp {
                    base.chain@[j]
                } else if j == jp + 1 {
                    base.nodes@.len() as int
                } else {
                    base.chain@[j - 1]
                }),
            new_list.chain@.no_duplicates(),
            forall|i: int|
                0 <= i < base.nodes@.len() ==> (#[trigger] new_list.on_chain(i) <==> base.on_chain(i)),
            new_list.on_chain(base.nodes@.len() as int),
    {
        let c = base.chain@;
        let nc = new_list.chain@;
        let ni = base.nodes@.len() as int;
        assert forall|j: int| 0 <= j < c.len() implies c[j] < ni by {}
        assert(nc.no_duplicates()) by {
            assert forall|a: int, b: int| 0 <= a < b < nc.len() implies nc[a] != nc[b] by {
                if a != jp + 1 && b != jp + 1 {
                    let oa = if a <= jp { a } else { a - 1 };
                    let ob = if b <= jp { b } else { b - 1 };
                    assert(c[oa] != c[ob]);
                }
            }
        }
        assert forall|i: int| 0 <= i < ni implies (#[trigger] new_list.on_chain(i) <==> base.on_chain(i)) by {
            if base.on_chain(i) {
                let j = choose|j: int| 0 <= j < c.len() && c[j] == i;
                let nj = if j <= jp { j } else { j + 1 };
                assert(nc[nj] == i);
            }
            if new_list.on_chain(i) {
                let j = choose|j: int| 0 <= j < nc.len() && nc[j] == i;
                assert(j != jp + 1);
                let oj = if j <= jp { j } else { j - 1 };
                assert(c[oj] == i);
            }
        }
        assert(nc[jp + 1] == ni);
    }

    #[verifier::spinoff_prover]
    #[verifier::rlimit(40)]
    proof fn lemma_link_links(base: &Self, new_list: &Self, jp: int)
        requires
            Self::link_step(base, new_list, jp),
        ensures
            forall|j: int|
                0 <= j < new_list.chain@.len() ==> (#[trigger] new_list.nodes@[new_list.chain@[j]]).succ@
                    == expected_succ(new_list.chain@, j, 0, 0),
            forall|j: int|
                1 <= j < new_list.chain@.len() ==> (#[trigger] new_list.nodes@[new_list.chain@[j]]).element.is_some(),
            forall|j: int|
                0 <= j < new_list.chain@.len() ==> 0 <= #[trigger] new_list.chain@[j] < new_list.nodes@.len(),
    {
        Self::lemma_link_chain(base, new_list, jp);
        let c = base.chain@;
        let nc = new_list.chain@;
        let ni = base.nodes@.len() as int;
        assert forall|j: int| 0 <= j < nc.len() implies (#[trigger] new_list.nodes@[nc[j]]).succ@
            == expected_succ(nc, j, 0, 0) by {
            if j < jp {
                assert(base.nodes@[c[j]].succ@ == expected_succ(c, j, 0, 0));
                assert(c[j] != c[jp]);
                assert(c[j] < ni);
            } else if j == jp {
            } else if j == jp + 1 {
            } else {
                assert(base.nodes@[c[j - 1]].succ@ == expected_succ(c, j - 1, 0, 0));
                assert(c[j - 1] != c[jp]);
                assert(c[j - 1] < ni);
            }
        }
        assert forall|j: int| 1 <= j < nc.len() implies (#[trigger] new_list.nodes@[nc[j]]).element.is_some() by {
            if j != jp + 1 {
                let oj = if j <= jp { j } else { j - 1 };
                assert(base.nodes@[c[oj]].element.is_some());
                if c[oj] != c[jp] {
                    assert(c[oj] < ni);
                }
            }
        }
        assert forall|j: int| 0 <= j < nc.len() implies 0 <= #[trigger] nc[j] < new_list.nodes@.len() by {
            if j != jp + 1 {
                let oj = if j <= jp { j } else { j - 1 };
                assert(0 <= c[oj] < ni);
            }
        }
    }

    #[verifier::spinoff_prover]
    #[verifier::rlimit(40)]
    proof fn lemma_link_order(base: &Self, new_list: &Self, jp: int)
        requires
            Self::link_step(base, new_list, jp),
        ensures
            forall|a: int, b: int|
                1 <= a < b < new_list.chain@.len() ==> new_list.kint(#[trigger] new_list.chain@[a])
                    < new_list.kint(#[trigger] new_list.chain@[b]),
            forall|i: int|
                0 <= i < new_list.nodes@.len() && !new_list.on_chain(i) ==> #[trigger] new_list.unlinked_ok(i),
    {
        Self::lemma_link_chain(base, new_list, jp);
        let c = base.chain@;
        let nc = new_list.chain@;
        let ni = base.nodes@.len() as int;
        assert forall|j: int| 0 <= j < c.len() implies new_list.kint(c[j]) == base.kint(c[j]) by {
            if c[j] != c[jp] {
                assert(c[j] < ni);
            }
        }
        assert forall|a: int, b: int| 1 <= a < b < nc.len() implies new_list.kint(#[trigger] nc[a])
            < new_list.kint(#[trigger] nc[b]) by {
            let oa = if a <= jp { a } else { a - 1 };
            let ob = if b <= jp { b } else { b - 1 };
            assert(new_list.kint(c[oa]) == base.kint(c[oa]));
            assert(new_list.kint(c[ob]) == base.kint(c[ob]));
            if a == jp + 1 {
                if jp + 1 < c.len() && ob > jp + 1 {
                    assert(base.kint(c[jp + 1]) < base.kint(c[ob]));
                }
            } else if b == jp + 1 {
                if jp >= 1 && a < jp {
                    assert(base.kint(c[a]) < base.kint(c[jp]));
                }
            } else {
                assert(base.kint(c[oa]) < base.kint(c[ob]));
            }
        }
        assert forall|i: int| 0 <= i < new_list.nodes@.len() && !new_list.on_chain(i) implies #[trigger] new_list.unlinked_ok(i) by {
            assert(i < ni);
            assert(!base.on_chain(i));
            assert(base.unlinked_ok(i));
            assert(i != c[jp]) by {
                assert(base.on_chain(c[jp]));
            }
            let b = base.nodes@[i].backlink;
            if b != 0 && base.on_chain(b - 1) {
                assert(new_list.on_chain(b - 1));
            }
        }
    }

    #[verifier::spinoff_prover]
    proof fn lemma_link_entries(base: &Self, new_list: &Self, jp: int)
        requires
            Self::link_step(base, new_list, jp),
        ensures
            new_list.entries() == base.entries().insert(
                jp,
                (
                    new_list.nodes@[base.nodes@.len() as int].key,
                    new_list.nodes@[base.nodes@.len() as int].element.unwrap(),
                ),
            ),
    {
        Self::lemma_link_chain(base, new_list, jp);
        let c = base.chain@;
        let nc = new_list.chain@;
        let ni = base.nodes@.len() as int;
        let ne = new_list.entries();
        let be = base.entries().insert(jp, (new_list.nodes@[ni].key, new_list.nodes@[ni].element.unwrap()));
        assert forall|j: int| 0 <= j < ne.len() implies ne[j] == be[j] by {
            assert(nc.drop_first()[j] == nc[j + 1]);
            if j < jp {
                assert(c.drop_first()[j] == c[j + 1]);
                assert(c[j + 1] != c[jp] || j + 1 == jp);
                assert(c[j + 1] < ni);
            } else if j > jp {
                assert(c.drop_first()[j - 1] == c[j]);
                assert(c[j] < ni);
            }
        }
        assert(ne =~= be);
    }

    proof fn lemma_link(base: &Self, new_list: &Self, jp: int)
        requires
            Self::link_step(base, new_list, jp),
        ensures
            new_list.wf(),
            new_list.entries() == base.entries().insert(
                jp,
                (
                    new_list.nodes@[base.nodes@.len() as int].key,
                    new_list.nodes@[base.nodes@.len() as int].element.unwrap(),
                ),
            ),
    {
        Self::lemma_link_chain(base, new_list, jp);
        Self::lemma_link_links(base, new_list, jp);
        Self::lemma_link_order(base, new_list, jp);
        Self::lemma_link_entries(base, new_list, jp);
        assert(new_list.chain@[0] == base.chain@[0]);
    }
}

impl<K: ListKey, V> LockFreeLinkedList<K, V> {
    /// A list without its head node; `init` allocates it.
    pub fn uninit() -> (list: Self)
        ensures
            list.is_uninit(),
            list.garbage().len() == 0,
    {
        Self {
            nodes: Vec::new(),
            head: 0,
            trash: ThreadLocalBag::new(),
            chain: Ghost(Seq::empty()),
            rank: Ghost(Seq::empty()),
            ndel: Ghost(0),
        }
    }

    /// Allocates the dummy head if there is none yet; gives its handle.
    pub fn init(&mut self) -> (h: usize)
        requires
            old(self).is_uninit() || old(self).wf(),
        ensures
            final(self).wf(),
            h == final(self).head_handle(),
            final(self).node_at(h).element.is_none(),
            old(self).wf() ==> *final(self) == *old(self),
            old(self).is_uninit() ==> final(self).entries().len() == 0 && final(self).node_count() == 1
                && h == 1,
            final(self).garbage() == old(self).garbage(),
    {
        if self.head != 0 {
            return self.head;
        }
        let dummy_head = LinkedNode {
            key: K::key_default(),
            element: None,
            backlink: 0,
            succ: AtomicSucc::default(),
        };
        self.nodes.push(dummy_head);
        self.head = 1;
        proof {
            self.chain = Ghost(seq![0int]);
            self.rank = Ghost(seq![0nat]);
            assert(self.chain@.no_duplicates());
            assert forall|i: int| 0 <= i < self.nodes@.len() implies self.on_chain(i) by {
                assert(self.chain@[0] == i);
            }
            assert(self.entries() =~= Seq::empty());
        }
        self.head
    }

    /// An empty list.
    pub fn new() -> (list: Self)
        ensures
            list.wf(),
            list.entries().len() == 0,
            list.node_count() == 1,
            list.head_handle() == 1,
            list.garbage().len() == 0,
    {
        let mut list = Self::uninit();
        list.init();
        list
    }

    /// Inserts `key` with `value`, searching for its place from the node `curr_node`;
    /// gives the handle of the new node, or 0 when the key is already present.
    pub fn insert_from(&mut self, key: K, value: V, curr_node: usize) -> (r: usize)
        requires
            old(self).wf(),
            old(self).valid_handle(curr_node),
            curr_node == old(self).head_handle() || old(self).key_of(curr_node) < key.key_int(),
            old(self).node_count() < MAX_PTR,
        ensures
            final(self).wf(),
            final(self).head_handle() == old(self).head_handle(),
            final(self).garbage() == old(self).garbage(),
            final(self).node_at(final(self).head_handle()).key == old(self).node_at(old(self).head_handle()).key,
            has_key(old(self).entries(), key.key_int()) ==> r == 0,
            old(self).is_live(curr_node) ==> ((r == 0) == has_key(old(self).entries(), key.key_int())),
            r == 0 ==> final(self).entries() == old(self).entries() && final(self).node_count()
                == old(self).node_count(),
            r != 0 ==> {
                &&& r == old(self).node_count() + 1
                &&& final(self).node_count() == old(self).node_count() + 1
                &&& final(self).is_live(r)
                &&& final(self).key_of(r) == key.key_int()
                &&& final(self).node_at(r).key == key
                &&& final(self).node_at(r).element == Some(value)
                &&& exists|p: int|
                    0 <= p <= old(self).entries().len() && final(self).entries() == old(
                        self,
                    ).entries().insert(p, (key, value))
            },
    {
        let ghost k = key.key_int();
        let ghost old_list = *self;
        let (mut prev_node, mut next_node) = self.search_from(&key, curr_node);
        proof {
            if old_list.is_live(curr_node) {
                self.lemma_search_result(prev_node, next_node, k);
            }
        }
        if next_node != 0 && self.nodes[next_node - 1].key.key_eq(&key) {
            return 0;
        }
        if self.nodes[prev_node - 1].load_successor().mark {
            while self.nodes[prev_node - 1].load_successor().mark
                invariant
                    *self == old_list,
                    old_list.wf(),
                    self.valid_handle(prev_node),
                    prev_node == self.head_handle() || self.key_of(prev_node) < k,
                    k == key.key_int(),
                ensures
                    *self == old_list,
                    self.valid_handle(prev_node),
                    prev_node == self.head_handle() || self.key_of(prev_node) < k,
                    !self.nodes@[prev_node - 1].succ@.mark,
                decreases self.back_measure(prev_node),
            {
                proof {
                    self.lemma_backlink(prev_node);
                }
                let bl = self.nodes[prev_node - 1].load_backlink();
                if bl != 0 {
                    prev_node = bl;
                } else {
                    break;
                }
            }
            proof {
                self.lemma_unmarked_is_live(prev_node);
            }
            let (p2, n2) = self.search_from(&key, prev_node);
            prev_node = p2;
            next_node = n2;
            if next_node != 0 && self.nodes[next_node - 1].key.key_eq(&key) {
                return 0;
            }
        }
        proof {
            if !self.is_live(prev_node) {
                self.lemma_unmarked_is_live(prev_node);
            }
            self.lemma_live_node(prev_node);
            self.lemma_search_result(prev_node, next_node, k);
        }
        let key_copy = key.key_clone();
        let ghost base = *self;
        let ghost jp = self.pos_of(prev_node);
        let ghost ni = self.nodes@.len() as int;
        proof {
            self.lemma_pos_of(prev_node);
            assert(self.nodes@[self.chain@[jp]].succ@ == expected_succ(self.chain@, jp, 0, 0));
            if next_node != 0 {
                self.lemma_live_at(jp + 1);
            }
        }
        self.nodes.push(LinkedNode::new(key, Some(value)));
        let new_node = self.nodes.len();
        proof {
            self.rank = Ghost(self.rank@.push(0));
        }
        loop
            invariant
                base == *old(self),
                base.wf(),
                base.nodes@.len() < MAX_PTR,
                ni == base.nodes@.len(),
                new_node == ni + 1,
                0 <= jp < base.chain@.len(),
                base.chain@[jp] == prev_node - 1,
                next_node == next_handle(base.chain@, jp),
                base.nodes@[prev_node - 1].succ@ == clean(next_node as int),
                jp == 0 || base.kint(base.chain@[jp]) < k,
                next_node == 0 || k < base.kint(next_node - 1),
                next_node != 0 ==> next_node - 1 == base.chain@[jp + 1],
                k == key_copy.key_int(),
                key_copy == key,
                k == key.key_int(),
                !has_key(base.entries(), k),
                self.nodes@.len() == ni + 1,
                forall|i: int| 0 <= i < ni ==> self.nodes@[i] == base.nodes@[i],
                self.nodes@[ni].key == key_copy,
                self.nodes@[ni].element == Some(value),
                self.nodes@[ni].backlink == 0,
                self.chain@ == base.chain@,
                self.rank@ == base.rank@.push(0),
                self.ndel@ == base.ndel@,
                self.head == base.head,
                self.trash@ == base.trash@,
            decreases 0nat,
        {
            let prev_succ = self.nodes[prev_node - 1].load_successor();
            if prev_succ.flag {
                self.help_flagged(prev_node, prev_succ.ptr);
            } else {
                self.nodes[new_node - 1].store_successor(SuccData::new(next_node));
                let expected = SuccData::new(next_node);
                let new_val = SuccData::new(new_node);
                match self.nodes[prev_node - 1].swap_successor(expected, new_val) {
                    Ok(_) => {
                        proof {
                            self.chain = Ghost(base.chain@.insert(jp + 1, ni));
                            assert(Self::link_step(&base, self, jp));
                            Self::lemma_link(&base, self, jp);
                            Self::lemma_link_chain(&base, self, jp);
                            self.lemma_live_at(jp + 1);
                            assert(self.chain@[jp + 1] == ni);
                            assert(self.entries() == base.entries().insert(jp, (key, value)));
                            assert(jp <= base.entries().len());
                            assert(self.nodes@[self.head - 1].key == base.nodes@[base.head - 1].key);
                        }
                        return new_node;
                    },
                    Err(actual) => {
                        if actual.flag {
                            self.help_flagged(prev_node, actual.ptr);
                        }
                        #[verifier::loop_isolation(false)]
                        while self.nodes[prev_node - 1].load_successor().mark
                            decreases 0nat,
                        {
                            let bl = self.nodes[prev_node - 1].load_backlink();
                            if bl != 0 {
                                prev_node = bl;
                            } else {
                                break;
                            }
                        }
                        let (new_prev, new_next) = self.search_from(&key_copy, prev_node);
                        prev_node = new_prev;
                        next_node = new_next;
                        if next_node != 0 && self.nodes[next_node - 1].key.key_eq(&key_copy) {
                            self.nodes.pop();
                            return 0;
                        }
                    },
                }
            }
        }
    }

    /// Inserts `key` with `value`; gives whether it was inserted (false when the key
    /// is already present).
    pub fn insert(&mut self, key: K, value: V) -> (inserted: bool)
        requires
            old(self).wf(),
            old(self).node_count() < MAX_PTR,
        ensures
            final(self).wf(),
            final(self).head_handle() == old(self).head_handle(),
            inserted == !has_key(old(self).entries(), key.key_int()),
            inserted_into(old(self).entries(), final(self).entries(), key, value),
            final(self).garbage() == old(self).garbage(),
            final(self).node_count() == old(self).node_count() + (if inserted {
                1int
            } else {
                0
            }),
            final(self).node_at(final(self).head_handle()).key == old(self).node_at(old(self).head_handle()).key,
    {
        let head = self.head_node();
        self.insert_from(key, value, head) != 0
    }
}

impl<K: ListKey, V> LockFreeLinkedList<K, V> {
    /// The node holding `key`, if any.
    pub fn search_node(&mut self, key: &K) -> (r: Option<usize>)
        requires
            old(self).wf(),
        ensures
            *final(self) == *old(self),
            r.is_some() == has_key(old(self).entries(), key.key_int()),
            r.is_some() ==> {
                let h = r.unwrap();
                &&& old(self).is_live(h)
                &&& 1 <= old(self).pos_of(h) <= old(self).entries().len()
                &&& old(self).entries()[old(self).pos_of(h) - 1] == (
                    old(self).node_at(h).key,
                    old(self).node_at(h).element.unwrap(),
                )
                &&& old(self).key_of(h) == key.key_int()
            },
    {
        let head_ptr = self.head_node();
        let (prev, next_node) = self.search_from(key, head_ptr);
        proof {
            self.lemma_search_result(prev, next_node, key.key_int());
        }
        if next_node != 0 && self.nodes[next_node - 1].key.key_eq(key) {
            Some(next_node)
        } else {
            None
        }
    }
}

impl<K: ListKey, V> List<K, V, LinkedNode<K, V>> for LockFreeLinkedList<K, V> {
    open spec fn list_wf(&self) -> bool {
        self.wf()
    }

    open spec fn list_entries(&self) -> Seq<(K, V)> {
        self.entries()
    }

    fn contains(&mut self, key: &K) -> (found: bool)
        ensures
            found == has_key(old(self).list_entries(), key.key_int()),
            *final(self) == *old(self),
    {
        self.search_node(key).is_some()
    }

    fn contains_many(&mut self, keys: &[K]) -> (found: Vec<bool>)
        ensures
            *final(self) == *old(self),
    {
        let n = keys.len();
        let mut results: Vec<bool> = Vec::new();
        let mut i: usize = 0;
        while i < n
            invariant
                i <= n,
                results@.len() == i,
            decreases n - i,
        {
            results.push(false);
            i = i + 1;
        }
        if n == 0 {
            return results;
        }
        let sorted_keys = key_order(keys);
        let ghost entries = self.entries();
        let mut curr_start = self.head_node();
        let mut s: usize = 0;
        while s < n
            invariant
                *self == *old(self),
                self.wf(),
                entries == self.entries(),
                n == keys@.len(),
                s <= n,
                results@.len() == n,
                is_key_order(keys@, sorted_keys@),
                self.is_live(curr_start),
                s == 0 ==> curr_start == self.head,
                s > 0 ==> {
                    let tp = keys@[sorted_keys@[s - 1] as int].key_int();
                    &&& has_key(entries, tp) ==> curr_start != self.head && self.key_of(curr_start) == tp
                    &&& !has_key(entries, tp) ==> curr_start == self.head || self.key_of(curr_start) < tp
                },
                forall|t: int|
                    0 <= t < s ==> results@[#[trigger] sorted_keys@[t] as int] == (has_key(
                        entries,
                        keys@[sorted_keys@[t] as int].key_int(),
                    ) && first_occurrence(keys@, sorted_keys@[t] as int)),
            decreases n - s,
        {
            let key_index = sorted_keys[s];
            let target_key = &keys[key_index];
            let ghost ts = target_key.key_int();
            proof {
                lemma_key_order_first(keys@, sorted_keys@, s as int);
                assert(key_index < n);
                assert forall|t: int| 0 <= t < s implies sorted_keys@[t] != key_index by {
                    assert(crate::succ::goes_before(keys@, sorted_keys@[t] as int, sorted_keys@[s as int] as int));
                }
                if curr_start != self.head {
                    self.lemma_pos_of(curr_start);
                    assert(self.pos_of(curr_start) != 0) by {
                        if self.pos_of(curr_start) == 0 {
                            assert(self.chain@[0] == self.head - 1);
                        }
                    }
                }
            }
            let (prev, next) = self.search_from(target_key, curr_start);
            let ghost exact = curr_start == self.head || self.key_of(curr_start) < ts;
            proof {
                if exact {
                    self.lemma_search_result(prev, next, ts);
                } else {
                    self.lemma_pos_of(curr_start);
                    self.lemma_pos_of(prev);
                    if prev != curr_start {
                        assert(self.pos_of(prev) > self.pos_of(curr_start));
                        assert(self.kint(self.chain@[self.pos_of(curr_start)]) < self.kint(
                            self.chain@[self.pos_of(prev)],
                        ));
                    }
                    assert(prev == curr_start);
                    if next != 0 {
                        self.lemma_live_at(self.pos_of(prev) + 1);
                        assert(self.kint(self.chain@[self.pos_of(prev)]) < self.kint(
                            self.chain@[self.pos_of(prev) + 1],
                        ));
                    }
                }
            }
            if next != 0 && self.nodes[next - 1].key.key_eq(target_key) {
                results.set(key_index, true);
                curr_start = next;
            } else {
                results.set(key_index, false);
                if prev != 0 {
                    curr_start = prev;
                }
            }
            proof {
                assert forall|t: int| 0 <= t < s + 1 implies results@[#[trigger] sorted_keys@[t] as int] == (has_key(
                    entries,
                    keys@[sorted_keys@[t] as int].key_int(),
                ) && first_occurrence(keys@, sorted_keys@[t] as int)) by {
                    if t < s {
                        assert(sorted_keys@[t] != key_index);
                    }
                }
            }
            s = s + 1;
        }
        proof {
            assert forall|i: int| 0 <= i < keys@.len() implies results@[i] == (has_key(
                entries,
                keys@[i].key_int(),
            ) && first_occurrence(keys@, i)) by {
                assert(crate::succ::holds_index(sorted_keys@, i, n as int));
                let t = choose|t: int| 0 <= t < n && #[trigger] sorted_keys@[t] == i;
                assert(results@[sorted_keys@[t] as int] == (has_key(
                    entries,
                    keys@[sorted_keys@[t] as int].key_int(),
                ) && first_occurrence(keys@, sorted_keys@[t] as int)));
            }
        }
        results
    }

    fn is_empty(&self) -> (empty: bool) {
        proof {
            assert(self.nodes@[self.chain@[0]].succ@ == expected_succ(self.chain@, 0, 0, 0));
        }
        let first_node = self.nodes[self.head - 1].load_successor().ptr;
        first_node == 0
    }

    fn get<'a>(&'a mut self, key: &K) -> (r: Option<&'a V>)
        ensures
            r.is_some() == has_key(old(self).list_entries(), key.key_int()),
            *final(self) == *old(self),
    {
        match self.search_node(key) {
            Some(s) => {
                let ghost p = self.pos_of(s);
                proof {
                    self.lemma_pos_of(s);
                    assert(self.chain@[p] == s - 1);
                    assert(1 <= p);
                    assert(self.nodes@[self.chain@[p]].element.is_some());
                    assert(self.entries()[p - 1].0.key_int() == key.key_int());
                    assert(self.entries()[p - 1].1 == self.nodes@[s - 1].element.unwrap());
                }
                let node = &self.nodes[s - 1];
                match &node.element {
                    Some(v) => {
                        proof {
                            assert(*v == self.entries()[p - 1].1);
                            assert(0 <= p - 1 < self.entries().len());
                            assert(*self == *old(self));
                            assert(old(self).list_entries()[p - 1].0.key_int() == key.key_int());
                            assert(*v == old(self).list_entries()[p - 1].1);
                        }
                        Some(v)
                    },
                    None => None,
                }
            },
            None => None,
        }
    }

    fn iter<'a>(&'a self) -> (it: NodeIter<'a, K, V, LinkedNode<K, V>>) {
        let ghost rest = self.chain@.drop_first();
        proof {
            assert(self.nodes@[self.chain@[0]].succ@ == expected_succ(self.chain@, 0, 0, 0));
            assert forall|j: int| 0 <= j < rest.len() implies {
                &&& 0 <= #[trigger] rest[j] < self.nodes@.len()
                &&& self.nodes@[rest[j]].succ_view() == clean(next_handle(rest, j))
                &&& self.nodes@[rest[j]].element_view().is_some()
            } by {
                assert(rest[j] == self.chain@[j + 1]);
                assert(self.nodes@[self.chain@[j + 1]].succ@ == expected_succ(self.chain@, j + 1, 0, 0));
                assert(next_handle(rest, j) == next_handle(self.chain@, j + 1));
            }
        }
        let first_node = self.nodes[self.head - 1].load_successor().ptr;
        NodeIter::new(&self.nodes, first_node, Ghost(rest))
    }

    fn pop_front<'a>(&'a mut self) -> (r: Option<(&'a K, &'a V)>)
        ensures
            final(self).node_count() == old(self).node_count(),
            final(self).head_handle() == old(self).head_handle(),
            final(self).node_at(final(self).head_handle()).key == old(self).node_at(old(self).head_handle()).key,
    {
        let prev_node = self.head;
        let ghost old_list = *self;
        proof {
            self.lemma_live_at(0);
            assert(self.nodes@[self.chain@[0]].succ@ == expected_succ(self.chain@, 0, 0, 0));
        }
        loop
            invariant
                old_list == *old(self),
                *self == old_list,
                self.wf(),
                prev_node == self.head,
                self.is_live(prev_node),
                self.pos_of(prev_node) == 0,
                self.nodes@[prev_node - 1].succ@ == clean(next_handle(self.chain@, 0)),
            decreases 0nat,
        {
            let prev_succ_data = self.nodes[prev_node - 1].load_successor();
            let del_node = prev_succ_data.ptr;
            if del_node == 0 {
                proof {
                    assert(self.entries().len() == 0);
                }
                return None;
            }
            if prev_succ_data.flag {
                self.help_flagged(prev_node, del_node);
                continue;
            }
            proof {
                self.lemma_live_at(1);
                self.lemma_entries_sorted();
                assert(self.chain@.drop_first()[0] == self.chain@[1]);
            }
            let (actual_prev, success) = self.try_flag(prev_node, del_node);
            if actual_prev != 0 && success {
                proof {
                    assert(self.pos_of(prev_node) == 0) by {
                        self.lemma_live_at(0);
                    }
                }
                self.help_flagged(actual_prev, del_node);
                proof {
                    assert(self.entries() =~= old_list.entries().drop_first());
                    assert(self.nodes@[del_node - 1].key == old_list.nodes@[del_node - 1].key);
                    assert(self.nodes@[del_node - 1].element == old_list.nodes@[del_node - 1].element);
                }
                let node = &self.nodes[del_node - 1];
                let value = match &node.element {
                    Some(v) => v,
                    None => {
                        return None;
                    },
                };
                return Some((&node.key, value));
            }
        }
    }
}

impl<K: ListKey, V> LockFreeLinkedList<K, V> {
    /// How far the node with handle `h` is from the live nodes along backlinks.
    pub closed spec fn back_measure(&self, h: usize) -> nat {
        if self.nodes@[h - 1].succ@.mark {
            (self.ndel@ - self.rank@[h - 1] + 1) as nat
        } else {
            0
        }
    }

    /// A node that is not marked is one of the list; the head is one of them.
    pub proof fn lemma_unmarked_is_live(&self, h: usize)
        requires
            self.wf(),
            self.valid_handle(h),
            !self.node_at(h).succ@.mark,
        ensures
            self.is_live(h),
            self.valid_handle(self.head_handle()),
    {
        if !self.on_chain(h - 1) {
            assert(self.unlinked_ok(h - 1));
        }
    }

    /// The backlink of a marked node leads to a live node or to a marked node nearer to
    /// the live ones.
    pub proof fn lemma_backlink(&self, h: usize)
        requires
            self.wf(),
            self.valid_handle(h),
            self.node_at(h).succ@.mark,
        ensures
            ({
                let b = self.node_at(h).backlink;
                b == 0 || (self.valid_handle(b) && self.back_measure(b) < self.back_measure(h))
            }),
            self.node_at(h).backlink != 0,
            self.node_at(h).backlink == self.head_handle() || self.key_of(self.node_at(h).backlink)
                < self.key_of(h),
    {
        if self.on_chain(h - 1) {
            let j = choose|j: int| 0 <= j < self.chain@.len() && self.chain@[j] == h - 1;
            assert(self.nodes@[self.chain@[j]].succ@ == expected_succ(self.chain@, j, 0, 0));
        }
        assert(self.unlinked_ok(h - 1));
        let b = self.node_at(h).backlink;
        if b != 0 && self.on_chain(b - 1) {
            let j = choose|j: int| 0 <= j < self.chain@.len() && self.chain@[j] == b - 1;
            assert(self.nodes@[self.chain@[j]].succ@ == expected_succ(self.chain@, j, 0, 0));
        }
        if b != 0 && !self.on_chain(b - 1) {
            assert(self.unlinked_ok(b - 1));
        }
    }

    /// The entries of a consistent list are strictly increasing by key.
    pub proof fn lemma_sorted(&self)
        requires
            self.wf(),
        ensures
            sorted_entries(self.entries()),
    {
        self.lemma_entries_sorted();
    }

    /// A node of the list holds a clean successor word that names the next node of the
    /// list (0 at the end), whose key is larger; the head holds no element and every
    /// other node of the list holds one.
    pub proof fn lemma_live_node(&self, h: usize)
        requires
            self.wf(),
            self.is_live(h),
        ensures
            self.valid_handle(h),
            self.node_at(h).succ@ == clean(self.next_live(h) as int),
            self.node_at(h).element.is_none() <==> h == self.head_handle(),
            self.next_live(h) != 0 ==> self.is_live(self.next_live(h)),
            self.next_live(h) != 0 && h != self.head_handle() ==> self.key_of(h) < self.key_of(
                self.next_live(h),
            ),
    {
        self.lemma_pos_of(h);
        let j = self.pos_of(h);
        let c = self.chain@;
        assert(self.nodes@[c[j]].succ@ == expected_succ(c, j, 0, 0));
        if j + 1 < c.len() {
            self.lemma_live_at(j + 1);
            assert(c[j + 1] >= 0);
        }
        if j > 0 {
            assert(c[j] != c[0]);
        }
    }

    /// Takes the bag of unlinked nodes out of the list and leaves an empty one.
    pub fn take_garbage(&mut self) -> (bag: ThreadLocalBag)
        requires
            old(self).wf(),
        ensures
            final(self).wf(),
            bag@ == old(self).garbage(),
            final(self).garbage().len() == 0,
            final(self).entries() == old(self).entries(),
            final(self).head_handle() == old(self).head_handle(),
            final(self).node_count() == old(self).node_count(),
            forall|h: usize| #[trigger] final(self).node_at(h) == old(self).node_at(h),
            forall|h: usize| #[trigger] final(self).is_live(h) == old(self).is_live(h),
    {
        let ghost old_list = *self;
        let mut bag = ThreadLocalBag::new();
        std::mem::swap(&mut bag, &mut self.trash);
        proof {
            let c = self.chain@;
            assert forall|a: int, b: int| 1 <= a < b < c.len() implies self.kint(#[trigger] c[a])
                < self.kint(#[trigger] c[b]) by {
                assert(old_list.kint(c[a]) < old_list.kint(c[b]));
            }
            assert forall|i: int| 0 <= i < self.nodes@.len() && !self.on_chain(i) implies #[trigger] self.unlinked_ok(i) by {
                assert(old_list.unlinked_ok(i));
            }
        }
        bag
    }

    /// The node with handle `h`.
    pub fn node(&self, h: usize) -> (n: &LinkedNode<K, V>)
        requires
            self.valid_handle(h),
        ensures
            *n == self.node_at(h),
    {
        &self.nodes[h - 1]
    }

    /// A copy of the key stored in the node `h`.
    pub(crate) fn node_key(&self, h: usize) -> (k: K)
        requires
            self.valid_handle(h),
        ensures
            k == self.node_at(h).key,
    {
        self.nodes[h - 1].key.key_clone()
    }

    /// Gives the dummy head the key `key` (the head's key is never compared).
    pub(crate) fn set_head_key(&mut self, key: K)
        requires
            old(self).wf(),
        ensures
            final(self).wf(),
            final(self).entries() == old(self).entries(),
            final(self).head_handle() == old(self).head_handle(),
            final(self).node_count() == old(self).node_count(),
            final(self).garbage() == old(self).garbage(),
            final(self).node_at(final(self).head_handle()).key == key,
            forall|h: usize| final(self).is_live(h) <==> old(self).is_live(h),
    {
        let ghost old_list = *self;
        let h = self.head;
        self.nodes[h - 1].key = key;
        proof {
            let c = self.chain@;
            assert forall|j: int| 0 <= j < c.len() implies (#[trigger] self.nodes@[c[j]]).succ@
                == expected_succ(c, j, 0, 0) by {
                assert(old_list.nodes@[c[j]].succ@ == expected_succ(c, j, 0, 0));
            }
            assert forall|a: int, b: int| 1 <= a < b < c.len() implies self.kint(#[trigger] c[a])
                < self.kint(#[trigger] c[b]) by {
                assert(old_list.kint(c[a]) < old_list.kint(c[b]));
                assert(c[a] != c[0]);
                assert(c[b] != c[0]);
            }
            assert forall|j: int| 1 <= j < c.len() implies (#[trigger] self.nodes@[c[j]]).element.is_some() by {
                assert(old_list.nodes@[c[j]].element.is_some());
            }
            assert forall|i: int| 0 <= i < self.nodes@.len() && !self.on_chain(i) implies #[trigger] self.unlinked_ok(i) by {
                assert(old_list.unlinked_ok(i));
                assert(i != c[0]) by {
                    assert(self.on_chain(c[0]));
                }
            }
            assert(self.entries() =~= old_list.entries()) by {
                assert forall|j: int| 0 <= j < self.entries().len() implies self.entries()[j] == old_list.entries()[j] by {
                    assert(c.drop_first()[j] == c[j + 1]);
                    assert(c[j + 1] != c[0]);
                }
            }
        }
    }
}

} // verus!
