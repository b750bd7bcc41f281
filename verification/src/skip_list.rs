use crate::garbage::{GarbageCollector, GarbageItem, ThreadLocalBag, ThreadedGC};
use crate::key::{has_key, inserted_into, law_insert_unique_result, sorted_entries, ListKey};
use crate::seedable::Seedable;
use crate::succ::{
    clean, first_occurrence, is_key_order, key_order, lemma_key_order_first, linked_run,
    next_handle, run_entries, AtomicSucc, List, Node, NodeIter, SuccData, MAX_PTR,
};
use vstd::prelude::*;

verus! {

/// Number of levels of a skip list.
pub const MAX_LEVEL: usize = 16;

/// A node of a `LockFreeSkipList`: one level of a tower.
pub struct SkipNode<K, V> {
    /// The key, by which each level is ordered.
    pub key: K,
    /// The element; only the bottom node of a tower holds one.
    pub element: Option<V>,
    /// Handle of the node one level down in the same tower (0 at the bottom).
    pub down: usize,
    /// Handle of the bottom node of the tower.
    pub tower_root: usize,
    /// Handle of the predecessor at the time the node was deleted (0 is null).
    pub backlink: usize,
    /// Successor handle with the mark and flag bits.
    pub succ: AtomicSucc,
}

impl<K, V> Node<K, V> for SkipNode<K, V> {
    open spec fn key_view(&self) -> K {
        self.key
    }

    open spec fn element_view(&self) -> Option<V> {
        self.element
    }

    open spec fn backlink_view(&self) -> usize {
        self.backlink
    }

    open spec fn succ_view(&self) -> SuccData {
        self.succ@
    }

    fn key(&self) -> (k: &K) {
        &self.key
    }

    fn element(&self) -> (e: Option<&V>) {
        match &self.element {
            Some(v) => Some(v),
            None => None,
        }
    }

    fn load_backlink(&self) -> (b: usize) {
        self.backlink
    }

    fn store_backlink(&mut self, new_val: usize)
        ensures
            final(self).down == old(self).down,
            final(self).tower_root == old(self).tower_root,
    {
        self.backlink = new_val;
    }

    fn load_successor(&self) -> (s: SuccData) {
        self.succ.load()
    }

    fn store_successor(&mut self, new_val: SuccData)
        ensures
            final(self).down == old(self).down,
            final(self).tower_root == old(self).tower_root,
    {
        self.succ.store(new_val);
    }

    fn swap_successor(&mut self, expected: SuccData, new_val: SuccData) -> (r: Result<
        SuccData,
        SuccData,
    >)
        ensures
            final(self).down == old(self).down,
            final(self).tower_root == old(self).tower_root,
    {
        self.succ.compare_exchange(expected, new_val)
    }
}

/// The successor that position `j` of a level's chain holds while the node after
/// position `sp` of that level is being deleted (stage `st`, as in the linked list).
pub open spec fn stage_succ(chain: Seq<int>, j: int, sp: int, st: int) -> SuccData {
    let p = next_handle(chain, j) as usize;
    if st >= 1 && j == sp {
        SuccData { ptr: p, mark: false, flag: true }
    } else if st == 2 && j == sp + 1 {
        SuccData { ptr: p, mark: true, flag: false }
    } else {
        SuccData { ptr: p, mark: false, flag: false }
    }
}

/// A skip list: `MAX_LEVEL` ordered levels; the bottom level holds every entry, the
/// upper levels hold towers of some keys and serve as shortcuts.
///
/// Nodes live in an arena and are named by handles (arena index plus one, 0 is
/// null); the head of level `l` is the node at index `l`. A node unlinked from its
/// level stays in the arena, marked.
pub struct LockFreeSkipList<K, V> {
    nodes: Vec<SkipNode<K, V>>,
    /// Handles of the heads, one per level.
    head_tower: Vec<usize>,
    /// Handles of the unlinked nodes.
    trash: ThreadLocalBag,
    /// For each level, the indices of the nodes linked from its head, in order.
    chains: Ghost<Seq<Seq<int>>>,
    /// The level of each node.
    lvl: Ghost<Seq<int>>,
    /// Nodes of a tower being built, not linked yet.
    pend: Ghost<Set<int>>,
}

impl<K: ListKey, V> LockFreeSkipList<K, V> {
    pub closed spec fn kint(&self, i: int) -> int {
        self.nodes@[i].key.key_int()
    }

    /// Node `j` may follow node `i` on a level: heads come first, then nodes by
    /// increasing key, newer before older for equal keys.
    pub closed spec fn sord(&self, i: int, j: int) -> bool {
        if i < MAX_LEVEL {
            j >= MAX_LEVEL
        } else {
            j >= MAX_LEVEL && (self.kint(i) < self.kint(j) || (self.kint(i) == self.kint(j) && j < i))
        }
    }

    pub closed spec fn on_level(&self, l: int, i: int) -> bool {
        self.chains@[l].contains(i)
    }

    pub closed spec fn pending(&self, i: int) -> bool {
        self.pend@.contains(i)
    }

    /// The links of node `i` are sound: its successor, down node and tower root exist
    /// at the right levels, with the right keys.
    pub closed spec fn node_ok(&self, i: int) -> bool {
        let n = self.nodes@[i];
        let l = self.lvl@[i];
        let len = self.nodes@.len();
        let p = n.succ@.ptr as int;
        let d = n.down as int;
        let r = n.tower_root as int;
        &&& 0 <= l < MAX_LEVEL
        &&& (i < MAX_LEVEL ==> l == i && r == 1)
        &&& (p == 0 || (1 <= p <= len && self.lvl@[p - 1] == l && self.sord(i, p - 1) && (
        !self.pending(i) ==> !self.pending(p - 1))))
        &&& (l == 0 ==> d == 0)
        &&& (0 < i < MAX_LEVEL ==> d == i)
        &&& (l > 0 ==> 1 <= d <= len && self.lvl@[d - 1] == l - 1 && self.nodes@[d - 1].tower_root
            == r && (i >= MAX_LEVEL ==> d - 1 >= MAX_LEVEL && self.kint(d - 1) == self.kint(i)) && (
        !self.pending(i) ==> !self.pending(d - 1)))
        &&& 1 <= r <= len
        &&& self.lvl@[r - 1] == 0
        &&& self.nodes@[r - 1].tower_root == r
        &&& (i >= MAX_LEVEL ==> r - 1 >= MAX_LEVEL && self.kint(r - 1) == self.kint(i))
        &&& (l == 0 ==> r - 1 == i)
        &&& (!self.pending(i) ==> !self.pending(r - 1))
        &&& (l == 0 && i >= MAX_LEVEL ==> n.element.is_some())
        &&& ((l > 0 || i < MAX_LEVEL) ==> n.element.is_none())
    }

    /// Level `l` is sound: its chain starts at its head and its links are clean but
    /// for a deletion at stage `st` after position `sp` when `l == dl`.
    pub closed spec fn level_ok(&self, l: int, dl: int, sp: int, st: int) -> bool {
        let c = self.chains@[l];
        &&& c.len() >= 1
        &&& c[0] == l
        &&& c.no_duplicates()
        &&& forall|j: int|
            0 <= j < c.len() ==> 0 <= #[trigger] c[j] < self.nodes@.len() && self.lvl@[c[j]] == l
                && !self.pending(c[j])
        &&& forall|j: int|
            0 <= j < c.len() ==> (#[trigger] self.nodes@[c[j]]).succ@ == stage_succ(
                c,
                j,
                if l == dl {
                    sp
                } else {
                    0
                },
                if l == dl {
                    st
                } else {
                    0
                },
            )
    }

    /// A node that is neither linked nor pending has been unlinked: it is marked.
    pub closed spec fn dead_ok(&self, i: int) -> bool {
        &&& self.nodes@[i].succ@.mark
        &&& !self.nodes@[i].succ@.flag
    }

    /// The skip list is consistent, with a deletion at stage `st` after position `sp`
    /// of level `dl` (stage 0: none).
    pub closed spec fn inv(&self, dl: int, sp: int, st: int) -> bool {
        let len = self.nodes@.len();
        &&& MAX_LEVEL <= len <= MAX_PTR
        &&& self.lvl@.len() == len
        &&& self.chains@.len() == MAX_LEVEL
        &&& self.head_tower@.len() == MAX_LEVEL
        &&& forall|l: int| 0 <= l < MAX_LEVEL ==> #[trigger] self.head_tower@[l] == l + 1
        &&& 0 <= st <= 2
        &&& st >= 1 ==> 0 <= dl < MAX_LEVEL && 0 <= sp && sp + 1 < self.chains@[dl].len()
        &&& forall|l: int| 0 <= l < MAX_LEVEL ==> #[trigger] self.level_ok(l, dl, sp, st)
        &&& forall|a: int, b: int|
            1 <= a < b < self.chains@[0].len() ==> self.kint(#[trigger] self.chains@[0][a])
                < self.kint(#[trigger] self.chains@[0][b])
        &&& forall|i: int| 0 <= i < len ==> #[trigger] self.node_ok(i)
        &&& forall|i: int|
            0 <= i < len && !self.pending(i) && !self.on_level(self.lvl@[i], i) ==> #[trigger] self.dead_ok(i)
        &&& forall|i: int| #[trigger] self.pending(i) ==> MAX_LEVEL <= i < len
    }

    /// The skip list is consistent and no deletion is under way.
    pub closed spec fn wf(&self) -> bool {
        &&& self.inv(0, 0, 0)
        &&& self.pend@ == Set::<int>::empty()
    }

    /// Every node outside a tower being built is linked on its level: nothing has
    /// been unlinked, so no tower is stale.
    pub closed spec fn all_linked(&self) -> bool {
        forall|i: int|
            0 <= i < self.nodes@.len() && !self.pending(i) ==> #[trigger] self.on_level(self.lvl@[i], i)
    }

    /// Every node with a key below `m`, outside a tower being built, is linked on its
    /// level: no tower of such a key is stale.
    pub closed spec fn linked_below(&self, m: int) -> bool {
        forall|i: int|
            0 <= i < self.nodes@.len() && !self.pending(i) && self.kint(i) < m ==> #[trigger] self.on_level(
                self.lvl@[i],
                i,
            )
    }

    /// Every tower with a key below `k` whose bottom node is linked is linked on every
    /// level, and every linked node with key `k` belongs to a tower whose bottom node
    /// is linked. Deleted towers of smaller keys may still stand, whole or in part.
    pub closed spec fn towers_whole(&self, k: int) -> bool {
        &&& forall|i: int|
            0 <= i < self.nodes@.len() && !self.pending(i) && self.kint(i) < k && self.on_level(
                0,
                self.nodes@[i].tower_root - 1,
            ) ==> #[trigger] self.on_level(self.lvl@[i], i)
        &&& forall|i: int|
            0 <= i < self.nodes@.len() && !self.pending(i) && self.kint(i) == k
                && #[trigger] self.on_level(self.lvl@[i], i) ==> self.on_level(
                0,
                self.nodes@[i].tower_root - 1,
            )
    }

    /// The entries that an insertion leaves do not depend on the seed that chose the
    /// height of the new tower.
    pub proof fn law_seed_does_not_matter(before: &Self, after1: &Self, after2: &Self, key: K, value: V)
        requires
            after1.wf(),
            after2.wf(),
            inserted_into(before.entries(), after1.entries(), key, value),
            inserted_into(before.entries(), after2.entries(), key, value),
        ensures
            after1.entries() == after2.entries(),
    {
        after1.lemma_sorted();
        after2.lemma_sorted();
        law_insert_unique_result(before.entries(), after1.entries(), after2.entries(), key, value);
    }

    /// A node linked on level `l` holds a clean successor word that names a node linked
    /// on the same level (or 0 at the end), with a key not below its own past the head.
    pub proof fn lemma_linked_node(&self, l: int, h: usize)
        requires
            self.wf(),
            self.live_at(l, h),
        ensures
            !self.succ_of(h).mark,
            !self.succ_of(h).flag,
            self.succ_of(h).ptr != 0 ==> self.live_at(l, self.succ_of(h).ptr),
            self.succ_of(h).ptr != 0 && h > MAX_LEVEL ==> self.key_of(h) <= self.key_of(
                self.succ_of(h).ptr,
            ),
    {
        self.lemma_live_succ(l, h);
        assert(self.node_ok(h - 1));
    }

    /// A skip list with nothing unlinked is linked below every key.
    pub proof fn lemma_all_linked_below(&self, m: int)
        requires
            self.all_linked(),
        ensures
            self.linked_below(m),
    {
    }

    /// Some node linked above the bottom level has key `k`.
    pub closed spec fn upper_key(&self, k: int) -> bool {
        exists|l: int, j: int|
            1 <= l < MAX_LEVEL && 1 <= j < self.chains@[l].len() && self.kint(
                #[trigger] self.chains@[l][j],
            ) == k
    }

    /// The key and element pairs of the bottom level, in key order.
    pub closed spec fn entries(&self) -> Seq<(K, V)> {
        run_entries(self.nodes@, self.chains@[0].drop_first())
    }

    /// Number of nodes ever allocated.
    pub closed spec fn node_count(&self) -> nat {
        self.nodes@.len()
    }

    /// The handles that the list has handed to its garbage bag.
    pub closed spec fn garbage(&self) -> Seq<GarbageItem> {
        self.trash@
    }

    /// An empty skip list: one head per level, each head over the one below.
    pub fn new() -> (list: Self)
        ensures
            list.wf(),
            list.all_linked(),
            list.entries().len() == 0,
            list.node_count() == MAX_LEVEL,
            list.garbage().len() == 0,
    {
        let mut nodes: Vec<SkipNode<K, V>> = Vec::new();
        let mut head_tower: Vec<usize> = Vec::new();
        let root = SkipNode {
            key: K::key_default(),
            element: None,
            down: 0,
            tower_root: 1,
            backlink: 0,
            succ: AtomicSucc::default(),
        };
        nodes.push(root);
        head_tower.push(1);
        let mut i: usize = 1;
        while i < MAX_LEVEL
            invariant
                1 <= i <= MAX_LEVEL,
                nodes@.len() == i,
                head_tower@.len() == i,
                forall|l: int| 0 <= l < i ==> #[trigger] head_tower@[l] == l + 1,
                forall|l: int|
                    0 <= l < i ==> {
                        &&& (#[trigger] nodes@[l]).element.is_none()
                        &&& nodes@[l].succ@ == clean(0)
                        &&& nodes@[l].tower_root == 1
                        &&& nodes@[l].down == l
                    },
            decreases MAX_LEVEL - i,
        {
            let node = SkipNode {
                key: K::key_default(),
                element: None,
                down: head_tower[i - 1],
                tower_root: 1,
                backlink: 0,
                succ: AtomicSucc::default(),
            };
            nodes.push(node);
            head_tower.push(i + 1);
            i = i + 1;
        }
        let list = Self {
            nodes,
            head_tower,
            trash: ThreadLocalBag::new(),
            chains: Ghost(Seq::new(MAX_LEVEL as nat, |l: int| seq![l])),
            lvl: Ghost(Seq::new(MAX_LEVEL as nat, |i: int| i)),
            pend: Ghost(Set::empty()),
        };
        proof {
            assert forall|l: int| 0 <= l < MAX_LEVEL implies #[trigger] list.level_ok(l, 0, 0, 0) by {
                let c = list.chains@[l];
                assert(c =~= seq![l]);
                assert(list.nodes@[c[0]].succ@ == stage_succ(c, 0, 0, 0));
            }
            assert forall|i: int| 0 <= i < MAX_LEVEL implies #[trigger] list.node_ok(i) by {}
            assert forall|i: int|
                0 <= i < MAX_LEVEL && !list.pending(i) && !list.on_level(list.lvl@[i], i) implies #[trigger] list.dead_ok(i) by {
                assert(list.chains@[i][0] == i);
            }
            assert(list.entries() =~= Seq::empty());
            assert forall|i: int| 0 <= i < list.nodes@.len() && !list.pending(i) implies #[trigger] list.on_level(list.lvl@[i], i) by {
                assert(list.chains@[i][0] == i);
            }
        }
        list
    }
}

impl<K: ListKey, V> LockFreeSkipList<K, V> {
    proof fn lemma_sord_trans(&self, a: int, b: int, c: int)
        requires
            self.sord(a, b),
            self.sord(b, c),
        ensures
            self.sord(a, c),
    {
    }

    /// With no deletion under way, the stage parameters do not matter.
    proof fn lemma_stage0(&self, dl1: int, sp1: int, dl2: int, sp2: int)
        requires
            self.inv(dl1, sp1, 0),
        ensures
            self.inv(dl2, sp2, 0),
    {
        assert forall|l: int| 0 <= l < MAX_LEVEL implies #[trigger] self.level_ok(l, dl2, sp2, 0) by {
            assert(self.level_ok(l, dl1, sp1, 0));
            let c = self.chains@[l];
            assert forall|j: int| 0 <= j < c.len() implies (#[trigger] self.nodes@[c[j]]).succ@
                == stage_succ(c, j, if l == dl2 { sp2 } else { 0 }, 0) by {
                assert(self.nodes@[c[j]].succ@ == stage_succ(c, j, if l == dl1 { sp1 } else { 0 }, 0));
            }
        }
    }

    /// `new_list` is `old_list` with the successor of the node at position `y` of
    /// level `dl` changed from what stage (`sp1`, `st1`) wants to what stage (`sp2`,
    /// `st2`) wants (and possibly its backlink); the stages agree elsewhere.
    spec fn restage_step(
        old_list: &Self,
        new_list: &Self,
        dl: int,
        y: int,
        sp1: int,
        st1: int,
        sp2: int,
        st2: int,
    ) -> bool {
        let c = old_list.chains@[dl];
        &&& old_list.inv(dl, sp1, st1)
        &&& 0 <= dl < MAX_LEVEL
        &&& 0 <= y < c.len()
        &&& 0 <= st2 <= 2
        &&& (st2 >= 1 ==> 0 <= sp2 && sp2 + 1 < c.len())
        &&& forall|j: int|
            0 <= j < c.len() && j != y ==> stage_succ(c, j, sp1, st1) == stage_succ(c, j, sp2, st2)
        &&& new_list.nodes@.len() == old_list.nodes@.len()
        &&& forall|i: int|
            0 <= i < old_list.nodes@.len() && i != c[y] ==> new_list.nodes@[i] == old_list.nodes@[i]
        &&& new_list.nodes@[c[y]].key == old_list.nodes@[c[y]].key
        &&& new_list.nodes@[c[y]].element == old_list.nodes@[c[y]].element
        &&& new_list.nodes@[c[y]].down == old_list.nodes@[c[y]].down
        &&& new_list.nodes@[c[y]].tower_root == old_list.nodes@[c[y]].tower_root
        &&& new_list.nodes@[c[y]].succ@ == stage_succ(c, y, sp2, st2)
        &&& new_list.chains@ == old_list.chains@
        &&& new_list.lvl@ == old_list.lvl@
        &&& new_list.pend@ == old_list.pend@
        &&& new_list.head_tower@ == old_list.head_tower@
        &&& new_list.trash@ == old_list.trash@
    }

    #[verifier::spinoff_prover]
    #[verifier::rlimit(40)]
    proof fn lemma_restage(
        old_list: &Self,
        new_list: &Self,
        dl: int,
        y: int,
        sp1: int,
        st1: int,
        sp2: int,
        st2: int,
    )
        requires
            Self::restage_step(old_list, new_list, dl, y, sp1, st1, sp2, st2),
        ensures
            new_list.inv(dl, sp2, st2),
            new_list.entries() == old_list.entries(),
    {
        let c = old_list.chains@[dl];
        let x = c[y];
        assert(old_list.level_ok(dl, dl, sp1, st1));
        assert(old_list.nodes@[x].succ@.ptr == stage_succ(c, y, sp1, st1).ptr);
        assert forall|i: int| 0 <= i < new_list.nodes@.len() implies #[trigger] new_list.node_ok(i) by {
            assert(old_list.node_ok(i));
            if i != x {
                assert(new_list.nodes@[i] == old_list.nodes@[i]);
            }
            let d = old_list.nodes@[i].down as int;
            let r = old_list.nodes@[i].tower_root as int;
            if 1 <= d <= old_list.nodes@.len() && d - 1 != x {
                assert(new_list.nodes@[d - 1] == old_list.nodes@[d - 1]);
            }
            if 1 <= r <= old_list.nodes@.len() && r - 1 != x {
                assert(new_list.nodes@[r - 1] == old_list.nodes@[r - 1]);
            }
        }
        assert forall|l: int| 0 <= l < MAX_LEVEL implies #[trigger] new_list.level_ok(l, dl, sp2, st2) by {
            assert(old_list.level_ok(l, dl, sp1, st1));
            let cl = old_list.chains@[l];
            assert forall|j: int| 0 <= j < cl.len() implies (#[trigger] new_list.nodes@[cl[j]]).succ@
                == stage_succ(cl, j, if l == dl { sp2 } else { 0 }, if l == dl { st2 } else { 0 }) by {
                if l == dl {
                    if j != y {
                        assert(cl[j] != x);
                    }
                } else {
                    assert(cl[j] != x) by {
                        assert(old_list.lvl@[cl[j]] == l);
                        assert(old_list.lvl@[x] == dl);
                    }
                }
            }
        }
        assert forall|i: int|
            0 <= i < new_list.nodes@.len() && !new_list.pending(i) && !new_list.on_level(new_list.lvl@[i], i) implies #[trigger] new_list.dead_ok(i) by {
            assert(old_list.dead_ok(i));
            assert(i != x) by {
                assert(old_list.lvl@[x] == dl);
                assert(c[y] == x);
            }
        }
        let c0 = old_list.chains@[0];
        assert forall|a: int, b: int| 1 <= a < b < c0.len() implies new_list.kint(#[trigger] c0[a])
            < new_list.kint(#[trigger] c0[b]) by {
            assert(old_list.kint(c0[a]) < old_list.kint(c0[b]));
            assert(old_list.level_ok(0, dl, sp1, st1));
        }
        assert(new_list.entries() =~= old_list.entries()) by {
            assert(old_list.level_ok(0, dl, sp1, st1));
            assert forall|j: int| 0 <= j < new_list.entries().len() implies new_list.entries()[j] == old_list.entries()[j] by {
                assert(c0.drop_first()[j] == c0[j + 1]);
            }
        }
        let len = new_list.nodes@.len();
        assert(MAX_LEVEL <= len <= MAX_PTR);
        assert(new_list.lvl@.len() == len);
        assert(new_list.chains@.len() == MAX_LEVEL);
        assert(new_list.head_tower@.len() == MAX_LEVEL);
        assert(forall|l: int| 0 <= l < MAX_LEVEL ==> #[trigger] new_list.head_tower@[l] == l + 1);
        assert(st2 >= 1 ==> 0 <= dl < MAX_LEVEL && 0 <= sp2 && sp2 + 1 < new_list.chains@[dl].len());
        assert forall|i: int| #[trigger] new_list.pending(i) implies MAX_LEVEL <= i < len by {
            assert(old_list.pending(i));
        }
    }
}

/// Removing position `k` of a run without duplicates: where the others go, and
/// which values stay.
proof fn lemma_seq_remove(c: Seq<int>, k: int)
    requires
        c.no_duplicates(),
        0 <= k < c.len(),
    ensures
        c.remove(k).len() == c.len() - 1,
        forall|j: int| #![trigger c.remove(k)[j]]
            0 <= j < c.len() - 1 ==> c.remove(k)[j] == (if j < k {
                c[j]
            } else {
                c[j + 1]
            }),
        c.remove(k).no_duplicates(),
        !c.remove(k).contains(c[k]),
        forall|v: int| v != c[k] ==> (#[trigger] c.remove(k).contains(v) <==> c.contains(v)),
{
    let nc = c.remove(k);
    assert forall|a: int, b: int| 0 <= a < b < nc.len() implies nc[a] != nc[b] by {
        let oa = if a < k { a } else { a + 1 };
        let ob = if b < k { b } else { b + 1 };
        assert(c[oa] != c[ob]);
    }
    assert(!nc.contains(c[k])) by {
        if nc.contains(c[k]) {
            let j = choose|j: int| 0 <= j < nc.len() && nc[j] == c[k];
            let oj = if j < k { j } else { j + 1 };
            assert(c[oj] == c[k]);
        }
    }
    assert forall|v: int| v != c[k] implies (#[trigger] nc.contains(v) <==> c.contains(v)) by {
        if c.contains(v) {
            let j = choose|j: int| 0 <= j < c.len() && c[j] == v;
            let nj = if j < k { j } else { j - 1 };
            assert(nc[nj] == v);
        }
        if nc.contains(v) {
            let j = choose|j: int| 0 <= j < nc.len() && nc[j] == v;
            let oj = if j < k { j } else { j + 1 };
            assert(c[oj] == v);
        }
    }
}

/// Inserting a new value at position `k` of a run without duplicates.
proof fn lemma_seq_insert(c: Seq<int>, k: int, x: int)
    requires
        c.no_duplicates(),
        0 <= k <= c.len(),
        !c.contains(x),
    ensures
        c.insert(k, x).len() == c.len() + 1,
        forall|j: int| #![trigger c.insert(k, x)[j]]
            0 <= j < c.len() + 1 ==> c.insert(k, x)[j] == (if j < k {
                c[j]
            } else if j == k {
                x
            } else {
                c[j - 1]
            }),
        c.insert(k, x).no_duplicates(),
        c.insert(k, x).contains(x),
        forall|v: int| v != x ==> (#[trigger] c.insert(k, x).contains(v) <==> c.contains(v)),
{
    let nc = c.insert(k, x);
    assert forall|a: int, b: int| 0 <= a < b < nc.len() implies nc[a] != nc[b] by {
        if a != k && b != k {
            let oa = if a < k { a } else { a - 1 };
            let ob = if b < k { b } else { b - 1 };
            assert(c[oa] != c[ob]);
        } else if a == k {
            let ob = b - 1;
            assert(c.contains(c[ob]));
        } else {
            let oa = a;
            assert(c.contains(c[oa]));
        }
    }
    assert(nc[k] == x);
    assert forall|v: int| v != x implies (#[trigger] nc.contains(v) <==> c.contains(v)) by {
        if c.contains(v) {
            let j = choose|j: int| 0 <= j < c.len() && c[j] == v;
            let nj = if j < k { j } else { j + 1 };
            assert(nc[nj] == v);
        }
        if nc.contains(v) {
            let j = choose|j: int| 0 <= j < nc.len() && nc[j] == v;
            assert(j != k);
            let oj = if j < k { j } else { j - 1 };
            assert(c[oj] == v);
        }
    }
}

impl<K: ListKey, V> LockFreeSkipList<K, V> {
    /// `new_list` is `old_list` after the marked node at position `sp + 1` of level
    /// `dl` has been linked past.
    spec fn unlink_step(old_list: &Self, new_list: &Self, dl: int, sp: int) -> bool {
        let c = old_list.chains@[dl];
        &&& old_list.inv(dl, sp, 2)
        &&& 0 <= dl < MAX_LEVEL
        &&& new_list.nodes@.len() == old_list.nodes@.len()
        &&& forall|i: int|
            0 <= i < old_list.nodes@.len() && i != c[sp] ==> new_list.nodes@[i] == old_list.nodes@[i]
        &&& new_list.nodes@[c[sp]].key == old_list.nodes@[c[sp]].key
        &&& new_list.nodes@[c[sp]].element == old_list.nodes@[c[sp]].element
        &&& new_list.nodes@[c[sp]].down == old_list.nodes@[c[sp]].down
        &&& new_list.nodes@[c[sp]].tower_root == old_list.nodes@[c[sp]].tower_root
        &&& new_list.nodes@[c[sp]].succ@ == clean(next_handle(c, sp + 1))
        &&& new_list.chains@ == old_list.chains@.update(dl, c.remove(sp + 1))
        &&& new_list.lvl@ == old_list.lvl@
        &&& new_list.pend@ == old_list.pend@
        &&& new_list.head_tower@ == old_list.head_tower@
    }

    #[verifier::spinoff_prover]
    #[verifier::rlimit(60)]
    proof fn lemma_unlink_levels(old_list: &Self, new_list: &Self, dl: int, sp: int)
        requires
            Self::unlink_step(old_list, new_list, dl, sp),
        ensures
            forall|l: int| 0 <= l < MAX_LEVEL ==> #[trigger] new_list.level_ok(l, 0, 0, 0),
    {
        let c = old_list.chains@[dl];
        let prev = c[sp];
        let del = c[sp + 1];
        assert(old_list.level_ok(dl, dl, sp, 2));
        lemma_seq_remove(c, sp + 1);
        assert forall|l: int| 0 <= l < MAX_LEVEL implies #[trigger] new_list.level_ok(l, 0, 0, 0) by {
            assert(old_list.level_ok(l, dl, sp, 2));
            let nc = new_list.chains@[l];
            if l == dl {
                assert(nc == c.remove(sp + 1));
                assert forall|j: int| 0 <= j < nc.len() implies 0 <= #[trigger] nc[j] < new_list.nodes@.len()
                    && new_list.lvl@[nc[j]] == l && !new_list.pending(nc[j]) by {
                    let oj = if j <= sp { j } else { j + 1 };
                    assert(nc[j] == c[oj]);
                }
                assert forall|j: int| 0 <= j < nc.len() implies (#[trigger] new_list.nodes@[nc[j]]).succ@
                    == stage_succ(nc, j, if l == 0 { 0 } else { 0 }, 0) by {
                    assert(next_handle(nc, j) == (if j < sp {
                        next_handle(c, j)
                    } else {
                        next_handle(c, j + 1)
                    }));
                    if j < sp {
                        assert(old_list.nodes@[c[j]].succ@ == stage_succ(c, j, sp, 2));
                        assert(c[j] != prev);
                    } else if j == sp {
                    } else {
                        assert(old_list.nodes@[c[j + 1]].succ@ == stage_succ(c, j + 1, sp, 2));
                        assert(c[j + 1] != prev);
                    }
                }
                assert(nc[0] == c[0]);
            } else {
                assert(nc == old_list.chains@[l]);
                assert forall|j: int| 0 <= j < nc.len() implies (#[trigger] new_list.nodes@[nc[j]]).succ@
                    == stage_succ(nc, j, 0, 0) by {
                    assert(old_list.nodes@[nc[j]].succ@ == stage_succ(nc, j, 0, 0));
                    assert(nc[j] != prev) by {
                        assert(old_list.lvl@[nc[j]] == l);
                        assert(old_list.lvl@[prev] == dl);
                    }
                }
            }
        }
    }

    #[verifier::spinoff_prover]
    #[verifier::rlimit(60)]
    proof fn lemma_unlink_nodes(old_list: &Self, new_list: &Self, dl: int, sp: int)
        requires
            Self::unlink_step(old_list, new_list, dl, sp),
        ensures
            forall|i: int| 0 <= i < new_list.nodes@.len() ==> #[trigger] new_list.node_ok(i),
            forall|i: int|
                0 <= i < new_list.nodes@.len() && !new_list.pending(i) && !new_list.on_level(
                    new_list.lvl@[i],
                    i,
                ) ==> #[trigger] new_list.dead_ok(i),
    {
        let c = old_list.chains@[dl];
        let prev = c[sp];
        let del = c[sp + 1];
        assert(old_list.level_ok(dl, dl, sp, 2));
        lemma_seq_remove(c, sp + 1);
        assert(old_list.nodes@[prev].succ@ == stage_succ(c, sp, sp, 2));
        assert(old_list.nodes@[del].succ@ == stage_succ(c, sp + 1, sp, 2));
        assert(prev != del);
        assert forall|i: int| 0 <= i < new_list.nodes@.len() implies #[trigger] new_list.node_ok(i) by {
            assert(old_list.node_ok(i));
            let d = old_list.nodes@[i].down as int;
            let r = old_list.nodes@[i].tower_root as int;
            if 1 <= d <= old_list.nodes@.len() && d - 1 != prev {
                assert(new_list.nodes@[d - 1] == old_list.nodes@[d - 1]);
            }
            if 1 <= r <= old_list.nodes@.len() && r - 1 != prev {
                assert(new_list.nodes@[r - 1] == old_list.nodes@[r - 1]);
            }
            if i == prev {
                assert(old_list.node_ok(del));
                let p = old_list.nodes@[del].succ@.ptr as int;
                if p != 0 {
                    old_list.lemma_sord_trans(prev, del, p - 1);
                    assert(new_list.kint(p - 1) == old_list.kint(p - 1)) by {
                        if p - 1 == prev {
                            assert(new_list.nodes@[prev].key == old_list.nodes@[prev].key);
                        }
                    }
                }
                assert(new_list.kint(prev) == old_list.kint(prev));
                assert(new_list.kint(del) == old_list.kint(del));
            } else {
                assert(new_list.nodes@[i] == old_list.nodes@[i]);
                let p = old_list.nodes@[i].succ@.ptr as int;
                if 1 <= p <= old_list.nodes@.len() && p - 1 == prev {
                    assert(new_list.kint(prev) == old_list.kint(prev));
                }
                if 1 <= d <= old_list.nodes@.len() && d - 1 == prev {
                    assert(new_list.kint(prev) == old_list.kint(prev));
                }
                if 1 <= r <= old_list.nodes@.len() && r - 1 == prev {
                    assert(new_list.kint(prev) == old_list.kint(prev));
                }
            }
        }
        assert forall|i: int|
            0 <= i < new_list.nodes@.len() && !new_list.pending(i) && !new_list.on_level(
                new_list.lvl@[i],
                i,
            ) implies #[trigger] new_list.dead_ok(i) by {
            let l = old_list.lvl@[i];
            assert(old_list.node_ok(i));
            if i == del {
            } else if l == dl {
                assert(new_list.chains@[l] == c.remove(sp + 1));
                assert(!old_list.on_level(l, i));
                assert(old_list.dead_ok(i));
                assert(i != prev) by {
                    assert(c.contains(prev));
                }
            } else {
                assert(new_list.chains@[l] == old_list.chains@[l]);
                assert(old_list.dead_ok(i));
                assert(i != prev) by {
                    assert(old_list.lvl@[prev] == dl);
                }
            }
        }
    }

    #[verifier::spinoff_prover]
    #[verifier::rlimit(40)]
    proof fn lemma_unlink(old_list: &Self, new_list: &Self, dl: int, sp: int)
        requires
            Self::unlink_step(old_list, new_list, dl, sp),
        ensures
            new_list.inv(0, 0, 0),
            dl == 0 ==> new_list.entries() == old_list.entries().remove(sp),
            dl != 0 ==> new_list.entries() == old_list.entries(),
    {
        Self::lemma_unlink_levels(old_list, new_list, dl, sp);
        Self::lemma_unlink_nodes(old_list, new_list, dl, sp);
        let c = old_list.chains@[dl];
        let prev = c[sp];
        assert(old_list.level_ok(dl, dl, sp, 2));
        assert(old_list.level_ok(0, dl, sp, 2));
        lemma_seq_remove(c, sp + 1);
        let c0 = old_list.chains@[0];
        let n0 = new_list.chains@[0];
        assert forall|j: int| 0 <= j < c0.len() implies new_list.kint(c0[j]) == old_list.kint(c0[j]) by {
            if c0[j] != prev {
                assert(new_list.nodes@[c0[j]] == old_list.nodes@[c0[j]]);
            }
        }
        assert forall|a: int, b: int| 1 <= a < b < n0.len() implies new_list.kint(#[trigger] n0[a])
            < new_list.kint(#[trigger] n0[b]) by {
            if dl == 0 {
                let oa = if a <= sp { a } else { a + 1 };
                let ob = if b <= sp { b } else { b + 1 };
                assert(n0[a] == c0[oa]);
                assert(n0[b] == c0[ob]);
                assert(old_list.kint(c0[oa]) < old_list.kint(c0[ob]));
            } else {
                assert(old_list.kint(c0[a]) < old_list.kint(c0[b]));
            }
        }
        assert forall|i: int| #[trigger] new_list.pending(i) implies MAX_LEVEL <= i < new_list.nodes@.len() by {
            assert(old_list.pending(i));
        }
        let ne = new_list.entries();
        let oe = old_list.entries();
        assert forall|j: int| 0 <= j < n0.len() implies new_list.nodes@[n0[j]].key == old_list.nodes@[n0[j]].key
            && new_list.nodes@[n0[j]].element == old_list.nodes@[n0[j]].element by {
            if n0[j] != prev {
                assert(0 <= n0[j] < new_list.nodes@.len()) by {
                    assert(new_list.level_ok(0, 0, 0, 0));
                }
                assert(new_list.nodes@[n0[j]] == old_list.nodes@[n0[j]]);
            }
        }
        if dl == 0 {
            assert forall|j: int| 0 <= j < ne.len() implies ne[j] == oe.remove(sp)[j] by {
                let oj = if j < sp { j } else { j + 1 };
                assert(n0.drop_first()[j] == n0[j + 1]);
                assert(c0.drop_first()[oj] == c0[oj + 1]);
                assert(n0[j + 1] == c0[oj + 1]);
            }
            assert(ne =~= oe.remove(sp));
        } else {
            assert(n0 == c0);
            assert forall|j: int| 0 <= j < ne.len() implies ne[j] == oe[j] by {
                assert(n0.drop_first()[j] == n0[j + 1]);
            }
            assert(ne =~= oe);
        }
    }
}

impl<K: ListKey, V> LockFreeSkipList<K, V> {
    /// `new_list` is `base` with the pending node `x` linked after position `jp` of
    /// level `l`.
    spec fn link_step(base: &Self, new_list: &Self, l: int, jp: int, x: int) -> bool {
        let c = base.chains@[l];
        let nh = next_handle(c, jp);
        &&& base.inv(0, 0, 0)
        &&& 0 <= l < MAX_LEVEL
        &&& 0 <= jp < c.len()
        &&& 0 <= x < base.nodes@.len()
        &&& base.pending(x)
        &&& base.lvl@[x] == l
        &&& new_list.nodes@.len() == base.nodes@.len()
        &&& forall|i: int|
            0 <= i < base.nodes@.len() && i != c[jp] && i != x ==> new_list.nodes@[i] == base.nodes@[i]
        &&& new_list.nodes@[c[jp]].key == base.nodes@[c[jp]].key
        &&& new_list.nodes@[c[jp]].element == base.nodes@[c[jp]].element
        &&& new_list.nodes@[c[jp]].down == base.nodes@[c[jp]].down
        &&& new_list.nodes@[c[jp]].tower_root == base.nodes@[c[jp]].tower_root
        &&& new_list.nodes@[c[jp]].succ@ == clean(x + 1)
        &&& new_list.nodes@[x].key == base.nodes@[x].key
        &&& new_list.nodes@[x].element == base.nodes@[x].element
        &&& new_list.nodes@[x].down == base.nodes@[x].down
        &&& new_list.nodes@[x].tower_root == base.nodes@[x].tower_root
        &&& new_list.nodes@[x].succ@ == clean(nh)
        &&& base.sord(c[jp], x)
        &&& (nh != 0 ==> base.sord(x, nh - 1))
        &&& (l == 0 ==> (jp == 0 || base.kint(c[jp]) < base.kint(x)) && (jp + 1 == c.len()
            || base.kint(x) < base.kint(c[jp + 1])))
        &&& (l > 0 ==> !new_list.pending(base.nodes@[x].down - 1))
        &&& !new_list.pending(base.nodes@[x].tower_root - 1)
        &&& new_list.chains@ == base.chains@.update(l, c.insert(jp + 1, x))
        &&& new_list.pend@ == base.pend@.remove(x)
        &&& new_list.lvl@ == base.lvl@
        &&& new_list.head_tower@ == base.head_tower@
    }

    #[verifier::spinoff_prover]
    #[verifier::rlimit(60)]
    proof fn lemma_link_levels(base: &Self, new_list: &Self, l: int, jp: int, x: int)
        requires
            Self::link_step(base, new_list, l, jp, x),
        ensures
            forall|m: int| 0 <= m < MAX_LEVEL ==> #[trigger] new_list.level_ok(m, 0, 0, 0),
    {
        let c = base.chains@[l];
        let prev = c[jp];
        assert(base.level_ok(l, 0, 0, 0));
        assert(!c.contains(x)) by {
            if c.contains(x) {
                let j = choose|j: int| 0 <= j < c.len() && c[j] == x;
                assert(!base.pending(c[j]));
            }
        }
        lemma_seq_insert(c, jp + 1, x);
        assert forall|m: int| 0 <= m < MAX_LEVEL implies #[trigger] new_list.level_ok(m, 0, 0, 0) by {
            assert(base.level_ok(m, 0, 0, 0));
            let nc = new_list.chains@[m];
            if m == l {
                assert(nc == c.insert(jp + 1, x));
                assert forall|j: int| 0 <= j < nc.len() implies 0 <= #[trigger] nc[j] < new_list.nodes@.len()
                    && new_list.lvl@[nc[j]] == m && !new_list.pending(nc[j]) by {
                    if j != jp + 1 {
                        let oj = if j <= jp { j } else { j - 1 };
                        assert(nc[j] == c[oj]);
                        assert(c[oj] != x);
                    }
                }
                assert forall|j: int| 0 <= j < nc.len() implies (#[trigger] new_list.nodes@[nc[j]]).succ@
                    == stage_succ(nc, j, 0, 0) by {
                    if j < jp {
                        assert(base.nodes@[c[j]].succ@ == stage_succ(c, j, 0, 0));
                        assert(c[j] != prev && c[j] != x);
                        assert(next_handle(nc, j) == next_handle(c, j));
                    } else if j == jp {
                        assert(next_handle(nc, j) == x + 1);
                    } else if j == jp + 1 {
                        assert(next_handle(nc, j) == next_handle(c, jp));
                    } else {
                        assert(base.nodes@[c[j - 1]].succ@ == stage_succ(c, j - 1, 0, 0));
                        assert(c[j - 1] != prev && c[j - 1] != x);
                        assert(next_handle(nc, j) == next_handle(c, j - 1));
                    }
                }
                assert(nc[0] == c[0]);
            } else {
                let om = base.chains@[m];
                assert(nc == om);
                assert forall|j: int| 0 <= j < nc.len() implies 0 <= #[trigger] nc[j] < new_list.nodes@.len()
                    && new_list.lvl@[nc[j]] == m && !new_list.pending(nc[j]) by {}
                assert forall|j: int| 0 <= j < nc.len() implies (#[trigger] new_list.nodes@[nc[j]]).succ@
                    == stage_succ(nc, j, 0, 0) by {
                    assert(base.nodes@[nc[j]].succ@ == stage_succ(nc, j, 0, 0));
                    assert(nc[j] != prev && nc[j] != x) by {
                        assert(base.lvl@[nc[j]] == m);
                        assert(base.lvl@[prev] == l);
                    }
                }
            }
        }
    }

    #[verifier::spinoff_prover]
    #[verifier::rlimit(60)]
    proof fn lemma_link_nodes(base: &Self, new_list: &Self, l: int, jp: int, x: int)
        requires
            Self::link_step(base, new_list, l, jp, x),
        ensures
            forall|i: int| 0 <= i < new_list.nodes@.len() ==> #[trigger] new_list.node_ok(i),
            forall|i: int|
                0 <= i < new_list.nodes@.len() && !new_list.pending(i) && !new_list.on_level(
                    new_list.lvl@[i],
                    i,
                ) ==> #[trigger] new_list.dead_ok(i),
    {
        let c = base.chains@[l];
        let prev = c[jp];
        let nh = next_handle(c, jp);
        assert(base.level_ok(l, 0, 0, 0));
        assert(!c.contains(x)) by {
            if c.contains(x) {
                let j = choose|j: int| 0 <= j < c.len() && c[j] == x;
                assert(!base.pending(c[j]));
            }
        }
        lemma_seq_insert(c, jp + 1, x);
        assert(prev != x);
        assert forall|i: int| 0 <= i < new_list.nodes@.len() implies new_list.kint(i) == base.kint(i) by {
            if i != prev && i != x {
                assert(new_list.nodes@[i] == base.nodes@[i]);
            }
        }
        if nh != 0 {
            assert(jp + 1 < c.len());
            assert(!base.pending(nh - 1));
        }
        assert forall|i: int| 0 <= i < new_list.nodes@.len() implies #[trigger] new_list.node_ok(i) by {
            assert(base.node_ok(i));
            let d = base.nodes@[i].down as int;
            let r = base.nodes@[i].tower_root as int;
            if 1 <= d <= base.nodes@.len() && d - 1 != prev && d - 1 != x {
                assert(new_list.nodes@[d - 1] == base.nodes@[d - 1]);
            }
            if 1 <= r <= base.nodes@.len() && r - 1 != prev && r - 1 != x {
                assert(new_list.nodes@[r - 1] == base.nodes@[r - 1]);
            }
            if i != prev && i != x {
                assert(new_list.nodes@[i] == base.nodes@[i]);
            }
            assert(new_list.kint(i) == base.kint(i));
            let p = new_list.nodes@[i].succ@.ptr as int;
            if 1 <= p <= new_list.nodes@.len() {
                assert(new_list.kint(p - 1) == base.kint(p - 1));
            }
            if 1 <= d <= new_list.nodes@.len() {
                assert(new_list.kint(d - 1) == base.kint(d - 1));
            }
            if 1 <= r <= new_list.nodes@.len() {
                assert(new_list.kint(r - 1) == base.kint(r - 1));
            }
        }
        assert forall|i: int|
            0 <= i < new_list.nodes@.len() && !new_list.pending(i) && !new_list.on_level(
                new_list.lvl@[i],
                i,
            ) implies #[trigger] new_list.dead_ok(i) by {
            let m = base.lvl@[i];
            assert(i != x);
            assert(base.node_ok(i));
            if m == l {
                assert(!base.on_level(m, i));
            } else {
                assert(new_list.chains@[m] == base.chains@[m]);
            }
            assert(base.dead_ok(i));
            assert(i != prev) by {
                assert(c.contains(prev));
                assert(base.lvl@[prev] == l);
            }
        }
    }

    #[verifier::spinoff_prover]
    #[verifier::rlimit(40)]
    proof fn lemma_link(base: &Self, new_list: &Self, l: int, jp: int, x: int)
        requires
            Self::link_step(base, new_list, l, jp, x),
        ensures
            new_list.inv(0, 0, 0),
            l == 0 ==> new_list.entries() == base.entries().insert(
                jp,
                (base.nodes@[x].key, base.nodes@[x].element.unwrap()),
            ),
            l != 0 ==> new_list.entries() == base.entries(),
    {
        Self::lemma_link_levels(base, new_list, l, jp, x);
        Self::lemma_link_nodes(base, new_list, l, jp, x);
        let c = base.chains@[l];
        let prev = c[jp];
        assert(base.level_ok(l, 0, 0, 0));
        assert(base.level_ok(0, 0, 0, 0));
        assert(!c.contains(x)) by {
            if c.contains(x) {
                let j = choose|j: int| 0 <= j < c.len() && c[j] == x;
                assert(!base.pending(c[j]));
            }
        }
        lemma_seq_insert(c, jp + 1, x);
        let c0 = base.chains@[0];
        let n0 = new_list.chains@[0];
        assert forall|i: int| 0 <= i < new_list.nodes@.len() implies new_list.kint(i) == base.kint(i) by {
            if i != prev && i != x {
                assert(new_list.nodes@[i] == base.nodes@[i]);
            }
        }
        assert forall|a: int, b: int| 1 <= a < b < n0.len() implies new_list.kint(#[trigger] n0[a])
            < new_list.kint(#[trigger] n0[b]) by {
            assert(new_list.level_ok(0, 0, 0, 0));
            assert(new_list.kint(n0[a]) == base.kint(n0[a]));
            assert(new_list.kint(n0[b]) == base.kint(n0[b]));
            if l == 0 {
                if a == jp + 1 {
                    if b > jp + 1 + 1 {
                        assert(base.kint(c0[jp + 1]) < base.kint(c0[b - 1]));
                    }
                } else if b == jp + 1 {
                    if a < jp {
                        assert(base.kint(c0[a]) < base.kint(c0[jp]));
                    }
                } else {
                    let oa = if a <= jp { a } else { a - 1 };
                    let ob = if b <= jp { b } else { b - 1 };
                    assert(base.kint(c0[oa]) < base.kint(c0[ob]));
                }
            } else {
                assert(base.kint(c0[a]) < base.kint(c0[b]));
            }
        }
        assert forall|i: int| #[trigger] new_list.pending(i) implies MAX_LEVEL <= i < new_list.nodes@.len() by {
            assert(base.pending(i));
        }
        let ne = new_list.entries();
        let be = base.entries();
        assert forall|j: int| 0 <= j < n0.len() implies new_list.nodes@[n0[j]].key == base.nodes@[n0[j]].key
            && new_list.nodes@[n0[j]].element == base.nodes@[n0[j]].element by {
            assert(new_list.level_ok(0, 0, 0, 0));
            if n0[j] != prev && n0[j] != x {
                assert(new_list.nodes@[n0[j]] == base.nodes@[n0[j]]);
            }
        }
        if l == 0 {
            let ins = be.insert(jp, (base.nodes@[x].key, base.nodes@[x].element.unwrap()));
            assert forall|j: int| 0 <= j < ne.len() implies ne[j] == ins[j] by {
                assert(n0.drop_first()[j] == n0[j + 1]);
                if j < jp {
                    assert(c0.drop_first()[j] == c0[j + 1]);
                } else if j > jp {
                    assert(c0.drop_first()[j - 1] == c0[j]);
                }
            }
            assert(ne =~= ins);
        } else {
            assert(n0 == c0);
            assert forall|j: int| 0 <= j < ne.len() implies ne[j] == be[j] by {
                assert(n0.drop_first()[j] == n0[j + 1]);
            }
            assert(ne =~= be);
        }
    }
}

impl<K: ListKey, V> LockFreeSkipList<K, V> {
    /// The successor word of the node with handle `h`.
    pub closed spec fn succ_of(&self, h: usize) -> SuccData {
        self.nodes@[h - 1].succ@
    }

    /// The integer key of the node with handle `h`.
    pub closed spec fn key_of(&self, h: usize) -> int {
        self.kint(h - 1)
    }

    /// How far node `i` is from the end of its level: heads are farthest, then
    /// nodes by decreasing key.
    pub closed spec fn meas(&self, i: int) -> nat {
        if i < MAX_LEVEL {
            0x4_0000_0000_0000_0000
        } else {
            (0x2_0000_0000_0000_0000 - self.kint(i)) as nat
        }
    }

    /// The level of the node with handle `h`.
    pub closed spec fn lvl_of(&self, h: usize) -> int {
        self.lvl@[h - 1]
    }

    /// Position of the node with handle `h` on level `l` (the head at 0).
    pub closed spec fn pos_at(&self, l: int, h: usize) -> int {
        choose|j: int| 0 <= j < self.chains@[l].len() && self.chains@[l][j] == h - 1
    }

    /// The node with handle `h` is linked on level `l`.
    pub closed spec fn live_at(&self, l: int, h: usize) -> bool {
        1 <= h && 0 <= l < MAX_LEVEL && self.on_level(l, h - 1)
    }

    /// `h` names a node that is not part of a tower being built.
    pub closed spec fn usable(&self, h: usize) -> bool {
        1 <= h <= self.nodes@.len() && !self.pending(h - 1)
    }

    /// `self` and `other` hold the same nodes with the same links and the same garbage.
    pub closed spec fn same_state_as(&self, other: &Self) -> bool {
        &&& self.nodes@ == other.nodes@
        &&& self.head_tower@ == other.head_tower@
        &&& self.trash@ == other.trash@
        &&& self.chains@ == other.chains@
        &&& self.lvl@ == other.lvl@
        &&& self.pend@ == other.pend@
    }

    /// `self` and `other` have the same nodes with the same keys, elements, levels and
    /// tower links; only successors, backlinks and level chains may differ.
    pub closed spec fn same_shape(&self, other: &Self) -> bool {
        &&& self.nodes@.len() == other.nodes@.len()
        &&& self.lvl@ == other.lvl@
        &&& self.pend@ == other.pend@
        &&& self.head_tower@ == other.head_tower@
        &&& forall|i: int|
            0 <= i < self.nodes@.len() ==> {
                &&& (#[trigger] self.nodes@[i]).key == other.nodes@[i].key
                &&& self.nodes@[i].element == other.nodes@[i].element
                &&& self.nodes@[i].down == other.nodes@[i].down
                &&& self.nodes@[i].tower_root == other.nodes@[i].tower_root
            }
    }

    /// The nodes of `self` are the first nodes of `other`, and the heads are the same.
    pub closed spec fn nodes_prefix_of(&self, other: &Self) -> bool {
        &&& self.nodes@.len() <= other.nodes@.len()
        &&& forall|i: int| 0 <= i < self.nodes@.len() ==> #[trigger] self.nodes@[i] == other.nodes@[i]
        &&& self.head_tower@ == other.head_tower@
    }

    /// `self` and `other` link the same nodes on every level.
    pub closed spec fn same_chains(&self, other: &Self) -> bool {
        self.chains@ == other.chains@
    }

    /// Only nodes and chains of level `l` differ between `self` and `other`.
    pub closed spec fn frame_level(&self, other: &Self, l: int) -> bool {
        &&& self.nodes@.len() == other.nodes@.len()
        &&& forall|i: int|
            0 <= i < self.nodes@.len() && self.lvl@[i] != l ==> #[trigger] self.nodes@[i]
                == other.nodes@[i]
        &&& forall|m: int| 0 <= m < MAX_LEVEL && m != l ==> #[trigger] self.chains@[m] == other.chains@[m]
    }

    /// The node `del` comes right after the node `prev` on some level, and its
    /// deletion is at stage `st`.
    pub closed spec fn deleting(&self, prev: usize, del: usize, st: int) -> bool {
        exists|dl: int, sp: int|
            self.inv(dl, sp, st) && 0 <= dl < MAX_LEVEL && self.chains@[dl][sp] == prev - 1
                && self.chains@[dl][sp + 1] == del - 1
    }

    /// While `del` is being deleted after `prev`, `prev` holds `del` flagged, and `del`
    /// holds its successor clean at stage 1 and marked at stage 2.
    pub proof fn lemma_deleting_words(&self, prev: usize, del: usize, st: int)
        requires
            self.deleting(prev, del, st),
            1 <= st <= 2,
        ensures
            self.succ_of(prev) == (SuccData { ptr: del, mark: false, flag: true }),
            !self.succ_of(del).flag,
            self.succ_of(del).mark == (st == 2),
    {
        let w = choose|dl: int, sp: int|
            self.inv(dl, sp, st) && 0 <= dl < MAX_LEVEL && self.chains@[dl][sp] == prev - 1
                && self.chains@[dl][sp + 1] == del - 1;
        assert(self.level_ok(w.0, w.0, w.1, st));
        let c = self.chains@[w.0];
        assert(self.nodes@[c[w.1]].succ@ == stage_succ(c, w.1, w.1, st));
        assert(self.nodes@[c[w.1 + 1]].succ@ == stage_succ(c, w.1 + 1, w.1, st));
    }

    proof fn lemma_pos_at(&self, l: int, h: usize)
        requires
            exists|dl: int, sp: int, st: int| self.inv(dl, sp, st),
            self.live_at(l, h),
        ensures
            0 <= self.pos_at(l, h) < self.chains@[l].len(),
            self.chains@[l][self.pos_at(l, h)] == h - 1,
            forall|j: int| 0 <= j < self.chains@[l].len() && self.chains@[l][j] == h - 1 ==> j == self.pos_at(l, h),
            self.lvl@[h - 1] == l,
            self.usable(h),
    {
        let w = choose|dl: int, sp: int, st: int| self.inv(dl, sp, st);
        assert(self.level_ok(l, w.0, w.1, w.2));
        assert(self.chains@[l].contains(h - 1));
        let j0 = choose|j: int| 0 <= j < self.chains@[l].len() && self.chains@[l][j] == h - 1;
        assert(0 <= self.pos_at(l, h) < self.chains@[l].len());
    }

    /// Unlinks the marked node `del` from its flagged predecessor `prev`, and hands it
    /// to the garbage bag.
    pub fn help_unflag(&mut self, prev_node: usize, del_node: usize)
        requires
            old(self).deleting(prev_node, del_node, 2) || (old(self).inv(0, 0, 0) && old(
                self,
            ).usable(prev_node) && 1 <= del_node <= old(self).node_count()),
        ensures
            old(self).deleting(prev_node, del_node, 2) ==> {
                &&& final(self).inv(0, 0, 0)
                &&& final(self).same_shape(old(self))
                &&& final(self).frame_level(old(self), old(self).lvl_of(prev_node))
                &&& old(self).lvl_of(prev_node) == 0 ==> final(self).entries() == old(self).entries().remove(
                    old(self).pos_at(0, prev_node),
                )
                &&& old(self).lvl_of(prev_node) != 0 ==> final(self).entries() == old(self).entries()
                &&& final(self).garbage() == old(self).garbage().push(GarbageItem { ptr: del_node })
                &&& !final(self).live_at(old(self).lvl_of(prev_node), del_node)
                &&& forall|h: usize| #[trigger] final(self).live_at(old(self).lvl_of(prev_node), h)
                    && h != prev_node ==> old(self).live_at(old(self).lvl_of(prev_node), h)
                &&& forall|h: usize| #[trigger] old(self).live_at(old(self).lvl_of(prev_node), h)
                    && h != del_node ==> final(self).live_at(old(self).lvl_of(prev_node), h)
                &&& final(self).live_at(old(self).lvl_of(prev_node), prev_node)
                &&& final(self).succ_of(prev_node) == clean(old(self).succ_of(del_node).ptr as int)
                &&& final(self).node_at(del_node) == old(self).node_at(del_node)
            },
            !old(self).deleting(prev_node, del_node, 2) ==> final(self).same_state_as(old(self)),
    {
        let ghost w = choose|dl: int, sp: int|
            self.inv(dl, sp, 2) && 0 <= dl < MAX_LEVEL && self.chains@[dl][sp] == prev_node - 1
                && self.chains@[dl][sp + 1] == del_node - 1;
        let ghost dl = w.0;
        let ghost sp = w.1;
        let ghost old_list = *self;
        let ghost unlinking = self.deleting(prev_node, del_node, 2);
        proof {
            if unlinking {
                assert(self.level_ok(dl, dl, sp, 2));
                let c = self.chains@[dl];
                assert(self.nodes@[c[sp + 1]].succ@ == stage_succ(c, sp + 1, sp, 2));
                assert(self.nodes@[c[sp]].succ@ == stage_succ(c, sp, sp, 2));
                assert(self.live_at(dl, prev_node));
                self.lemma_pos_at(dl, prev_node);
                if dl == 0 {
                    assert(self.pos_at(0, prev_node) == sp);
                }
            } else {
                let l = self.lvl@[prev_node - 1];
                assert(self.node_ok(prev_node - 1));
                if self.on_level(l, prev_node - 1) {
                    self.lemma_live_succ(l, prev_node);
                } else {
                    assert(self.dead_ok(prev_node - 1));
                }
                assert(!self.nodes@[prev_node - 1].succ@.flag);
            }
        }
        let next_node = self.nodes[del_node - 1].load_successor().ptr;
        let expected = SuccData::new_flagged(del_node);
        let new_val = SuccData::new(next_node);
        match self.nodes[prev_node - 1].swap_successor(expected, new_val) {
            Ok(e) => {
                ThreadedGC::push(&mut self.trash, e.ptr);
            },
            Err(_) => {},
        }
        proof {
            if !unlinking {
                assert(self.nodes@ =~= old_list.nodes@);
            } else {
                let c = old_list.chains@[dl];
                self.chains = Ghost(old_list.chains@.update(dl, c.remove(sp + 1)));
                assert(Self::unlink_step(&old_list, self, dl, sp));
                Self::lemma_unlink(&old_list, self, dl, sp);
                lemma_seq_remove(c, sp + 1);
                assert forall|i: int| 0 <= i < self.nodes@.len() && self.lvl@[i] != dl implies #[trigger] self.nodes@[i]
                    == old_list.nodes@[i] by {
                    assert(old_list.lvl@[c[sp]] == dl);
                }
                assert(!self.live_at(dl, del_node));
                assert forall|h: usize| #[trigger] self.live_at(dl, h) && h != prev_node implies old_list.live_at(dl, h) by {
                    assert(self.chains@[dl].contains(h - 1));
                }
                assert forall|h: usize| #[trigger] old_list.live_at(dl, h) && h != del_node implies self.live_at(dl, h) by {
                    assert(old_list.chains@[dl].contains(h - 1));
                }
                assert(self.chains@[dl][sp] == prev_node - 1);
                assert(self.live_at(dl, prev_node));
            }
        }
    }
}

impl<K: ListKey, V> LockFreeSkipList<K, V> {
    /// Marks `del_node`, whose predecessor is flagged.
    pub fn try_mark(&mut self, del_node: usize)
        requires
            (exists|prev: usize| old(self).deleting(prev, del_node, 1)) || (old(self).inv(0, 0, 0)
                && old(self).usable(del_node) && old(self).succ_of(del_node).mark),
        ensures
            old(self).succ_of(del_node).mark ==> *final(self) == *old(self),
            forall|prev: usize|
                old(self).deleting(prev, del_node, 1) ==> final(self).deleting(prev, del_node, 2),
            final(self).same_shape(old(self)),
            final(self).frame_level(old(self), old(self).lvl_of(del_node)),
            final(self).same_chains(old(self)),
            final(self).entries() == old(self).entries(),
            final(self).garbage() == old(self).garbage(),
            final(self).succ_of(del_node) == (SuccData {
                ptr: old(self).succ_of(del_node).ptr,
                mark: true,
                flag: false,
            }),
            final(self).node_at(del_node).backlink == old(self).node_at(del_node).backlink,
        decreases 0nat,
    {
        proof {
            if exists|prev: usize| self.deleting(prev, del_node, 1) {
                let pv = choose|prev: usize| self.deleting(prev, del_node, 1);
                let w0 = choose|dl2: int, sp2: int|
                    self.inv(dl2, sp2, 1) && 0 <= dl2 < MAX_LEVEL && self.chains@[dl2][sp2] == pv - 1
                        && self.chains@[dl2][sp2 + 1] == del_node - 1;
                assert(self.level_ok(w0.0, w0.0, w0.1, 1));
            }
        }
        if self.nodes[del_node - 1].load_successor().mark {
            proof {
                assert forall|pv: usize| self.deleting(pv, del_node, 1) implies self.deleting(pv, del_node, 2) by {
                    let w2 = choose|dl2: int, sp2: int|
                        self.inv(dl2, sp2, 1) && 0 <= dl2 < MAX_LEVEL && self.chains@[dl2][sp2] == pv - 1
                            && self.chains@[dl2][sp2 + 1] == del_node - 1;
                    assert(self.level_ok(w2.0, w2.0, w2.1, 1));
                    let c2 = self.chains@[w2.0];
                    assert(self.nodes@[c2[w2.1 + 1]].succ@ == stage_succ(c2, w2.1 + 1, w2.1, 1));
                }
                assert(!self.nodes@[del_node - 1].succ@.flag) by {
                    if exists|prev: usize| self.deleting(prev, del_node, 1) {
                        let pv = choose|prev: usize| self.deleting(prev, del_node, 1);
                        self.lemma_deleting_words(pv, del_node, 1);
                    } else {
                        assert(self.node_ok(del_node - 1));
                        let l = self.lvl@[del_node - 1];
                        if self.on_level(l, del_node - 1) {
                            assert(self.level_ok(l, 0, 0, 0));
                            let c = self.chains@[l];
                            let j = choose|j: int| 0 <= j < c.len() && c[j] == del_node - 1;
                            assert(self.nodes@[c[j]].succ@ == stage_succ(c, j, 0, 0));
                        } else {
                            assert(self.dead_ok(del_node - 1));
                        }
                    }
                }
            }
            return;
        }
        let ghost prev = choose|prev: usize| self.deleting(prev, del_node, 1);
        let ghost w = choose|dl: int, sp: int|
            self.inv(dl, sp, 1) && 0 <= dl < MAX_LEVEL && self.chains@[dl][sp] == prev - 1
                && self.chains@[dl][sp + 1] == del_node - 1;
        let ghost dl = w.0;
        let ghost sp = w.1;
        let ghost old_list = *self;
        proof {
            assert(self.level_ok(dl, dl, sp, 1));
            let c = self.chains@[dl];
            assert(self.nodes@[c[sp + 1]].succ@ == stage_succ(c, sp + 1, sp, 1));
        }
        loop
            invariant_except_break
                *self == old_list,
            invariant
                old_list == *old(self),
                old_list.inv(dl, sp, 1),
                0 <= dl < MAX_LEVEL,
                old_list.chains@[dl][sp] == prev - 1,
                old_list.chains@[dl][sp + 1] == del_node - 1,
                old_list.nodes@[del_node - 1].succ@ == stage_succ(old_list.chains@[dl], sp + 1, sp, 1),
                1 <= del_node <= old_list.nodes@.len(),
            ensures
                self.inv(dl, sp, 2),
                self.entries() == old_list.entries(),
                Self::restage_step(&old_list, self, dl, sp + 1, sp, 1, sp, 2),
                self.trash@ == old_list.trash@,
                self.nodes@[del_node - 1].backlink == old_list.nodes@[del_node - 1].backlink,
            decreases 0nat,
        {
            let succ_val = self.nodes[del_node - 1].load_successor();
            if succ_val.mark {
                break;
            }
            let expected = SuccData::new(succ_val.ptr);
            let new_val = SuccData::new_marked(succ_val.ptr);
            match self.nodes[del_node - 1].swap_successor(expected, new_val) {
                Ok(_) => {
                    proof {
                        assert(Self::restage_step(&old_list, self, dl, sp + 1, sp, 1, sp, 2));
                        Self::lemma_restage(&old_list, self, dl, sp + 1, sp, 1, sp, 2);
                    }
                    break;
                },
                Err(actual) => {
                    if actual.flag {
                        self.help_flagged(del_node, actual.ptr);
                    }
                },
            }
        }
        proof {
            let c = old_list.chains@[dl];
            assert(old_list.level_ok(dl, dl, sp, 1));
            assert(old_list.lvl@[c[sp + 1]] == dl);
            assert forall|pv: usize| old_list.deleting(pv, del_node, 1) implies self.deleting(pv, del_node, 2) by {
                let w2 = choose|dl2: int, sp2: int|
                    old_list.inv(dl2, sp2, 1) && 0 <= dl2 < MAX_LEVEL && old_list.chains@[dl2][sp2]
                        == pv - 1 && old_list.chains@[dl2][sp2 + 1] == del_node - 1;
                let dl2 = w2.0;
                let sp2 = w2.1;
                assert(old_list.level_ok(dl2, dl2, sp2, 1));
                assert(old_list.lvl@[del_node - 1] == dl2);
                assert(dl2 == dl);
                assert(old_list.level_ok(dl, dl, sp, 1));
                let c2 = old_list.chains@[dl];
                assert(c2[sp2 + 1] == c2[sp + 1]);
                assert(sp2 == sp);
                assert(self.chains@[dl][sp] == pv - 1);
            }
            assert forall|i: int| 0 <= i < self.nodes@.len() && self.lvl@[i] != old_list.lvl@[del_node - 1] implies #[trigger] self.nodes@[i]
                == old_list.nodes@[i] by {}
        }
    }

    /// Finishes the deletion of `del_node`, whose predecessor `prev_node` is flagged:
    /// sets the backlink, marks the node and unlinks it.
    pub fn help_flagged(&mut self, prev_node: usize, del_node: usize)
        requires
            old(self).deleting(prev_node, del_node, 1),
        ensures
            final(self).inv(0, 0, 0),
            final(self).same_shape(old(self)),
            final(self).frame_level(old(self), old(self).lvl_of(prev_node)),
            old(self).lvl_of(prev_node) == 0 ==> final(self).entries() == old(self).entries().remove(
                old(self).pos_at(0, prev_node),
            ),
            old(self).lvl_of(prev_node) != 0 ==> final(self).entries() == old(self).entries(),
            final(self).garbage() == old(self).garbage().push(GarbageItem { ptr: del_node }),
            !final(self).live_at(old(self).lvl_of(prev_node), del_node),
            forall|h: usize| #[trigger] final(self).live_at(old(self).lvl_of(prev_node), h) && h != prev_node
                ==> old(self).live_at(old(self).lvl_of(prev_node), h),
            forall|h: usize| #[trigger] old(self).live_at(old(self).lvl_of(prev_node), h) && h != del_node
                ==> final(self).live_at(old(self).lvl_of(prev_node), h),
            final(self).live_at(old(self).lvl_of(prev_node), prev_node),
            final(self).succ_of(prev_node) == clean(old(self).succ_of(del_node).ptr as int),
            final(self).node_at(del_node).backlink == prev_node,
            final(self).succ_of(del_node) == (SuccData {
                ptr: old(self).succ_of(del_node).ptr,
                mark: true,
                flag: false,
            }),
        decreases 1nat,
    {
        let ghost w = choose|dl: int, sp: int|
            self.inv(dl, sp, 1) && 0 <= dl < MAX_LEVEL && self.chains@[dl][sp] == prev_node - 1
                && self.chains@[dl][sp + 1] == del_node - 1;
        let ghost dl = w.0;
        let ghost sp = w.1;
        let ghost old_list = *self;
        proof {
            assert(self.level_ok(dl, dl, sp, 1));
            let c = self.chains@[dl];
            assert(self.nodes@[c[sp + 1]].succ@ == stage_succ(c, sp + 1, sp, 1));
            assert(self.lvl@[c[sp]] == dl);
            assert(self.live_at(dl, prev_node));
            self.lemma_pos_at(dl, prev_node);
        }
        self.nodes[del_node - 1].store_backlink(prev_node);
        proof {
            assert(Self::restage_step(&old_list, self, dl, sp + 1, sp, 1, sp, 1));
            Self::lemma_restage(&old_list, self, dl, sp + 1, sp, 1, sp, 1);
        }
        let ghost mid1 = *self;
        let succ_val = self.nodes[del_node - 1].load_successor();
        if !succ_val.mark {
            proof {
                assert(self.deleting(prev_node, del_node, 1));
            }
            self.try_mark(del_node);
        }
        proof {
            assert(self.deleting(prev_node, del_node, 2));
            assert(self.lvl_of(prev_node) == dl);
            if dl == 0 {
                self.lemma_pos_at(0, prev_node);
                old_list.lemma_pos_at(0, prev_node);
                assert(self.pos_at(0, prev_node) == old_list.pos_at(0, prev_node));
            }
        }
        let ghost mid2 = *self;
        self.help_unflag(prev_node, del_node);
        proof {
            assert forall|i: int| 0 <= i < self.nodes@.len() && self.lvl@[i] != dl implies #[trigger] self.nodes@[i]
                == old_list.nodes@[i] by {
                assert(mid2.nodes@[i] == mid1.nodes@[i]);
                assert(old_list.lvl@[del_node - 1] == dl) by {
                    assert(old_list.level_ok(dl, dl, sp, 1));
                }
            }
            assert forall|h: usize| #[trigger] self.live_at(dl, h) && h != prev_node implies old_list.live_at(dl, h) by {
                assert(mid2.live_at(dl, h));
            }
            assert forall|h: usize| #[trigger] old_list.live_at(dl, h) && h != del_node implies self.live_at(dl, h) by {
                assert(mid2.chains@ == old_list.chains@);
                assert(mid2.live_at(dl, h));
            }
            assert(mid2.succ_of(del_node).ptr == old_list.succ_of(del_node).ptr);
            let w2 = choose|dl2: int, sp2: int|
                mid2.inv(dl2, sp2, 2) && 0 <= dl2 < MAX_LEVEL && mid2.chains@[dl2][sp2] == prev_node - 1
                    && mid2.chains@[dl2][sp2 + 1] == del_node - 1;
            assert(mid2.level_ok(w2.0, w2.0, w2.1, 2));
            let c2 = mid2.chains@[w2.0];
            assert(mid2.nodes@[c2[w2.1 + 1]].succ@ == stage_succ(c2, w2.1 + 1, w2.1, 2));
            assert(mid2.succ_of(del_node).mark && !mid2.succ_of(del_node).flag);
            assert(mid2.node_at(del_node).backlink == prev_node);
        }
    }
}

impl<K: ListKey, V> LockFreeSkipList<K, V> {
    /// A node that is neither pending nor marked is linked on its level, and its
    /// successor is the next node of that level.
    proof fn lemma_unmarked_live(&self, h: usize)
        requires
            self.inv(0, 0, 0),
            self.usable(h),
            !self.succ_of(h).mark,
        ensures
            self.live_at(self.lvl_of(h), h),
            self.succ_of(h) == clean(next_handle(self.chains@[self.lvl_of(h)], self.pos_at(self.lvl_of(h), h))),
            self.succ_of(h).ptr != 0 ==> self.live_at(self.lvl_of(h), self.succ_of(h).ptr)
                && self.pos_at(self.lvl_of(h), self.succ_of(h).ptr) == self.pos_at(self.lvl_of(h), h) + 1,
    {
        assert(self.node_ok(h - 1));
        let l = self.lvl@[h - 1];
        if !self.on_level(l, h - 1) {
            assert(self.dead_ok(h - 1));
        }
        self.lemma_pos_at(l, h);
        let c = self.chains@[l];
        let j = self.pos_at(l, h);
        assert(self.level_ok(l, 0, 0, 0));
        assert(self.nodes@[c[j]].succ@ == stage_succ(c, j, 0, 0));
        if self.succ_of(h).ptr != 0 {
            assert(j + 1 < c.len());
            let n = (c[j + 1] + 1) as usize;
            assert(c.contains(n - 1));
            assert(self.live_at(l, n));
            self.lemma_pos_at(l, n);
        }
    }

    /// A linked node holds a clean link to the next node of its level.
    proof fn lemma_live_succ(&self, l: int, h: usize)
        requires
            self.inv(0, 0, 0),
            self.live_at(l, h),
        ensures
            self.succ_of(h) == clean(next_handle(self.chains@[l], self.pos_at(l, h))),
            !self.succ_of(h).mark,
            self.lvl_of(h) == l,
            self.usable(h),
            self.succ_of(h).ptr != 0 ==> self.live_at(l, self.succ_of(h).ptr) && self.pos_at(
                l,
                self.succ_of(h).ptr,
            ) == self.pos_at(l, h) + 1,
    {
        self.lemma_pos_at(l, h);
        let c = self.chains@[l];
        let j = self.pos_at(l, h);
        assert(self.level_ok(l, 0, 0, 0));
        assert(self.nodes@[c[j]].succ@ == stage_succ(c, j, 0, 0));
        if self.succ_of(h).ptr != 0 {
            assert(j + 1 < c.len());
            let n = (c[j + 1] + 1) as usize;
            assert(c.contains(n - 1));
            assert(self.live_at(l, n));
            self.lemma_pos_at(l, n);
        }
    }

    /// Along a level, keys do not decrease past the head.
    proof fn lemma_level_sorted(&self, l: int, a: int, b: int)
        requires
            self.inv(0, 0, 0),
            0 <= l < MAX_LEVEL,
            1 <= a <= b < self.chains@[l].len(),
        ensures
            self.chains@[l][b] >= MAX_LEVEL,
            self.kint(self.chains@[l][a]) <= self.kint(self.chains@[l][b]),
        decreases b - a,
    {
        let c = self.chains@[l];
        assert(self.level_ok(l, 0, 0, 0));
        assert(self.nodes@[c[b - 1]].succ@ == stage_succ(c, b - 1, 0, 0));
        assert(self.node_ok(c[b - 1]));
        assert(self.sord(c[b - 1], c[b]));
        if a < b {
            self.lemma_level_sorted(l, a, b - 1);
        }
    }

    /// The key bounds make the measure of node `i` positive and below the heads'.
    proof fn lemma_meas(&self, i: int)
        requires
            0 <= i < self.nodes@.len(),
        ensures
            i >= MAX_LEVEL ==> 0 < self.meas(i) < 0x4_0000_0000_0000_0000,
            i >= MAX_LEVEL ==> self.meas(i) == 0x2_0000_0000_0000_0000 - self.kint(i),
    {
        K::lemma_key_int_bounded(&self.nodes@[i].key);
    }

    /// Searches level `lvl_of(curr_node)` from `curr_node` for the first node whose
    /// key is not below `k`; gives that node's predecessor and the node (0 when there
    /// is none). On an upper level it unlinks on the way the nodes whose tower has been
    /// deleted, and, once it has unlinked one, every node after it on that level.
    pub fn search_from(&mut self, k: &K, curr_node: usize) -> (r: (usize, usize))
        requires
            old(self).inv(0, 0, 0),
            old(self).usable(curr_node),
        ensures
            final(self).inv(0, 0, 0),
            final(self).same_shape(old(self)),
            final(self).frame_level(old(self), old(self).lvl_of(curr_node)),
            old(self).lvl_of(curr_node) == 0 ==> *final(self) == *old(self),
            old(self).all_linked() ==> *final(self) == *old(self),
            old(self).linked_below(k.key_int()) ==> *final(self) == *old(self),
            forall|m: int| #[trigger] old(self).linked_below(m) ==> final(self).linked_below(m),
            final(self).entries() == old(self).entries(),
            final(self).usable(r.0),
            final(self).lvl_of(r.0) == old(self).lvl_of(curr_node),
            r.0 == curr_node || (r.0 > MAX_LEVEL && final(self).key_of(r.0) < k.key_int()),
            final(self).succ_of(r.0).ptr == r.1,
            r.1 == 0 || (final(self).usable(r.1) && r.1 > MAX_LEVEL && final(self).lvl_of(r.1)
                == old(self).lvl_of(curr_node) && final(self).key_of(r.1) >= k.key_int()),
            old(self).live_at(old(self).lvl_of(curr_node), curr_node) ==> final(self).live_at(
                old(self).lvl_of(curr_node),
                r.0,
            ),
            old(self).lvl_of(curr_node) == 0 && old(self).live_at(0, curr_node) ==> final(self).pos_at(
                0,
                r.0,
            ) >= old(self).pos_at(0, curr_node),
            forall|h: usize| #[trigger] final(self).live_at(old(self).lvl_of(curr_node), h) ==> old(
                self,
            ).live_at(old(self).lvl_of(curr_node), h),
            old(self).live_at(old(self).lvl_of(curr_node), curr_node) ==> r.0 == curr_node || !old(
                self,
            ).succ_of(old(self).node_at(r.0).tower_root).mark,
        decreases 2nat,
    {
        let ghost lv = self.lvl@[curr_node - 1];
        let ghost old_list = *self;
        let ghost start = curr_node;
        let mut curr_node = curr_node;
        proof {
            assert(self.node_ok(curr_node - 1));
        }
        let mut next_node = self.nodes[curr_node - 1].load_successor().ptr;
        proof {
            assert(self.node_ok(curr_node - 1));
        }
        while next_node != 0 && self.nodes[next_node - 1].key.key_lt(k)
            invariant
                old_list == *old(self),
                old_list.inv(0, 0, 0),
                1 <= start <= old_list.nodes@.len(),
                lv == old_list.lvl@[start - 1],
                self.inv(0, 0, 0),
                next_node == 0 || (self.usable(next_node) && self.lvl@[next_node - 1] == lv),
                self.same_shape(&old_list),
                self.frame_level(&old_list, lv),
                lv == 0 ==> *self == old_list,
                old_list.linked_below(k.key_int()) ==> *self == old_list,
                forall|m: int| #[trigger] old_list.linked_below(m) ==> self.linked_below(m),
                forall|h: usize| #[trigger] self.live_at(lv, h) ==> old_list.live_at(lv, h),
                self.entries() == old_list.entries(),
                self.usable(curr_node),
                self.lvl@[curr_node - 1] == lv,
                curr_node == start || (curr_node > MAX_LEVEL && self.key_of(curr_node) < k.key_int()),
                next_node == self.nodes@[curr_node - 1].succ@.ptr,
                old_list.live_at(lv, start) ==> self.live_at(lv, curr_node),
                lv == 0 && old_list.live_at(0, start) ==> self.pos_at(0, curr_node) >= old_list.pos_at(0, start),
                old_list.live_at(lv, start) ==> curr_node == start || !old_list.succ_of(
                    old_list.nodes@[curr_node - 1].tower_root,
                ).mark,
            ensures
                lv == 0 && old_list.live_at(0, start) ==> self.pos_at(0, curr_node) >= old_list.pos_at(0, start),
                self.inv(0, 0, 0),
                self.same_shape(&old_list),
                self.frame_level(&old_list, lv),
                lv == 0 ==> *self == old_list,
                old_list.linked_below(k.key_int()) ==> *self == old_list,
                forall|m: int| #[trigger] old_list.linked_below(m) ==> self.linked_below(m),
                forall|h: usize| #[trigger] self.live_at(lv, h) ==> old_list.live_at(lv, h),
                self.entries() == old_list.entries(),
                self.usable(curr_node),
                self.lvl@[curr_node - 1] == lv,
                curr_node == start || (curr_node > MAX_LEVEL && self.key_of(curr_node) < k.key_int()),
                next_node == self.nodes@[curr_node - 1].succ@.ptr,
                old_list.live_at(lv, start) ==> self.live_at(lv, curr_node),
                next_node == 0 || self.key_of(next_node) >= k.key_int(),
                old_list.live_at(lv, start) ==> curr_node == start || !old_list.succ_of(
                    old_list.nodes@[curr_node - 1].tower_root,
                ).mark,
            decreases self.meas(curr_node - 1), curr_node,
        {
            proof {
                assert(self.node_ok(curr_node - 1));
                assert(self.node_ok(next_node - 1));
            }
            let mut curr_succ_val = self.nodes[curr_node - 1].load_successor();
            let mut next_succ_val = self.nodes[next_node - 1].load_successor();
            let tower_root = self.nodes[next_node - 1].tower_root;
            let is_superfluous = tower_root != 0 && self.nodes[tower_root - 1].load_successor().mark;
            let ghost inner_start = *self;
            proof {
                let r = self.nodes@[next_node - 1].tower_root;
                assert(self.node_ok(curr_node - 1));
                assert(self.node_ok(next_node - 1));
                assert(self.node_ok(r - 1));
                assert(old_list.nodes@[next_node - 1].tower_root == r);
                if lv != 0 {
                    assert(self.nodes@[r - 1] == old_list.nodes@[r - 1]);
                }
                if old_list.live_at(lv, start) {
                    self.lemma_live_succ(lv, curr_node);
                }
                if old_list.linked_below(k.key_int()) {
                    assert(self.on_level(lv, next_node - 1));
                    self.lemma_live_succ(lv, next_node);
                    assert(self.on_level(0, r - 1));
                    self.lemma_live_succ(0, r);
                }
                assert forall|m: int| #[trigger] old_list.linked_below(m) && is_superfluous implies self.kint(
                    next_node - 1,
                ) >= m by {
                    assert(self.linked_below(m));
                    if self.kint(r - 1) < m {
                        assert(self.on_level(0, r - 1));
                        self.lemma_live_succ(0, r);
                    }
                }
            }
            while (next_succ_val.mark || is_superfluous) && (!curr_succ_val.mark
                || curr_succ_val.ptr != next_node)
                invariant_except_break
                    old_list.linked_below(k.key_int()) ==> !next_succ_val.mark && !is_superfluous,
                    forall|m: int| #[trigger] old_list.linked_below(m) && is_superfluous ==> self.kint(
                        next_node - 1,
                    ) >= m,
                    next_node != 0,
                    next_succ_val == self.nodes@[next_node - 1].succ@,
                    curr_succ_val == self.nodes@[curr_node - 1].succ@,
                    next_node == curr_succ_val.ptr,
                    old_list.live_at(lv, start) ==> !curr_succ_val.mark,
                    old_list.live_at(lv, start) && !is_superfluous ==> !old_list.succ_of(
                        old_list.nodes@[next_node - 1].tower_root,
                    ).mark,
                invariant
                    old_list == *old(self),
                    old_list.inv(0, 0, 0),
                    1 <= start <= old_list.nodes@.len(),
                    lv == old_list.lvl@[start - 1],
                    self.inv(0, 0, 0),
                    next_node == 0 || (self.usable(next_node) && self.lvl@[next_node - 1] == lv),
                    self.same_shape(&old_list),
                    self.frame_level(&old_list, lv),
                    lv == 0 ==> *self == old_list,
                    old_list.linked_below(k.key_int()) ==> *self == old_list,
                    forall|m: int| #[trigger] old_list.linked_below(m) ==> self.linked_below(m),
                    forall|h: usize| #[trigger] self.live_at(lv, h) ==> old_list.live_at(lv, h),
                    lv == 0 ==> !is_superfluous || next_succ_val.mark,
                    self.entries() == old_list.entries(),
                    self.usable(curr_node),
                    self.lvl@[curr_node - 1] == lv,
                    curr_node == start || (curr_node > MAX_LEVEL && self.key_of(curr_node) < k.key_int()),
                    old_list.live_at(lv, start) ==> self.live_at(lv, curr_node),
                ensures
                    self.inv(0, 0, 0),
                    self.same_shape(&old_list),
                    self.frame_level(&old_list, lv),
                    lv == 0 ==> *self == old_list,
                    old_list.linked_below(k.key_int()) ==> *self == old_list,
                    forall|m: int| #[trigger] old_list.linked_below(m) ==> self.linked_below(m),
                    forall|h: usize| #[trigger] self.live_at(lv, h) ==> old_list.live_at(lv, h),
                    self.entries() == old_list.entries(),
                    self.usable(curr_node),
                    self.lvl@[curr_node - 1] == lv,
                    curr_node == start || (curr_node > MAX_LEVEL && self.key_of(curr_node) < k.key_int()),
                    next_node == self.nodes@[curr_node - 1].succ@.ptr,
                    old_list.live_at(lv, start) ==> self.live_at(lv, curr_node),
                    old_list.live_at(lv, start) && next_node != 0 ==> !old_list.succ_of(
                        old_list.nodes@[next_node - 1].tower_root,
                    ).mark,
                decreases self.meas(next_node - 1), next_node,
            {
                proof {
                    self.lemma_unmarked_live(curr_node);
                    self.lemma_live_succ(lv, curr_node);
                    self.lemma_live_succ(lv, next_node);
                }
                let ghost before = *self;
                if is_superfluous && !next_succ_val.mark {
                    proof {
                        assert(self.node_ok(curr_node - 1));
                        assert(next_node - 1 >= MAX_LEVEL);
                    }
                    let (actual_prev, _) = self.try_flag(curr_node, next_node);
                    let ghost mid = *self;
                    if actual_prev != 0 {
                        self.help_flagged(actual_prev, next_node);
                    }
                    proof {
                        assert forall|h: usize| #[trigger] before.live_at(lv, h) && h != next_node implies self.live_at(
                            lv,
                            h,
                        ) by {
                            assert(mid.live_at(lv, h));
                        }
                        assert forall|h: usize| #[trigger] self.live_at(lv, h) implies before.live_at(lv, h) by {
                            if h != curr_node {
                                assert(mid.live_at(lv, h));
                            } else {
                                assert(mid.chains@ == before.chains@);
                            }
                        }
                    }
                } else if curr_succ_val.ptr == next_node {
                    self.help_unflag(curr_node, next_node);
                }
                proof {
                    assert(before.node_ok(next_node - 1));
                    let nn = before.succ_of(next_node).ptr as int;
                    assert(self.succ_of(curr_node).ptr == nn);
                    if nn != 0 {
                        before.lemma_meas(next_node - 1);
                        before.lemma_meas(nn - 1);
                        assert(before.sord(next_node - 1, nn - 1));
                        assert(self.meas(nn - 1) == before.meas(nn - 1));
                        assert(self.meas(next_node - 1) == before.meas(next_node - 1));
                    }
                    assert forall|m: int| #[trigger] old_list.linked_below(m) implies self.linked_below(m) by {
                        assert(before.linked_below(m));
                        assert(before.kint(next_node - 1) >= m);
                        assert forall|i: int|
                            0 <= i < self.nodes@.len() && !self.pending(i) && self.kint(i) < m implies #[trigger] self.on_level(
                            self.lvl@[i],
                            i,
                        ) by {
                            assert(before.kint(i) == self.kint(i));
                            assert(before.on_level(before.lvl@[i], i));
                            assert(before.node_ok(i));
                            if self.lvl@[i] == lv {
                                assert(before.live_at(lv, (i + 1) as usize));
                                assert(self.live_at(lv, (i + 1) as usize));
                            } else {
                                assert(self.chains@[self.lvl@[i]] == before.chains@[self.lvl@[i]]);
                            }
                        }
                    }
                    if nn != 0 {
                        assert(before.node_ok(curr_node - 1));
                        assert(next_node - 1 >= MAX_LEVEL);
                        assert(self.kint(nn - 1) == before.kint(nn - 1));
                        assert(before.kint(next_node - 1) <= before.kint(nn - 1));
                        assert forall|m: int| #[trigger] old_list.linked_below(m) && is_superfluous implies self.kint(
                            nn - 1,
                        ) >= m by {
                            assert(before.kint(next_node - 1) >= m);
                        }
                    }
                }
                next_node = self.nodes[curr_node - 1].load_successor().ptr;
                proof {
                    assert(self.node_ok(curr_node - 1));
                }
                if next_node == 0 {
                    break;
                }
                curr_succ_val = self.nodes[curr_node - 1].load_successor();
                next_succ_val = self.nodes[next_node - 1].load_successor();
                proof {
                    if old_list.live_at(lv, start) {
                        self.lemma_live_succ(lv, curr_node);
                    }
                }
            }
            if next_node != 0 && self.nodes[next_node - 1].key.key_lt(k) {
                proof {
                    assert(self.node_ok(curr_node - 1));
                    self.lemma_meas(curr_node - 1);
                    self.lemma_meas(next_node - 1);
                    if old_list.live_at(lv, start) {
                        self.lemma_live_succ(lv, curr_node);
                    }
                    if lv == 0 && old_list.live_at(0, start) {
                        assert(self.pos_at(0, curr_node) >= old_list.pos_at(0, start));
                    }
                }
                curr_node = next_node;
                next_node = self.nodes[curr_node - 1].load_successor().ptr;
                proof {
                    assert(self.node_ok(curr_node - 1));
                }
            } else {
                break;
            }
        }
        proof {
            if next_node != 0 {
                assert(self.node_ok(curr_node - 1));
            }
        }
        (curr_node, next_node)
    }

    /// Skip lists in the same state are alike in every view.
    proof fn lemma_same_state(&self, other: &Self)
        requires
            self.same_state_as(other),
            other.inv(0, 0, 0),
        ensures
            self.inv(0, 0, 0),
            self.entries() == other.entries(),
            self.same_shape(other),
            forall|l: int| #[trigger] self.frame_level(other, l),
            forall|l: int, h: usize| #[trigger] self.live_at(l, h) == other.live_at(l, h),
            forall|h: usize| #[trigger] self.succ_of(h) == other.succ_of(h),
            forall|m: int| #[trigger] self.linked_below(m) == other.linked_below(m),
    {
        assert forall|l: int| 0 <= l < MAX_LEVEL implies #[trigger] self.head_tower@[l] == l + 1 by {
            assert(other.head_tower@[l] == l + 1);
        }
        assert forall|i: int| #[trigger] self.pending(i) implies MAX_LEVEL <= i < self.nodes@.len() by {
            assert(other.pending(i));
        }
        assert forall|l: int| 0 <= l < MAX_LEVEL implies #[trigger] self.level_ok(l, 0, 0, 0) by {
            assert(other.level_ok(l, 0, 0, 0));
        }
        assert forall|i: int| 0 <= i < self.nodes@.len() implies #[trigger] self.node_ok(i) by {
            assert(other.node_ok(i));
        }
        assert forall|i: int|
            0 <= i < self.nodes@.len() && !self.pending(i) && !self.on_level(self.lvl@[i], i) implies #[trigger] self.dead_ok(i) by {
            assert(other.dead_ok(i));
        }
        assert forall|a: int, b: int|
            1 <= a < b < self.chains@[0].len() implies self.kint(#[trigger] self.chains@[0][a])
            < self.kint(#[trigger] self.chains@[0][b]) by {
            assert(other.kint(other.chains@[0][a]) < other.kint(other.chains@[0][b]));
        }
        assert forall|m: int| #[trigger] self.linked_below(m) == other.linked_below(m) by {
            if other.linked_below(m) {
                assert forall|i: int|
                    0 <= i < self.nodes@.len() && !self.pending(i) && self.kint(i) < m implies #[trigger] self.on_level(
                    self.lvl@[i],
                    i,
                ) by {
                    assert(other.on_level(other.lvl@[i], i));
                }
            }
            if self.linked_below(m) {
                assert forall|i: int|
                    0 <= i < other.nodes@.len() && !other.pending(i) && other.kint(i) < m implies #[trigger] other.on_level(
                    other.lvl@[i],
                    i,
                ) by {
                    assert(self.on_level(self.lvl@[i], i));
                }
            }
        }
    }

    /// Flags the predecessor of `target_node` so that the target can be deleted,
    /// searching for that predecessor from `prev_node`, a linked node of the target's
    /// level. Gives the flagged node and `true`; `(prev_node, false)` when `prev_node`
    /// already flags the target; or `(0, false)` when the search from `prev_node` does
    /// not meet the target (as when the target is not linked).
    pub fn try_flag(&mut self, prev_node: usize, target_node: usize) -> (r: (usize, bool))
        requires
            old(self).deleting(prev_node, target_node, 1) || old(self).deleting(prev_node, target_node, 2)
                || (old(self).inv(0, 0, 0) && old(self).live_at(old(self).lvl_of(prev_node), prev_node)
                && old(self).usable(target_node) && target_node > MAX_LEVEL && old(self).lvl_of(target_node)
                == old(self).lvl_of(prev_node)),
        ensures
            old(self).deleting(prev_node, target_node, 1) || old(self).deleting(prev_node, target_node, 2)
                ==> r == (prev_node, false) && *final(self) == *old(self),
            old(self).succ_of(prev_node) == clean(target_node as int) ==> {
                &&& r == (prev_node, true)
                &&& final(self).same_chains(old(self))
                &&& final(self).garbage() == old(self).garbage()
                &&& final(self).succ_of(target_node) == old(self).succ_of(target_node)
            },
            r.1 ==> final(self).deleting(r.0, target_node, 1) && final(self).lvl_of(r.0) == old(
                self,
            ).lvl_of(prev_node),
            !r.1 && old(self).inv(0, 0, 0) ==> r.0 == 0 && final(self).inv(0, 0, 0),
            r.1 ==> final(self).succ_of(r.0) == (SuccData { ptr: target_node, mark: false, flag: true }),
            !old(self).live_at(old(self).lvl_of(prev_node), target_node) ==> !r.1,
            final(self).same_shape(old(self)),
            final(self).frame_level(old(self), old(self).lvl_of(prev_node)),
            final(self).entries() == old(self).entries(),
            forall|m: int| #[trigger] old(self).linked_below(m) ==> final(self).linked_below(m),
        decreases (if old(self).succ_of(prev_node) == clean(target_node as int) {
            1nat
        } else {
            3nat
        }),
    {
        let ghost old_list = *self;
        let ghost dl = self.lvl@[prev_node - 1];
        let ghost adjacent = self.succ_of(prev_node) == clean(target_node as int);
        let ghost midway = old_list.deleting(prev_node, target_node, 1) || old_list.deleting(
            prev_node,
            target_node,
            2,
        );
        proof {
            if midway {
                let st: int = if old_list.deleting(prev_node, target_node, 1) {
                    1
                } else {
                    2
                };
                old_list.lemma_deleting_words(prev_node, target_node, st);
                let w = choose|dl2: int, sp2: int|
                    old_list.inv(dl2, sp2, st) && 0 <= dl2 < MAX_LEVEL && old_list.chains@[dl2][sp2]
                        == prev_node - 1 && old_list.chains@[dl2][sp2 + 1] == target_node - 1;
                let c = old_list.chains@[w.0];
                assert(old_list.level_ok(w.0, w.0, w.1, st));
                assert(0 <= c[w.1] < old_list.nodes@.len());
                if old_list.inv(0, 0, 0) {
                    assert(old_list.level_ok(w.0, 0, 0, 0));
                    assert(old_list.nodes@[c[w.1]].succ@ == stage_succ(c, w.1, 0, 0));
                }
            }
        }
        let mut prev = prev_node;
        loop
            invariant
                old_list == *old(self),
                midway == (old_list.deleting(prev_node, target_node, 1) || old_list.deleting(
                    prev_node,
                    target_node,
                    2,
                )),
                midway ==> *self == old_list && prev == prev_node && 1 <= prev_node <= old_list.nodes@.len()
                    && old_list.succ_of(prev_node) == (SuccData {
                    ptr: target_node,
                    mark: false,
                    flag: true,
                }) && !old_list.inv(0, 0, 0),
                !midway ==> old_list.inv(0, 0, 0),
                adjacent == (old_list.succ_of(prev_node) == clean(target_node as int)),
                adjacent ==> *self == old_list && prev == prev_node,
                !midway ==> self.inv(0, 0, 0),
                !midway ==> 0 <= dl < MAX_LEVEL,
                dl == old_list.lvl@[prev_node - 1],
                !midway ==> self.live_at(dl, prev),
                !midway ==> self.lvl@[prev - 1] == dl,
                !midway ==> self.usable(target_node),
                !midway ==> self.lvl@[target_node - 1] == dl,
                !midway ==> target_node > MAX_LEVEL,
                self.same_shape(&old_list),
                self.frame_level(&old_list, dl),
                self.entries() == old_list.entries(),
                forall|m: int| #[trigger] old_list.linked_below(m) ==> self.linked_below(m),
                forall|h: usize| #[trigger] self.live_at(dl, h) ==> old_list.live_at(dl, h),
            decreases (if self.succ_of(prev) == clean(target_node as int) {
                0nat
            } else {
                1nat
            }),
        {
            let ghost sp = self.pos_at(dl, prev);
            proof {
                if !midway {
                    self.lemma_pos_at(dl, prev);
                    self.lemma_live_succ(dl, prev);
                }
            }
            let succ_val = self.nodes[prev - 1].load_successor();
            if succ_val.ptr == target_node && succ_val.flag {
                return (prev, false);
            }
            let expected = SuccData::new(target_node);
            let new_val = SuccData::new_flagged(target_node);
            let ghost before = *self;
            match self.nodes[prev - 1].swap_successor(expected, new_val) {
                Ok(_) => {
                    proof {
                        before.lemma_stage0(0, 0, dl, sp);
                        assert(sp + 1 < before.chains@[dl].len());
                        assert(Self::restage_step(&before, self, dl, sp, sp, 0, sp, 1));
                        Self::lemma_restage(&before, self, dl, sp, sp, 0, sp, 1);
                        assert(self.chains@[dl][sp] == prev - 1);
                        assert(self.chains@[dl][sp + 1] == target_node - 1);
                        assert(before.level_ok(dl, 0, 0, 0));
                        assert(before.chains@[dl][sp] != before.chains@[dl][sp + 1]);
                        assert(self.nodes@[target_node - 1] == before.nodes@[target_node - 1]);
                        assert forall|i: int| 0 <= i < self.nodes@.len() && self.lvl@[i] != dl implies #[trigger] self.nodes@[i]
                            == old_list.nodes@[i] by {
                            assert(self.nodes@[i] == before.nodes@[i]);
                        }
                        assert forall|m: int| #[trigger] old_list.linked_below(m) implies self.linked_below(m) by {
                            assert(before.linked_below(m));
                            assert forall|i: int|
                                0 <= i < self.nodes@.len() && !self.pending(i) && self.kint(i) < m implies #[trigger] self.on_level(
                                self.lvl@[i],
                                i,
                            ) by {
                                assert(before.on_level(before.lvl@[i], i));
                            }
                        }
                        assert(old_list.live_at(dl, target_node));
                        self.lemma_deleting_words(prev, target_node, 1);
                    }
                    return (prev, true);
                },
                Err(actual) => {
                    proof {
                        assert(self.nodes@ =~= before.nodes@);
                        assert(self.same_state_as(&before));
                        self.lemma_same_state(&before);
                        assert forall|h: usize| #[trigger] self.live_at(dl, h) implies old_list.live_at(dl, h) by {
                            assert(before.live_at(dl, h));
                        }
                        assert forall|m: int| #[trigger] old_list.linked_below(m) implies self.linked_below(m) by {
                            assert(before.linked_below(m));
                        }
                    }
                    if actual.ptr == target_node && actual.flag {
                        return (prev, false);
                    }
                    #[verifier::loop_isolation(false)]
                    while self.nodes[prev - 1].load_successor().mark
                        invariant
                            self.inv(0, 0, 0),
                            0 <= dl < MAX_LEVEL,
                            self.live_at(dl, prev),
                            self.lvl@[prev - 1] == dl,
                            self.usable(prev),
                        decreases 0nat,
                    {
                        proof {
                            self.lemma_live_succ(dl, prev);
                        }
                        let bl = self.nodes[prev - 1].load_backlink();
                        if bl != 0 {
                            prev = bl;
                        } else {
                            break;
                        }
                    }
                    let target_key = self.nodes[target_node - 1].key.key_clone();
                    let ghost bs = *self;
                    let (new_prev, del_node) = self.search_from(&target_key, prev);
                    proof {
                        assert forall|h: usize| #[trigger] self.live_at(dl, h) implies old_list.live_at(dl, h) by {
                            assert(bs.live_at(dl, h));
                        }
                        assert forall|m: int| #[trigger] old_list.linked_below(m) implies self.linked_below(m) by {
                            assert(bs.linked_below(m));
                        }
                    }
                    if del_node != target_node {
                        return (0, false);
                    }
                    proof {
                        self.lemma_live_succ(dl, new_prev);
                    }
                    prev = new_prev;
                },
            }
        }
    }
}

impl<K: ListKey, V> LockFreeSkipList<K, V> {
    /// The node with handle `h`.
    pub closed spec fn node_at(&self, h: usize) -> SkipNode<K, V> {
        self.nodes@[h - 1]
    }

    /// Handle of the head of level `l`.
    pub fn head_node(&self, l: usize) -> (h: usize)
        requires
            self.inv(0, 0, 0),
            l < MAX_LEVEL,
        ensures
            h == l + 1,
            self.live_at(l as int, h),
            self.usable(h),
            self.lvl_of(h) == l,
            self.pos_at(l as int, h) == 0,
    {
        proof {
            assert(self.head_tower@[l as int] == l + 1);
            assert(self.level_ok(l as int, 0, 0, 0));
            assert(self.chains@[l as int][0] == l);
            assert(self.chains@[l as int].contains(l as int));
            self.lemma_pos_at(l as int, (l + 1) as usize);
        }
        self.head_tower[l]
    }

    /// The node of the bottom level that the entry at `h`'s tower holds, when that
    /// tower's bottom node is linked.
    proof fn lemma_root_entry(&self, h: usize)
        requires
            self.inv(0, 0, 0),
            self.usable(h),
            h > MAX_LEVEL,
            !self.succ_of(self.node_at(h).tower_root).mark,
        ensures
            has_key(self.entries(), self.key_of(h)),
            self.node_at(h).element.is_some() ==> exists|i: int|
                0 <= i < self.entries().len() && self.entries()[i] == (
                    self.node_at(h).key,
                    self.node_at(h).element.unwrap(),
                ),
    {
        assert(self.node_ok(h - 1));
        let r = self.node_at(h).tower_root;
        assert(self.node_ok(r - 1));
        self.lemma_unmarked_live(r);
        self.lemma_pos_at(0, r);
        let p = self.pos_at(0, r);
        let c0 = self.chains@[0];
        assert(self.level_ok(0, 0, 0, 0));
        assert(p != 0) by {
            if p == 0 {
                assert(c0[0] == 0);
            }
        }
        let e = self.entries();
        assert(c0.drop_first()[p - 1] == c0[p]);
        assert(e[p - 1] == (self.nodes@[r - 1].key, self.nodes@[r - 1].element.unwrap()));
        assert(e[p - 1].0.key_int() == self.key_of(h));
        if self.node_at(h).element.is_some() {
            assert(self.lvl@[h - 1] == 0);
            assert(r - 1 == h - 1);
        }
    }

    /// What the top-down search for key `k` gives, going on from the node `curr`: it
    /// moves along a level while the next key is below `k`, steps down where the next
    /// key is above `k` (or the level ends), and at a node with key `k` gives that node
    /// unless the bottom node of its tower is marked. Nodes unlinked from their level
    /// are followed through their last successor.
    pub closed spec fn search_path(&self, curr: usize, k: int) -> Option<usize>
        decreases self.lvl_of(curr), self.meas(curr - 1), curr,
        when self.inv(0, 0, 0) && self.usable(curr)
    {
        let next = self.succ_of(curr).ptr;
        proof {
            assert(self.node_ok(curr - 1));
            self.lemma_meas(curr - 1);
        }
        if next == 0 || k < self.key_of(next) {
            let down = self.node_at(curr).down;
            if down == 0 {
                None
            } else {
                self.search_path(down, k)
            }
        } else if self.key_of(next) == k {
            if self.succ_of(self.node_at(next).tower_root).mark {
                None
            } else {
                Some(next)
            }
        } else {
            proof {
                self.lemma_meas(next - 1);
            }
            self.search_path(next, k)
        }
    }

    /// The node `i`, unlinked from its level, still leads to where it stood: its last
    /// successor is linked on that level (or null), and no linked node of the level
    /// has a key between the two.
    pub closed spec fn stands_in(&self, i: int) -> bool {
        let l = self.lvl@[i];
        let p = self.nodes@[i].succ@.ptr as int;
        let c = self.chains@[l];
        &&& i >= MAX_LEVEL
        &&& (p == 0 || self.on_level(l, p - 1))
        &&& forall|j: int|
            1 <= j < c.len() && self.kint(i) < self.kint(#[trigger] c[j]) ==> p != 0 && self.kint(p - 1)
                <= self.kint(c[j])
    }

    /// A search can go on from node `i`: it is linked on its level, or it stands in
    /// for where it was.
    pub closed spec fn walkable(&self, i: int) -> bool {
        self.on_level(self.lvl@[i], i) || self.stands_in(i)
    }

    /// The search for key `k` from the top head meets no node of a deleted tower that
    /// misleads it: every node with a key below `k` that it can step down from leads to
    /// a lower node it can go on from, and every linked node with key `k` belongs to a
    /// tower whose bottom node is linked.
    pub closed spec fn search_clear(&self, k: int) -> bool {
        &&& forall|i: int|
            0 <= i < self.nodes@.len() && !self.pending(i) && self.kint(i) < k && self.lvl@[i] > 0
                && #[trigger] self.walkable(i) ==> self.walkable(self.nodes@[i].down - 1)
        &&& forall|i: int|
            0 <= i < self.nodes@.len() && !self.pending(i) && self.kint(i) == k
                && #[trigger] self.on_level(self.lvl@[i], i) ==> self.on_level(
                0,
                self.nodes@[i].tower_root - 1,
            )
    }

    /// A skip list linked below `k + 1` is clear for the search of `k`.
    pub proof fn lemma_linked_search_clear(&self, k: int)
        requires
            self.inv(0, 0, 0),
            self.linked_below(k + 1),
        ensures
            self.search_clear(k),
    {
        assert forall|i: int|
            0 <= i < self.nodes@.len() && !self.pending(i) && self.kint(i) < k && self.lvl@[i] > 0
                && #[trigger] self.walkable(i) implies self.walkable(self.nodes@[i].down - 1) by {
            assert(self.node_ok(i));
            let d = self.nodes@[i].down - 1;
            if i < MAX_LEVEL {
                assert(self.level_ok(self.lvl@[i] - 1, 0, 0, 0));
                assert(self.chains@[self.lvl@[i] - 1][0] == d);
            } else {
                assert(self.kint(d) < k + 1);
            }
            assert(self.on_level(self.lvl@[d], d));
        }
        assert forall|i: int|
            0 <= i < self.nodes@.len() && !self.pending(i) && self.kint(i) == k
                && #[trigger] self.on_level(self.lvl@[i], i) implies self.on_level(
            0,
            self.nodes@[i].tower_root - 1,
        ) by {
            assert(self.node_ok(i));
            let r = self.nodes@[i].tower_root - 1;
            if i < MAX_LEVEL {
                assert(self.level_ok(0, 0, 0, 0));
                assert(self.chains@[0][0] == 0);
            } else {
                assert(self.kint(r) < k + 1);
            }
        }
    }

    /// A skip list whose nodes are all linked but `t`, which stands in for its old
    /// place, is clear for the search of every key but `t`'s.
    proof fn lemma_one_unlinked_search_clear(&self, t: int, m: int)
        requires
            self.inv(0, 0, 0),
            0 <= t < self.nodes@.len(),
            self.stands_in(t),
            self.kint(t) != m,
            forall|x: int|
                0 <= x < self.nodes@.len() && !self.pending(x) && x != t ==> #[trigger] self.on_level(
                    self.lvl@[x],
                    x,
                ),
        ensures
            self.search_clear(m),
    {
        assert forall|i: int|
            0 <= i < self.nodes@.len() && !self.pending(i) && self.kint(i) < m && self.lvl@[i] > 0
                && #[trigger] self.walkable(i) implies self.walkable(self.nodes@[i].down - 1) by {
            assert(self.node_ok(i));
            let d = self.nodes@[i].down - 1;
            if d != t {
                assert(self.on_level(self.lvl@[d], d));
            }
        }
        assert forall|i: int|
            0 <= i < self.nodes@.len() && !self.pending(i) && self.kint(i) == m
                && #[trigger] self.on_level(self.lvl@[i], i) implies self.on_level(
            0,
            self.nodes@[i].tower_root - 1,
        ) by {
            assert(self.node_ok(i));
            let r = self.nodes@[i].tower_root - 1;
            if i >= MAX_LEVEL {
                assert(self.kint(r) == m);
            }
            assert(r != t);
            assert(self.on_level(self.lvl@[r], r));
        }
    }

    /// A skip list whose nodes are all linked but the bottom node `t` of a tower keeps
    /// every tower whole for every key but `t`'s.
    proof fn lemma_one_unlinked_towers_whole(&self, t: int, m: int)
        requires
            self.inv(0, 0, 0),
            MAX_LEVEL <= t < self.nodes@.len(),
            self.lvl@[t] == 0,
            self.kint(t) != m,
            forall|x: int|
                0 <= x < self.nodes@.len() && !self.pending(x) && x != t ==> #[trigger] self.on_level(
                    self.lvl@[x],
                    x,
                ),
        ensures
            self.towers_whole(m),
    {
        assert forall|i: int|
            0 <= i < self.nodes@.len() && !self.pending(i) && self.kint(i) < m && self.on_level(
                0,
                self.nodes@[i].tower_root - 1,
            ) implies #[trigger] self.on_level(self.lvl@[i], i) by {
            if i == t {
                assert(self.node_ok(t));
            }
        }
        assert forall|i: int|
            0 <= i < self.nodes@.len() && !self.pending(i) && self.kint(i) == m
                && #[trigger] self.on_level(self.lvl@[i], i) implies self.on_level(
            0,
            self.nodes@[i].tower_root - 1,
        ) by {
            assert(self.node_ok(i));
            let r = self.nodes@[i].tower_root - 1;
            if i >= MAX_LEVEL {
                assert(self.kint(r) == m);
            }
            assert(r != t);
            assert(self.on_level(self.lvl@[r], r));
        }
    }

    /// Unlinking the bottom node `t` of a tower from a skip list with every node linked,
    /// and changing no other level, leaves every other node linked and `t` standing in
    /// for its old place.
    proof fn lemma_unlinked_bottom(old_list: &Self, new_list: &Self, t: int)
        requires
            old_list.wf(),
            old_list.all_linked(),
            new_list.wf(),
            MAX_LEVEL <= t < old_list.nodes@.len(),
            old_list.on_level(0, t),
            new_list.same_shape(old_list),
            forall|l: int| 1 <= l < MAX_LEVEL ==> #[trigger] new_list.chains@[l] == old_list.chains@[l],
            forall|h: usize| #[trigger] old_list.live_at(0, h) && h != t + 1 ==> new_list.live_at(0, h),
            forall|h: usize| #[trigger] new_list.live_at(0, h) ==> old_list.live_at(0, h),
            new_list.succ_of((t + 1) as usize).ptr == old_list.succ_of((t + 1) as usize).ptr,
        ensures
            new_list.stands_in(t),
            forall|x: int|
                0 <= x < new_list.nodes@.len() && !new_list.pending(x) && x != t ==> #[trigger] new_list.on_level(
                    new_list.lvl@[x],
                    x,
                ),
    {
        let th = (t + 1) as usize;
        assert(old_list.node_ok(t));
        old_list.lemma_pos_at(0, th);
        assert(old_list.lvl@[t] == 0);
        assert(new_list.lvl@[t] == 0);
        old_list.lemma_live_succ(0, th);
        let a = old_list.pos_at(0, th);
        let c = old_list.chains@[0];
        assert(old_list.level_ok(0, 0, 0, 0));
        assert(a >= 1) by {
            if a == 0 {
                assert(c[0] == 0);
            }
        }
        let p = new_list.succ_of(th).ptr;
        if p != 0 {
            assert(old_list.live_at(0, p));
            assert(p != th) by {
                old_list.lemma_pos_at(0, p);
            }
            assert(new_list.live_at(0, p));
        }
        let c2 = new_list.chains@[0];
        assert(new_list.level_ok(0, 0, 0, 0));
        assert forall|j: int|
            1 <= j < c2.len() && new_list.kint(t) < new_list.kint(#[trigger] c2[j]) implies p != 0
                && new_list.kint(p - 1) <= new_list.kint(c2[j]) by {
            let x = c2[j];
            let xh = (x + 1) as usize;
            assert(new_list.live_at(0, xh));
            assert(old_list.live_at(0, xh));
            old_list.lemma_pos_at(0, xh);
            let b = old_list.pos_at(0, xh);
            assert(x != 0) by {
                assert(c2[0] == 0);
                assert(c2.no_duplicates());
            }
            assert(b >= 1) by {
                if b == 0 {
                    assert(c[0] == 0);
                }
            }
            assert(new_list.nodes@[x].key == old_list.nodes@[x].key);
            assert(new_list.nodes@[t].key == old_list.nodes@[t].key);
            if b <= a {
                old_list.lemma_level_sorted(0, b, a);
            }
            assert(b >= a + 1);
            assert(p == c[a + 1] + 1);
            old_list.lemma_level_sorted(0, a + 1, b);
            assert(new_list.nodes@[c[a + 1]].key == old_list.nodes@[c[a + 1]].key);
        }
        assert forall|x: int|
            0 <= x < new_list.nodes@.len() && !new_list.pending(x) && x != t implies #[trigger] new_list.on_level(
            new_list.lvl@[x],
            x,
        ) by {
            assert(old_list.on_level(old_list.lvl@[x], x));
            let l = old_list.lvl@[x];
            assert(old_list.node_ok(x));
            if l != 0 {
                assert(new_list.chains@[l] == old_list.chains@[l]);
            } else {
                assert(old_list.live_at(0, (x + 1) as usize));
                assert(new_list.live_at(0, (x + 1) as usize));
            }
        }
    }

    /// A search that stops on a level at a node standing in for its old place, below
    /// `k`, with a successor that is null or above `k`, misses no node of key `k` on
    /// that level.
    proof fn lemma_stand_in_misses(&self, u: usize, k: int)
        requires
            self.inv(0, 0, 0),
            1 <= u <= self.nodes@.len(),
            self.stands_in(u - 1),
            self.kint(u - 1) < k,
            self.succ_of(u).ptr == 0 || k < self.key_of(self.succ_of(u).ptr),
        ensures
            forall|j: int|
                1 <= j < self.chains@[self.lvl@[u - 1]].len() ==> self.kint(
                    #[trigger] self.chains@[self.lvl@[u - 1]][j],
                ) != k,
    {
        let l = self.lvl@[u - 1];
        let c = self.chains@[l];
        assert forall|j: int| 1 <= j < c.len() implies self.kint(#[trigger] c[j]) != k by {
            if self.kint(u - 1) < self.kint(c[j]) {
                assert(self.succ_of(u).ptr != 0);
            }
        }
    }

    /// Searches the levels from the top down for a node with `key` (as `search_path`
    /// describes); gives it when its tower is not deleted.
    pub fn search_node(&self, key: &K) -> (r: Option<usize>)
        requires
            self.inv(0, 0, 0),
        ensures
            r == self.search_path(MAX_LEVEL, key.key_int()),
            r.is_some() ==> {
                let h = r.unwrap();
                &&& self.usable(h)
                &&& h > MAX_LEVEL
                &&& self.key_of(h) == key.key_int()
                &&& has_key(self.entries(), key.key_int())
                &&& self.node_at(h).element.is_some() ==> exists|i: int|
                    0 <= i < self.entries().len() && self.entries()[i] == (
                        self.node_at(h).key,
                        self.node_at(h).element.unwrap(),
                    )
            },
            r.is_some() ==> (self.node_at(r.unwrap()).element.is_some() <==> self.lvl_of(r.unwrap()) == 0),
            self.search_clear(key.key_int()) ==> (r.is_some() == has_key(self.entries(), key.key_int())),
            self.search_clear(key.key_int()) && r.is_some() ==> (self.lvl_of(r.unwrap()) == 0 <==> !self.upper_key(
                key.key_int(),
            )),
    {
        let ghost k = key.key_int();
        proof {
            assert(self.head_tower@[MAX_LEVEL - 1] == MAX_LEVEL);
            assert(self.node_ok(MAX_LEVEL - 1));
            assert(self.level_ok(MAX_LEVEL - 1, 0, 0, 0));
            assert(self.chains@[MAX_LEVEL - 1][0] == MAX_LEVEL - 1);
            assert(self.on_level(MAX_LEVEL - 1, MAX_LEVEL - 1));
        }
        let mut curr_node = self.head_tower[MAX_LEVEL - 1];
        loop
            invariant
                self.inv(0, 0, 0),
                self.usable(curr_node),
                k == key.key_int(),
                self.search_path(curr_node, k) == self.search_path(MAX_LEVEL, k),
                curr_node - 1 < MAX_LEVEL || self.kint(curr_node - 1) < k,
                self.search_clear(k) ==> self.walkable(curr_node - 1),
                self.search_clear(k) ==> forall|l: int, j: int|
                    self.lvl@[curr_node - 1] < l < MAX_LEVEL && 1 <= j < self.chains@[l].len()
                        ==> self.kint(#[trigger] self.chains@[l][j]) != k,
            decreases self.lvl@[curr_node - 1], self.meas(curr_node - 1), curr_node,
        {
            proof {
                assert(self.node_ok(curr_node - 1));
            }
            let next_node = self.nodes[curr_node - 1].load_successor().ptr;
            if next_node == 0 || key.key_lt(&self.nodes[next_node - 1].key) {
                let down = self.nodes[curr_node - 1].down;
                let ghost lv = self.lvl@[curr_node - 1];
                proof {
                    if down != 0 {
                        assert(self.lvl@[curr_node - 1] > 0);
                        assert(self.lvl@[down - 1] == lv - 1);
                        assert(down - 1 < MAX_LEVEL || self.kint(down - 1) < k);
                    }
                    if self.search_clear(k) {
                        if self.on_level(lv, curr_node - 1) {
                            self.lemma_level_misses(curr_node, k);
                        } else {
                            self.lemma_stand_in_misses(curr_node, k);
                        }
                        assert(forall|j: int| 1 <= j < self.chains@[lv].len() ==> self.kint(
                            #[trigger] self.chains@[lv][j]) != k);
                        if down != 0 {
                            assert(self.node_ok(down - 1));
                            if curr_node - 1 < MAX_LEVEL {
                                assert(self.level_ok(lv - 1, 0, 0, 0));
                                assert(self.chains@[lv - 1][0] == lv - 1);
                                assert(self.on_level(lv - 1, down - 1));
                            } else {
                                assert(self.walkable(curr_node - 1));
                            }
                            assert(self.walkable(down - 1));
                        }
                    }
                }
                curr_node = down;
                if curr_node == 0 {
                    proof {
                        if self.search_clear(k) {
                            assert(lv == 0);
                            let e = self.entries();
                            let c = self.chains@[0];
                            assert(self.level_ok(0, 0, 0, 0));
                            assert forall|i: int| 0 <= i < e.len() implies (#[trigger] e[i]).0.key_int() != k by {
                                assert(c.drop_first()[i] == c[i + 1]);
                                assert(self.kint(c[i + 1]) != k);
                            }
                        }
                    }
                    return None;
                }
            } else if self.nodes[next_node - 1].key.key_eq(key) {
                proof {
                    assert(self.node_ok(next_node - 1));
                }
                let root_node = self.nodes[next_node - 1].tower_root;
                if self.nodes[root_node - 1].load_successor().mark {
                    proof {
                        if self.search_clear(k) {
                            let lv = self.lvl@[curr_node - 1];
                            if self.on_level(lv, curr_node - 1) {
                                self.lemma_live_succ(lv, curr_node);
                            }
                            assert(self.on_level(lv, next_node - 1));
                            assert(self.node_ok(root_node - 1));
                            assert(self.on_level(0, root_node - 1));
                            self.lemma_live_succ(0, root_node);
                        }
                    }
                    return None;
                } else {
                    proof {
                        self.lemma_root_entry(next_node);
                        let lv = self.lvl@[curr_node - 1];
                        if self.search_clear(k) {
                            if self.on_level(lv, curr_node - 1) {
                                self.lemma_live_succ(lv, curr_node);
                            }
                            assert(self.node_ok(curr_node - 1));
                            assert(self.on_level(lv, next_node - 1));
                            self.lemma_pos_at(lv, next_node);
                            let j = self.pos_at(lv, next_node);
                            assert(self.level_ok(lv, 0, 0, 0));
                            assert(self.chains@[lv][0] == lv);
                            assert(next_node - 1 >= MAX_LEVEL);
                            assert(j >= 1);
                            if lv > 0 {
                                assert(self.kint(self.chains@[lv][j]) == k);
                                assert(self.upper_key(k));
                            } else {
                                assert(!self.upper_key(k));
                            }
                        }
                    }
                    return Some(next_node);
                }
            } else {
                proof {
                    self.lemma_meas(curr_node - 1);
                    self.lemma_meas(next_node - 1);
                    assert(self.node_ok(next_node - 1));
                    if self.search_clear(k) {
                        let lv = self.lvl@[curr_node - 1];
                        if self.on_level(lv, curr_node - 1) {
                            self.lemma_live_succ(lv, curr_node);
                        }
                        assert(self.node_ok(curr_node - 1));
                        assert(self.on_level(lv, next_node - 1));
                        assert(self.walkable(next_node - 1));
                    }
                }
                curr_node = next_node;
            }
        }
    }

    /// When no node of the bottom level has key `k`, no entry has it.
    proof fn lemma_absent0(&self, k: int)
        requires
            self.inv(0, 0, 0),
            forall|j: int| 1 <= j < self.chains@[0].len() ==> self.kint(#[trigger] self.chains@[0][j]) != k,
        ensures
            !has_key(self.entries(), k),
    {
        let e = self.entries();
        let c = self.chains@[0];
        assert(self.level_ok(0, 0, 0, 0));
        assert forall|i: int| 0 <= i < e.len() implies (#[trigger] e[i]).0.key_int() != k by {
            assert(c.drop_first()[i] == c[i + 1]);
            assert(self.kint(c[i + 1]) != k);
        }
    }

    /// A search that stops on a level at `curr`, below `k` (or at the head), with a
    /// successor that is null or above `k`, misses no node of key `k` on that level.
    proof fn lemma_level_misses(&self, curr: usize, k: int)
        requires
            self.inv(0, 0, 0),
            self.usable(curr),
            self.live_at(self.lvl@[curr - 1], curr),
            curr - 1 < MAX_LEVEL || self.kint(curr - 1) < k,
            self.succ_of(curr).ptr == 0 || k < self.key_of(self.succ_of(curr).ptr),
        ensures
            forall|j: int|
                1 <= j < self.chains@[self.lvl@[curr - 1]].len() ==> self.kint(
                    #[trigger] self.chains@[self.lvl@[curr - 1]][j],
                ) != k,
    {
        let l = self.lvl@[curr - 1];
        assert(self.node_ok(curr - 1));
        self.lemma_live_succ(l, curr);
        self.lemma_pos_at(l, curr);
        let c = self.chains@[l];
        let p = self.pos_at(l, curr);
        assert(self.level_ok(l, 0, 0, 0));
        assert forall|j: int| 1 <= j < c.len() implies self.kint(#[trigger] c[j]) != k by {
            if j <= p {
                self.lemma_level_sorted(l, j, p);
            } else {
                assert(p + 1 < c.len());
                assert(self.succ_of(curr).ptr == c[p + 1] + 1);
                self.lemma_level_sorted(l, p + 1, j);
            }
        }
    }
}

impl<K: ListKey, V> LockFreeSkipList<K, V> {
    /// The nodes from index `n` on are a tower of height `top + 1` just built for
    /// `key`, listed in `tower`, and none of them is linked yet.
    pub closed spec fn fresh_tower(&self, tower: Seq<usize>, n: int, top: int, key: K) -> bool {
        &&& MAX_LEVEL <= n
        &&& 0 <= top < MAX_LEVEL
        &&& self.nodes@.len() == n + top + 1
        &&& tower.len() == MAX_LEVEL
        &&& forall|l: int| 0 <= l <= top ==> #[trigger] tower[l] == n + l + 1
        &&& forall|l: int| top < l < MAX_LEVEL ==> #[trigger] tower[l] == 0
        &&& forall|i: int| #[trigger] self.pending(i) <==> n <= i < n + top + 1
        &&& forall|l: int|
            0 <= l <= top ==> {
                &&& self.lvl@[n + l] == l
                &&& (#[trigger] self.nodes@[n + l]).key == key
                &&& self.nodes@[n + l].tower_root == n + 1
                &&& self.nodes@[n + l].down == (if l == 0 {
                    0
                } else {
                    n + l
                })
            }
    }

    /// Allocates, unlinked, a tower of `top_level + 1` nodes for `key`: the bottom one
    /// holds `value`; gives the tower's handles from the bottom up (0 above the top).
    #[verifier::spinoff_prover]
    fn build_tower(&mut self, key: K, value: V, top_level: usize) -> (tower: Vec<usize>)
        requires
            old(self).wf(),
            top_level < MAX_LEVEL,
            old(self).nodes@.len() + MAX_LEVEL <= MAX_PTR,
        ensures
            final(self).inv(0, 0, 0),
            final(self).fresh_tower(tower@, old(self).nodes@.len() as int, top_level as int, key),
            forall|l: int|
                0 <= l <= top_level ==> (#[trigger] final(self).nodes@[old(self).nodes@.len() + l]).succ@
                    == clean(0) && final(self).nodes@[old(self).nodes@.len() + l].backlink == 0,
            forall|l: int|
                0 < l <= top_level ==> (#[trigger] final(self).nodes@[old(self).nodes@.len() + l]).element
                    == None::<V>,
            forall|i: int| 0 <= i < old(self).nodes@.len() ==> #[trigger] final(self).nodes@[i] == old(self).nodes@[i],
            final(self).nodes@[old(self).nodes@.len() as int].element == Some(value),
            final(self).chains@ == old(self).chains@,
            final(self).lvl@.subrange(0, old(self).nodes@.len() as int) == old(self).lvl@,
            final(self).head_tower@ == old(self).head_tower@,
            final(self).trash@ == old(self).trash@,
            final(self).entries() == old(self).entries(),
            old(self).all_linked() ==> final(self).all_linked(),
            forall|m: int| #[trigger] old(self).linked_below(m) ==> final(self).linked_below(m),
    {
        let ghost old_list = *self;
        let n = self.nodes.len();
        let mut tower: Vec<usize> = Vec::new();
        let mut j: usize = 0;
        while j < MAX_LEVEL
            invariant
                j <= MAX_LEVEL,
                tower@.len() == j,
                forall|l: int| 0 <= l < j ==> #[trigger] tower@[l] == 0,
            decreases MAX_LEVEL - j,
        {
            tower.push(0);
            j = j + 1;
        }
        let root = SkipNode {
            key: key.key_clone(),
            element: Some(value),
            down: 0,
            tower_root: n + 1,
            backlink: 0,
            succ: AtomicSucc::default(),
        };
        self.nodes.push(root);
        tower.set(0, n + 1);
        let mut i: usize = 0;
        while i < top_level
            invariant
                old_list == *old(self),
                n == old_list.nodes@.len(),
                n + MAX_LEVEL <= MAX_PTR,
                top_level < MAX_LEVEL,
                i <= top_level,
                self.nodes@.len() == n + i + 1,
                forall|x: int| 0 <= x < n ==> #[trigger] self.nodes@[x] == old_list.nodes@[x],
                tower@.len() == MAX_LEVEL,
                forall|l: int| 0 <= l <= i ==> #[trigger] tower@[l] == n + l + 1,
                forall|l: int| i < l < MAX_LEVEL ==> #[trigger] tower@[l] == 0,
                forall|l: int|
                    0 <= l <= i ==> {
                        &&& (#[trigger] self.nodes@[n + l]).key == key
                        &&& self.nodes@[n + l].tower_root == n + 1
                        &&& self.nodes@[n + l].down == (if l == 0 {
                            0
                        } else {
                            n + l
                        })
                        &&& self.nodes@[n + l].succ@ == clean(0)
                        &&& self.nodes@[n + l].backlink == 0
                        &&& self.nodes@[n + l].element == (if l == 0 {
                            Some(value)
                        } else {
                            None
                        })
                    },
                self.chains == old_list.chains,
                self.lvl == old_list.lvl,
                self.pend == old_list.pend,
                self.head_tower == old_list.head_tower,
                self.trash == old_list.trash,
            decreases top_level - i,
        {
            let node = SkipNode {
                key: key.key_clone(),
                element: None,
                down: tower[i],
                tower_root: n + 1,
                backlink: 0,
                succ: AtomicSucc::default(),
            };
            self.nodes.push(node);
            tower.set(i + 1, n + i + 2);
            i = i + 1;
        }
        proof {
            let top = top_level as int;
            assert(self.nodes@[n + 0].key == key);
            assert(self.nodes@[n + 0].element == Some(value));
            self.lvl = Ghost(old_list.lvl@ + Seq::new((top + 1) as nat, |l: int| l));
            self.pend = Ghost(Set::new(|x: int| n <= x < n + top + 1));
            assert(self.lvl@.subrange(0, n as int) =~= old_list.lvl@);
            assert forall|x: int| 0 <= x < n implies self.lvl@[x] == old_list.lvl@[x] && !self.pending(x) by {}
            assert forall|l: int| 0 <= l <= top implies #[trigger] self.lvl@[n + l] == l by {}
            assert forall|x: int| 0 <= x < self.nodes@.len() implies #[trigger] self.node_ok(x) by {
                if x < n {
                    assert(old_list.node_ok(x));
                    let nd = old_list.nodes@[x];
                    let pp = nd.succ@.ptr as int;
                    let d = nd.down as int;
                    let r = nd.tower_root as int;
                    if 1 <= pp <= n {
                        assert(self.kint(pp - 1) == old_list.kint(pp - 1));
                    }
                    if 1 <= d <= n {
                        assert(self.nodes@[d - 1] == old_list.nodes@[d - 1]);
                    }
                    if 1 <= r <= n {
                        assert(self.nodes@[r - 1] == old_list.nodes@[r - 1]);
                    }
                } else {
                    let l = x - n;
                    assert(self.nodes@[n + l].key == key);
                    assert(self.nodes@[n as int].key == key);
                    if l > 0 {
                        assert(self.nodes@[n + l - 1].key == key);
                        assert(self.nodes@[n + (l - 1)].tower_root == n + 1);
                    }
                }
            }
            assert forall|l: int| 0 <= l < MAX_LEVEL implies #[trigger] self.level_ok(l, 0, 0, 0) by {
                assert(old_list.level_ok(l, 0, 0, 0));
                let c = self.chains@[l];
                assert forall|jj: int| 0 <= jj < c.len() implies (#[trigger] self.nodes@[c[jj]]).succ@
                    == stage_succ(c, jj, 0, 0) by {
                    assert(self.nodes@[c[jj]] == old_list.nodes@[c[jj]]);
                }
            }
            assert forall|x: int|
                0 <= x < self.nodes@.len() && !self.pending(x) && !self.on_level(self.lvl@[x], x) implies #[trigger] self.dead_ok(x) by {
                assert(old_list.dead_ok(x));
            }
            let c0 = self.chains@[0];
            assert(old_list.level_ok(0, 0, 0, 0));
            assert forall|a: int, b: int| 1 <= a < b < c0.len() implies self.kint(#[trigger] c0[a])
                < self.kint(#[trigger] c0[b]) by {
                assert(old_list.kint(c0[a]) < old_list.kint(c0[b]));
            }
            assert(self.entries() =~= old_list.entries()) by {
                assert forall|jj: int| 0 <= jj < self.entries().len() implies self.entries()[jj]
                    == old_list.entries()[jj] by {
                    assert(c0.drop_first()[jj] == c0[jj + 1]);
                }
            }
            if old_list.all_linked() {
                assert forall|x: int| 0 <= x < self.nodes@.len() && !self.pending(x) implies #[trigger] self.on_level(
                    self.lvl@[x],
                    x,
                ) by {
                    assert(old_list.on_level(old_list.lvl@[x], x));
                }
            }
            assert forall|m: int| #[trigger] old_list.linked_below(m) implies self.linked_below(m) by {
                assert forall|x: int|
                    0 <= x < self.nodes@.len() && !self.pending(x) && self.kint(x) < m implies #[trigger] self.on_level(
                    self.lvl@[x],
                    x,
                ) by {
                    assert(old_list.kint(x) == self.kint(x));
                    assert(old_list.on_level(old_list.lvl@[x], x));
                }
            }
        }
        tower
    }

    /// Frees a tower that was built and never linked.
    pub fn prune_tower(&mut self, tower: Vec<usize>)
        requires
            old(self).inv(0, 0, 0),
            exists|n: int, top: int, key: K| old(self).fresh_tower(tower@, n, top, key),
        ensures
            final(self).wf(),
            final(self).entries() == old(self).entries(),
            final(self).garbage() == old(self).garbage(),
            final(self).nodes_prefix_of(old(self)),
            forall|n: int, top: int, key: K|
                old(self).fresh_tower(tower@, n, top, key) ==> final(self).node_count() == n,
            old(self).all_linked() ==> final(self).all_linked(),
            forall|m: int| #[trigger] old(self).linked_below(m) ==> final(self).linked_below(m),
    {
        let ghost w = choose|n: int, top: int, key: K| self.fresh_tower(tower@, n, top, key);
        let ghost n = w.0;
        let ghost top = w.1;
        let ghost old_list = *self;
        proof {
            assert forall|n2: int, top2: int, key2: K| old_list.fresh_tower(tower@, n2, top2, key2) implies n2 == n by {
                assert(tower@[0] == n2 + 1);
                assert(tower@[0] == n + 1);
            }
        }
        let mut i: usize = 0;
        while i < MAX_LEVEL
            invariant
                old_list == *old(self),
                old_list.fresh_tower(tower@, n, top, w.2),
                i <= top + 1,
                self.nodes@.len() == n + top + 1 - i,
                forall|x: int| 0 <= x < self.nodes@.len() ==> #[trigger] self.nodes@[x] == old_list.nodes@[x],
                self.chains == old_list.chains,
                self.lvl == old_list.lvl,
                self.pend == old_list.pend,
                self.head_tower == old_list.head_tower,
                self.trash == old_list.trash,
            ensures
                self.nodes@.len() == n,
                forall|x: int| 0 <= x < self.nodes@.len() ==> #[trigger] self.nodes@[x] == old_list.nodes@[x],
                self.chains == old_list.chains,
                self.lvl == old_list.lvl,
                self.pend == old_list.pend,
                self.head_tower == old_list.head_tower,
                self.trash == old_list.trash,
            decreases MAX_LEVEL - i,
        {
            if tower[i] == 0 {
                break;
            }
            self.nodes.pop();
            i = i + 1;
        }
        proof {
            self.lvl = Ghost(old_list.lvl@.subrange(0, n));
            self.pend = Ghost(Set::empty());
            assert forall|x: int| 0 <= x < n implies !old_list.pending(x) by {}
            assert forall|x: int| 0 <= x < n implies #[trigger] self.node_ok(x) by {
                assert(old_list.node_ok(x));
                let nd = old_list.nodes@[x];
                let pp = nd.succ@.ptr as int;
                let d = nd.down as int;
                let r = nd.tower_root as int;
                if pp != 0 {
                    assert(!old_list.pending(pp - 1));
                    assert(self.kint(pp - 1) == old_list.kint(pp - 1));
                }
                if old_list.lvl@[x] > 0 {
                    assert(!old_list.pending(d - 1));
                    assert(self.nodes@[d - 1] == old_list.nodes@[d - 1]);
                }
                assert(!old_list.pending(r - 1));
                assert(self.nodes@[r - 1] == old_list.nodes@[r - 1]);
            }
            assert forall|l: int| 0 <= l < MAX_LEVEL implies #[trigger] self.level_ok(l, 0, 0, 0) by {
                assert(old_list.level_ok(l, 0, 0, 0));
                let c = self.chains@[l];
                assert forall|jj: int| 0 <= jj < c.len() implies 0 <= #[trigger] c[jj] < self.nodes@.len()
                    && self.lvl@[c[jj]] == l && !self.pending(c[jj]) by {
                    assert(!old_list.pending(c[jj]));
                }
                assert forall|jj: int| 0 <= jj < c.len() implies (#[trigger] self.nodes@[c[jj]]).succ@
                    == stage_succ(c, jj, 0, 0) by {
                    assert(!old_list.pending(c[jj]));
                    assert(self.nodes@[c[jj]] == old_list.nodes@[c[jj]]);
                }
            }
            assert forall|x: int|
                0 <= x < self.nodes@.len() && !self.pending(x) && !self.on_level(self.lvl@[x], x) implies #[trigger] self.dead_ok(x) by {
                assert(old_list.dead_ok(x));
            }
            let c0 = self.chains@[0];
            assert(old_list.level_ok(0, 0, 0, 0));
            assert forall|a: int, b: int| 1 <= a < b < c0.len() implies self.kint(#[trigger] c0[a])
                < self.kint(#[trigger] c0[b]) by {
                assert(!old_list.pending(c0[a]));
                assert(!old_list.pending(c0[b]));
                assert(old_list.kint(c0[a]) < old_list.kint(c0[b]));
            }
            assert(self.entries() =~= old_list.entries()) by {
                assert forall|jj: int| 0 <= jj < self.entries().len() implies self.entries()[jj]
                    == old_list.entries()[jj] by {
                    assert(c0.drop_first()[jj] == c0[jj + 1]);
                    assert(!old_list.pending(c0[jj + 1]));
                }
            }
            if old_list.all_linked() {
                assert forall|x: int| 0 <= x < self.nodes@.len() && !self.pending(x) implies #[trigger] self.on_level(
                    self.lvl@[x],
                    x,
                ) by {
                    assert(old_list.on_level(old_list.lvl@[x], x));
                }
            }
            assert forall|m: int| #[trigger] old_list.linked_below(m) implies self.linked_below(m) by {
                assert forall|x: int|
                    0 <= x < self.nodes@.len() && !self.pending(x) && self.kint(x) < m implies #[trigger] self.on_level(
                    self.lvl@[x],
                    x,
                ) by {
                    assert(old_list.kint(x) == self.kint(x));
                    assert(old_list.on_level(old_list.lvl@[x], x));
                }
            }
        }
    }
}

impl<K: ListKey, V> LockFreeSkipList<K, V> {
    /// What a search of the bottom level from a linked node tells, as for the linked
    /// list.
    proof fn lemma_search_result0(&self, prev: usize, next: usize, k: int)
        requires
            self.inv(0, 0, 0),
            self.live_at(0, prev),
            next == self.succ_of(prev).ptr,
            prev == 1 || (prev > MAX_LEVEL && self.key_of(prev) < k),
            next == 0 || self.key_of(next) >= k,
        ensures
            0 <= self.pos_at(0, prev) <= self.entries().len(),
            forall|j: int| 0 <= j < self.pos_at(0, prev) ==> (#[trigger] self.entries()[j]).0.key_int() < k,
            forall|j: int|
                self.pos_at(0, prev) <= j < self.entries().len() ==> (#[trigger] self.entries()[j]).0.key_int() >= k,
            has_key(self.entries(), k) <==> (next != 0 && self.key_of(next) == k),
            next != 0 ==> self.pos_at(0, prev) < self.entries().len() && self.live_at(0, next)
                && self.pos_at(0, next) == self.pos_at(0, prev) + 1 && next > MAX_LEVEL
                && self.entries()[self.pos_at(0, prev)] == (
                self.node_at(next).key,
                self.node_at(next).element.unwrap(),
            ),
            next == 0 ==> self.pos_at(0, prev) == self.entries().len(),
            self.pos_at(0, prev) == 0 <==> prev == 1,
    {
        self.lemma_pos_at(0, prev);
        self.lemma_live_succ(0, prev);
        assert(self.level_ok(0, 0, 0, 0));
        let p = self.pos_at(0, prev);
        let c = self.chains@[0];
        let e = self.entries();
        assert(e.len() == c.len() - 1);
        assert forall|j: int| 0 <= j < e.len() implies (#[trigger] e[j]).0.key_int() == self.kint(c[j + 1]) by {
            assert(c.drop_first()[j] == c[j + 1]);
        }
        if p == 0 {
            assert(prev == 1);
        } else {
            assert(prev != 1) by {
                assert(c[0] == 0);
                assert(c[p] != c[0]);
            }
            assert(self.node_ok(prev - 1));
        }
        assert forall|j: int| 0 <= j < p implies (#[trigger] e[j]).0.key_int() < k by {
            if j + 1 < p {
                assert(self.kint(c[j + 1]) < self.kint(c[p]));
            }
        }
        if next != 0 {
            assert(p + 1 < c.len());
            assert(next - 1 == c[p + 1]);
            assert(c[p + 1] != c[0]);
            assert(self.node_ok(next - 1));
            assert(c[p + 1] >= MAX_LEVEL) by {
                if c[p + 1] < MAX_LEVEL {
                    assert(self.lvl@[c[p + 1]] == c[p + 1]);
                    assert(c[p + 1] == 0);
                }
            }
            assert(e[p] == (self.node_at(next).key, self.node_at(next).element.unwrap())) by {
                assert(c.drop_first()[p] == c[p + 1]);
            }
        }
        assert forall|j: int| p <= j < e.len() implies (#[trigger] e[j]).0.key_int() >= k by {
            assert(p + 1 < c.len());
            if j > p {
                assert(self.kint(c[p + 1]) < self.kint(c[j + 1]));
            }
        }
        if has_key(e, k) {
            let j = choose|j: int| 0 <= j < e.len() && (#[trigger] e[j]).0.key_int() == k;
            assert(j >= p);
            if j > p {
                assert(self.kint(c[p + 1]) < self.kint(c[j + 1]));
            }
        }
        if next != 0 && self.key_of(next) == k {
            assert(e[p].0.key_int() == k);
        }
    }
}

/// The height of the tower (top level) that a seed gives: its number of trailing
/// zero bits, at most `MAX_LEVEL - 1`.
pub open spec fn top_level_of(seed: usize) -> int {
    let tz = (seed as u64).trailing_zeros() as int;
    if tz < MAX_LEVEL - 1 {
        tz
    } else {
        MAX_LEVEL - 1
    }
}

impl<K: ListKey, V> LockFreeSkipList<K, V> {
    /// Inserts `key` with `value` under a tower of `top_level_of(seed) + 1` levels;
    /// gives whether it was inserted (false when the key is already present).
    #[verifier::spinoff_prover]
    #[verifier::rlimit(60)]
    pub fn insert_seeded(&mut self, key: K, value: V, seed: usize) -> (inserted: bool)
        requires
            old(self).wf(),
            old(self).node_count() + MAX_LEVEL <= MAX_PTR,
        ensures
            final(self).wf(),
            inserted == !has_key(old(self).entries(), key.key_int()),
            inserted_into(old(self).entries(), final(self).entries(), key, value),
            final(self).node_count() == old(self).node_count() + (if inserted {
                top_level_of(seed) + 1
            } else {
                0
            }),
            old(self).all_linked() ==> final(self).all_linked(),
            forall|m: int| #[trigger] old(self).linked_below(m) ==> final(self).linked_below(m),
            old(self).linked_below(key.key_int()) ==> final(self).garbage() == old(self).garbage(),
            inserted && top_level_of(seed) > 0 ==> final(self).upper_key(key.key_int()),
            inserted && top_level_of(seed) == 0 ==> (final(self).upper_key(key.key_int())
                == old(self).upper_key(key.key_int())),
    {
        let tz = (seed as u64).trailing_zeros();
        let top_level: usize = if (tz as usize) < MAX_LEVEL - 1 {
            tz as usize
        } else {
            MAX_LEVEL - 1
        };
        let ghost old_list = *self;
        let ghost n = self.nodes@.len() as int;
        let ghost k = key.key_int();
        let tower = self.build_tower(key.key_clone(), value, top_level);
        let root_node = tower[0];
        let ghost mut p0: int = 0;
        let mut level: usize = 0;
        while level <= top_level
            invariant
                old_list == *old(self),
                old_list.wf(),
                n == old_list.nodes@.len(),
                n + MAX_LEVEL <= MAX_PTR,
                top_level < MAX_LEVEL,
                k == key.key_int(),
                root_node == n + 1,
                level <= top_level + 1,
                self.inv(0, 0, 0),
                self.nodes@.len() == n + top_level + 1,
                tower@.len() == MAX_LEVEL,
                forall|l: int| 0 <= l <= top_level ==> #[trigger] tower@[l] == n + l + 1,
                forall|l: int| top_level < l < MAX_LEVEL ==> #[trigger] tower@[l] == 0,
                MAX_LEVEL <= n,
                forall|l: int|
                    0 <= l <= top_level ==> {
                        &&& self.lvl@[n + l] == l
                        &&& (#[trigger] self.nodes@[n + l]).key == key
                        &&& self.nodes@[n + l].tower_root == n + 1
                        &&& self.nodes@[n + l].down == (if l == 0 {
                            0
                        } else {
                            n + l
                        })
                    },
                self.nodes@[n].element == Some(value),
                forall|i: int| #[trigger] self.pending(i) <==> n + level <= i < n + top_level + 1,
                level >= 1 ==> self.live_at(0, root_node),
                level == 0 ==> self.entries() == old_list.entries(),
                level >= 1 ==> !has_key(old_list.entries(), k) && 0 <= p0 <= old_list.entries().len()
                    && self.entries() == old_list.entries().insert(p0, (key, value)),
                old_list.head_tower@ == self.head_tower@,
                old_list.all_linked() ==> self.all_linked(),
                old_list.linked_below(k) ==> self.trash@ == old_list.trash@,
                level >= 2 ==> self.on_level(1, n + 1),
                top_level == 0 ==> forall|l: int| 1 <= l < MAX_LEVEL ==> #[trigger] self.chains@[l] == old_list.chains@[l],
                forall|i: int| 0 <= i < n ==> #[trigger] self.nodes@[i].key == old_list.nodes@[i].key,
                forall|m: int| #[trigger] old_list.linked_below(m) ==> self.linked_below(m),
            decreases top_level + 1 - level,
        {
            let curr_insert_node = tower[level];
            let mut prev_node = self.head_node(level);
            let ghost at_level = *self;
            loop
                invariant_except_break
                    *self == at_level,
                    prev_node == level + 1,
                    self.live_at(level as int, prev_node),
                    self.lvl_of(prev_node) == level,
                    forall|i: int| #[trigger] self.pending(i) <==> n + level <= i < n + top_level + 1,
                    level == 0 ==> self.entries() == old_list.entries(),
                invariant
                    old_list == *old(self),
                    old_list.wf(),
                    n == old_list.nodes@.len(),
                    n + MAX_LEVEL <= MAX_PTR,
                    top_level < MAX_LEVEL,
                    k == key.key_int(),
                    root_node == n + 1,
                    level <= top_level,
                    curr_insert_node == n + level + 1,
                    self.inv(0, 0, 0),
                    self.nodes@.len() == n + top_level + 1,
                    tower@.len() == MAX_LEVEL,
                    forall|l: int| 0 <= l <= top_level ==> #[trigger] tower@[l] == n + l + 1,
                    forall|l: int| top_level < l < MAX_LEVEL ==> #[trigger] tower@[l] == 0,
                    MAX_LEVEL <= n,
                forall|l: int| top_level < l < MAX_LEVEL ==> #[trigger] tower@[l] == 0,
                MAX_LEVEL <= n,
                    forall|l: int|
                        0 <= l <= top_level ==> {
                            &&& self.lvl@[n + l] == l
                            &&& (#[trigger] self.nodes@[n + l]).key == key
                            &&& self.nodes@[n + l].tower_root == n + 1
                            &&& self.nodes@[n + l].down == (if l == 0 {
                                0
                            } else {
                                n + l
                            })
                        },
                    self.nodes@[n].element == Some(value),
                    level >= 1 ==> self.live_at(0, root_node),
                    level >= 1 ==> !has_key(old_list.entries(), k) && 0 <= p0 <= old_list.entries().len()
                        && self.entries() == old_list.entries().insert(p0, (key, value)),
                    old_list.head_tower@ == self.head_tower@,
                    old_list.all_linked() ==> self.all_linked(),
                    old_list.linked_below(k) ==> self.trash@ == old_list.trash@,
                    level >= 2 ==> self.on_level(1, n + 1),
                    top_level == 0 ==> forall|l: int| 1 <= l < MAX_LEVEL ==> #[trigger] self.chains@[l] == old_list.chains@[l],
                    forall|i: int| 0 <= i < n ==> #[trigger] self.nodes@[i].key == old_list.nodes@[i].key,
                    forall|m: int| #[trigger] old_list.linked_below(m) ==> self.linked_below(m),
                ensures
                    self.inv(0, 0, 0),
                    self.nodes@.len() == n + top_level + 1,
                    forall|l: int|
                        0 <= l <= top_level ==> {
                            &&& self.lvl@[n + l] == l
                            &&& (#[trigger] self.nodes@[n + l]).key == key
                            &&& self.nodes@[n + l].tower_root == n + 1
                            &&& self.nodes@[n + l].down == (if l == 0 {
                                0
                            } else {
                                n + l
                            })
                        },
                    self.nodes@[n].element == Some(value),
                    forall|i: int| #[trigger] self.pending(i) <==> n + level + 1 <= i < n + top_level + 1,
                    self.live_at(0, root_node),
                    !has_key(old_list.entries(), k),
                    0 <= p0 <= old_list.entries().len(),
                    self.entries() == old_list.entries().insert(p0, (key, value)),
                    old_list.head_tower@ == self.head_tower@,
                    old_list.all_linked() ==> self.all_linked(),
                    old_list.linked_below(k) ==> self.trash@ == old_list.trash@,
                    level >= 1 ==> self.on_level(1, n + 1),
                    top_level == 0 ==> forall|l: int| 1 <= l < MAX_LEVEL ==> #[trigger] self.chains@[l] == old_list.chains@[l],
                    forall|i: int| 0 <= i < n ==> #[trigger] self.nodes@[i].key == old_list.nodes@[i].key,
                    forall|m: int| #[trigger] old_list.linked_below(m) ==> self.linked_below(m),
                decreases 0nat,
            {
                if level > 0 && self.nodes[root_node - 1].load_successor().mark {
                    proof {
                        self.lemma_live_succ(0, root_node);
                    }
                    return true;
                }
                proof {
                    assert(!self.pending(prev_node - 1));
                }
                let ghost before = *self;
                let (p, next_node) = self.search_from(&key, prev_node);
                prev_node = p;
                proof {
                    assert forall|l: int| 0 <= l <= top_level implies {
                        &&& self.lvl@[n + l] == l
                        &&& (#[trigger] self.nodes@[n + l]).key == key
                        &&& self.nodes@[n + l].tower_root == n + 1
                        &&& self.nodes@[n + l].down == (if l == 0 {
                            0
                        } else {
                            n + l
                        })
                    } by {
                        assert(before.nodes@[n + l].key == key);
                    }
                    assert(self.nodes@[n as int].element == before.nodes@[n as int].element);
                    assert forall|i: int| #[trigger] self.pending(i) <==> before.pending(i) by {}
                    assert forall|i: int| 0 <= i < n implies #[trigger] self.nodes@[i].key == old_list.nodes@[i].key by {
                        assert(before.nodes@[i].key == old_list.nodes@[i].key);
                    }
                    if level >= 2 {
                        assert(self.chains@[1] == before.chains@[1]);
                    }
                    if level >= 1 {
                        assert(self.chains@[0] == before.chains@[0]);
                        assert(self.live_at(0, root_node));
                    }
                    if level == 0 {
                        self.lemma_search_result0(prev_node, next_node, k);
                    }
                }
                if level == 0 && next_node != 0 && self.nodes[next_node - 1].key.key_eq(&key) {
                    proof {
                        assert(self.fresh_tower(tower@, n, top_level as int, key));
                    }
                    self.prune_tower(tower);
                    proof {
                        assert(self.node_count() == n);
                    }
                    return false;
                }
                let prev_succ = self.nodes[prev_node - 1].load_successor();
                proof {
                    self.lemma_live_succ(level as int, prev_node);
                }
                if prev_succ.flag {
                    self.help_flagged(prev_node, prev_succ.ptr);
                } else {
                    let ghost base = *self;
                    let ghost jp = self.pos_at(level as int, prev_node);
                    let ghost x = n + level;
                    proof {
                        self.lemma_pos_at(level as int, prev_node);
                        assert(self.pending(x));
                        if next_node != 0 {
                            assert(next_node - 1 < n) by {
                                if next_node - 1 >= n {
                                    let l2 = next_node - 1 - n;
                                    assert(self.lvl@[n + l2] == l2);
                                }
                            }
                            self.lemma_live_succ(level as int, prev_node);
                        }
                    }
                    self.nodes[curr_insert_node - 1].store_successor(SuccData::new(next_node));
                    let expected = SuccData::new(next_node);
                    let new_val = SuccData::new(curr_insert_node);
                    match self.nodes[prev_node - 1].swap_successor(expected, new_val) {
                        Ok(_) => {
                            proof {
                                let c = base.chains@[level as int];
                                self.chains = Ghost(base.chains@.update(level as int, c.insert(jp + 1, x)));
                                self.pend = Ghost(base.pend@.remove(x));
                                assert(base.sord(c[jp], x));
                                let nh = next_handle(c, jp);
                                assert(base.level_ok(level as int, 0, 0, 0));
                                if jp + 1 < c.len() {
                                    assert(0 <= c[jp + 1] < base.nodes@.len());
                                }
                                assert(base.succ_of(prev_node) == clean(nh));
                                assert(nh == next_node);
                                assert(base.nodes@[n + level].down == (if level == 0 { 0 } else { n + level }));
                                if level > 0 {
                                    assert(!base.pending(n + level - 1));
                                    assert(!base.pending(n));
                                }
                                assert(base.nodes@[n + level].tower_root == n + 1);
                                assert(nh != 0 ==> base.sord(x, nh - 1));
                                assert(level == 0 ==> (jp == 0 || base.kint(c[jp]) < base.kint(x)) && (jp + 1
                                    == c.len() || base.kint(x) < base.kint(c[jp + 1])));
                                assert(level > 0 ==> !self.pending(base.nodes@[x].down - 1));
                                assert(!self.pending(base.nodes@[x].tower_root - 1));
                                assert(self.nodes@[x].succ@ == clean(nh));
                                assert(self.nodes@[c[jp]].succ@ == clean(x + 1));
                                assert(Self::link_step(&base, self, level as int, jp, x));
                                Self::lemma_link(&base, self, level as int, jp, x);
                                if level == 0 {
                                    p0 = jp;
                                    assert(base.entries() == old_list.entries());
                                    assert(base.level_ok(0, 0, 0, 0));
                                    assert(!c.contains(x)) by {
                                        if c.contains(x) {
                                            let j = choose|j: int| 0 <= j < c.len() && c[j] == x;
                                            assert(!base.pending(c[j]));
                                        }
                                    }
                                    lemma_seq_insert(c, jp + 1, x);
                                    assert(self.chains@[0][jp + 1] == x);
                                    assert(self.chains@[0].contains(x));
                                } else {
                                    assert(self.chains@[0] == base.chains@[0]);
                                }
                                assert forall|i: int| #[trigger] self.pending(i) <==> n + level + 1 <= i < n
                                    + top_level + 1 by {
                                    assert(base.pending(i) <==> n + level <= i < n + top_level + 1);
                                }
                                assert forall|l: int| 0 <= l <= top_level implies {
                                    &&& self.lvl@[n + l] == l
                                    &&& (#[trigger] self.nodes@[n + l]).key == key
                                    &&& self.nodes@[n + l].tower_root == n + 1
                                    &&& self.nodes@[n + l].down == (if l == 0 {
                                        0
                                    } else {
                                        n + l
                                    })
                                } by {
                                    assert(base.nodes@[n + l].key == key);
                                }
                                assert forall|m: int| #[trigger] old_list.linked_below(m) implies self.linked_below(m) by {
                                    assert(base.linked_below(m));
                                    assert(!c.contains(x)) by {
                                        if c.contains(x) {
                                            let j = choose|j: int| 0 <= j < c.len() && c[j] == x;
                                            assert(!base.pending(c[j]));
                                        }
                                    }
                                    lemma_seq_insert(c, jp + 1, x);
                                    assert forall|i: int|
                                        0 <= i < self.nodes@.len() && !self.pending(i) && self.kint(i) < m implies #[trigger] self.on_level(
                                        self.lvl@[i],
                                        i,
                                    ) by {
                                        assert(self.lvl@ == base.lvl@);
                                        if i != x {
                                            assert(base.node_ok(i));
                                            assert(!base.pending(i));
                                            assert(base.kint(i) == self.kint(i));
                                            assert(base.on_level(base.lvl@[i], i));
                                            if self.lvl@[i] == level {
                                                assert(self.chains@[level as int] == c.insert(jp + 1, x));
                                            } else {
                                                assert(self.chains@[self.lvl@[i]] == base.chains@[self.lvl@[i]]);
                                            }
                                        } else {
                                            assert(self.lvl@[x] == level);
                                            assert(self.chains@[level as int] == c.insert(jp + 1, x));
                                        }
                                    }
                                }
                                assert forall|i: int| 0 <= i < n implies #[trigger] self.nodes@[i].key == old_list.nodes@[i].key by {
                                    assert(base.nodes@[i].key == old_list.nodes@[i].key);
                                }
                                if level >= 1 {
                                    assert(!c.contains(x)) by {
                                        if c.contains(x) {
                                            let j = choose|j: int| 0 <= j < c.len() && c[j] == x;
                                            assert(!base.pending(c[j]));
                                        }
                                    }
                                    lemma_seq_insert(c, jp + 1, x);
                                    if level == 1 {
                                        assert(self.chains@[1] == c.insert(jp + 1, x));
                                        assert(self.on_level(1, n + 1));
                                    } else {
                                        assert(self.chains@[1] == base.chains@[1]);
                                    }
                                }
                                if old_list.all_linked() {
                                    assert(!c.contains(x)) by {
                                        if c.contains(x) {
                                            let j = choose|j: int| 0 <= j < c.len() && c[j] == x;
                                            assert(!base.pending(c[j]));
                                        }
                                    }
                                    lemma_seq_insert(c, jp + 1, x);
                                    assert forall|i: int| 0 <= i < self.nodes@.len() && !self.pending(i) implies #[trigger] self.on_level(
                                        self.lvl@[i],
                                        i,
                                    ) by {
                                        assert(self.lvl@ == base.lvl@);
                                        if i != x {
                                            assert(base.node_ok(i));
                                            assert(!base.pending(i));
                                            assert(base.on_level(base.lvl@[i], i));
                                            if self.lvl@[i] == level {
                                                assert(self.chains@[level as int] == c.insert(jp + 1, x));
                                            } else {
                                                assert(self.chains@[self.lvl@[i]] == base.chains@[self.lvl@[i]]);
                                            }
                                        } else {
                                            assert(self.lvl@[x] == level);
                                            assert(self.chains@[level as int] == c.insert(jp + 1, x));
                                        }
                                    }
                                }
                            }
                            break;
                        },
                        Err(actual) => {
                            if actual.flag {
                                self.help_flagged(prev_node, actual.ptr);
                            }
                            #[verifier::loop_isolation(false)]
                            while self.nodes[prev_node - 1].load_successor().mark
                                decreases 0nat,
                            {
                                let bl = self.nodes[prev_node - 1].load_backlink();
                                if bl != 0 {
                                    prev_node = bl;
                                } else {
                                    break;
                                }
                            }
                        },
                    }
                }
            }
            level = level + 1;
        }
        proof {
            assert(self.pend@ =~= Set::<int>::empty()) by {
                assert forall|i: int| !self.pend@.contains(i) by {
                    assert(!self.pending(i));
                }
            }
            if top_level == 0 {
                assert forall|l: int, j: int|
                    1 <= l < MAX_LEVEL && 1 <= j < self.chains@[l].len() implies self.kint(
                    #[trigger] self.chains@[l][j],
                ) == old_list.kint(old_list.chains@[l][j]) by {
                    assert(self.chains@[l] == old_list.chains@[l]);
                    assert(old_list.level_ok(l, 0, 0, 0));
                }
                if self.upper_key(k) {
                    let (l, j) = choose|l: int, j: int|
                        1 <= l < MAX_LEVEL && 1 <= j < self.chains@[l].len() && self.kint(
                            #[trigger] self.chains@[l][j],
                        ) == k;
                    assert(old_list.upper_key(k));
                }
                if old_list.upper_key(k) {
                    let (l, j) = choose|l: int, j: int|
                        1 <= l < MAX_LEVEL && 1 <= j < old_list.chains@[l].len() && old_list.kint(
                            #[trigger] old_list.chains@[l][j],
                        ) == k;
                    assert(self.kint(self.chains@[l][j]) == k);
                    assert(self.upper_key(k));
                }
            }
            if top_level > 0 {
                assert(self.on_level(1, n + 1));
                let c1 = self.chains@[1];
                let j = choose|j: int| 0 <= j < c1.len() && c1[j] == n + 1;
                assert(self.level_ok(1, 0, 0, 0));
                assert(j != 0);
                assert(self.kint(c1[j]) == k);
                assert(self.upper_key(k));
            }
        }
        true
    }
}

impl<K: ListKey, V> LockFreeSkipList<K, V> {
    /// Deletes the entry with key `key`; gives whether it did. The tower to delete is
    /// the first node with `key` met going down the levels; when that node belongs to
    /// an earlier, deleted tower of the same key, nothing is deleted.
    pub fn delete(&mut self, key: &K) -> (deleted: bool)
        requires
            old(self).wf(),
        ensures
            final(self).wf(),
            deleted ==> exists|p: int|
                0 <= p < old(self).entries().len() && old(self).entries()[p].0.key_int()
                    == key.key_int() && final(self).entries() == old(self).entries().remove(p),
            !deleted ==> final(self).entries() == old(self).entries(),
            !has_key(old(self).entries(), key.key_int()) ==> !deleted,
            old(self).linked_below(key.key_int() + 1) ==> deleted == has_key(old(self).entries(), key.key_int()),
            old(self).towers_whole(key.key_int()) ==> deleted == has_key(old(self).entries(), key.key_int()),
            old(self).all_linked() && deleted ==> forall|m: int|
                m != key.key_int() ==> #[trigger] final(self).search_clear(m),
            old(self).all_linked() && deleted ==> forall|m: int|
                m != key.key_int() ==> #[trigger] final(self).towers_whole(m),
            old(self).all_linked() && !deleted ==> *final(self) == *old(self),
            forall|m: int| #[trigger] old(self).linked_below(m) ==> final(self).linked_below(
                if m <= key.key_int() {
                    m
                } else {
                    key.key_int()
                },
            ),
            old(self).linked_below(key.key_int() + 1) ==> final(self).garbage().len() == old(self).garbage().len()
                + (if deleted {
                1int
            } else {
                0
            }),
            final(self).node_count() == old(self).node_count(),
            deleted ==> exists|h: usize|
                #![trigger old(self).succ_of(h)]
                old(self).live_at(0, h) && h > MAX_LEVEL && old(self).key_of(h) == key.key_int()
                    && !final(self).live_at(0, h) && final(self).succ_of(h) == (SuccData {
                    ptr: old(self).succ_of(h).ptr,
                    mark: true,
                    flag: false,
                }),
    {
        let ghost old_list = *self;
        let ghost k = key.key_int();
        proof {
            if old_list.all_linked() {
                old_list.lemma_all_linked_below(k + 1);
            }
        }
        let mut curr_node = self.head_node(MAX_LEVEL - 1);
        let mut target_root: usize = 0;
        let mut i: usize = MAX_LEVEL;
        let ghost tw = old_list.towers_whole(k);
        proof {
            assert(self.level_ok(MAX_LEVEL - 1, 0, 0, 0));
            assert(self.node_ok(MAX_LEVEL - 1));
        }
        while i > 0
            invariant_except_break
                i > 0 ==> self.usable(curr_node) && self.lvl_of(curr_node) == i - 1,
                target_root == 0,
                i > 0 ==> (curr_node - 1 < MAX_LEVEL || (curr_node > MAX_LEVEL && self.kint(curr_node - 1) < k)),
                tw && i > 0 ==> self.live_at(i - 1, curr_node),
                tw && i > 0 ==> (curr_node - 1 < MAX_LEVEL || old_list.on_level(
                    0,
                    old_list.nodes@[curr_node - 1].tower_root - 1,
                )),
            invariant
                old_list == *old(self),
                old_list.wf(),
                k == key.key_int(),
                tw == old_list.towers_whole(k),
                self.wf(),
                self.entries() == old_list.entries(),
                self.node_count() == old_list.node_count(),
                i <= MAX_LEVEL,
                self.chains@[0] == old_list.chains@[0],
                self.nodes@.len() == old_list.nodes@.len(),
                forall|x: int|
                    0 <= x < self.nodes@.len() && old_list.lvl@[x] == 0 ==> #[trigger] self.nodes@[x]
                        == old_list.nodes@[x],
                forall|l: int| 0 <= l < i ==> #[trigger] self.chains@[l] == old_list.chains@[l],
                forall|x: int|
                    0 <= x < self.nodes@.len() && old_list.lvl@[x] < i ==> #[trigger] self.nodes@[x]
                        == old_list.nodes@[x],
                forall|l: int, h: usize| #[trigger] self.live_at(l, h) ==> old_list.live_at(l, h),
                self.same_shape(&old_list),
                self.lvl@ == old_list.lvl@,
                old_list.linked_below(k + 1) ==> *self == old_list,
                forall|m: int| #[trigger] old_list.linked_below(m) ==> self.linked_below(m),
                old_list.linked_below(k + 1) && target_root == 0 ==> forall|l: int, j: int|
                    i <= l < MAX_LEVEL && 1 <= j < self.chains@[l].len() ==> self.kint(
                        #[trigger] self.chains@[l][j],
                    ) != k,
                old_list.linked_below(k + 1) && target_root != 0 ==> has_key(old_list.entries(), k),
                old_list.linked_below(k + 1) && target_root == 0 && i == 0 ==> !has_key(old_list.entries(), k),
                tw && target_root != 0 ==> has_key(old_list.entries(), k),
                tw && target_root == 0 && i == 0 ==> !has_key(old_list.entries(), k),
            ensures
                self.wf(),
                self.entries() == old_list.entries(),
                self.node_count() == old_list.node_count(),
                target_root == 0 || (self.usable(target_root) && self.lvl_of(target_root) == 0
                    && target_root > MAX_LEVEL && self.key_of(target_root) == k),
                old_list.linked_below(k + 1) ==> *self == old_list,
                forall|m: int| #[trigger] old_list.linked_below(m) ==> self.linked_below(m),
                self.chains@[0] == old_list.chains@[0],
                self.nodes@.len() == old_list.nodes@.len(),
                forall|x: int|
                    0 <= x < self.nodes@.len() && old_list.lvl@[x] == 0 ==> #[trigger] self.nodes@[x]
                        == old_list.nodes@[x],
                self.lvl@ == old_list.lvl@,
                old_list.linked_below(k + 1) ==> (target_root == 0 <==> !has_key(old_list.entries(), k)),
                old_list.linked_below(k + 1) && target_root != 0 ==> self.live_at(0, target_root),
                tw ==> (target_root == 0 <==> !has_key(old_list.entries(), k)),
                tw && target_root != 0 ==> self.live_at(0, target_root),
            decreases i,
        {
            i = i - 1;
            let ghost before = *self;
            let ghost start = curr_node;
            let (prev, next) = self.search_from(key, curr_node);
            proof {
                assert forall|l: int, h: usize| #[trigger] self.live_at(l, h) implies old_list.live_at(l, h) by {
                    if l != i {
                        assert(self.chains@[l] == before.chains@[l]);
                        assert(before.live_at(l, h));
                    } else {
                        assert(before.live_at(l, h));
                    }
                }
                assert forall|l: int| 0 <= l < i implies #[trigger] self.chains@[l] == old_list.chains@[l] by {
                    assert(self.chains@[l] == before.chains@[l]);
                }
                assert forall|x: int|
                    0 <= x < self.nodes@.len() && old_list.lvl@[x] < i implies #[trigger] self.nodes@[x]
                        == old_list.nodes@[x] by {
                    assert(self.nodes@[x] == before.nodes@[x]);
                }
                assert forall|x: int|
                    0 <= x < self.nodes@.len() && old_list.lvl@[x] == 0 implies #[trigger] self.nodes@[x]
                        == old_list.nodes@[x] by {
                    assert(self.nodes@[x] == before.nodes@[x]);
                }
                if tw {
                    assert(before.live_at(i as int, curr_node));
                    assert(self.live_at(i as int, prev));
                    self.lemma_live_succ(i as int, prev);
                }
            }
            if next != 0 && self.nodes[next - 1].key.key_eq(key) {
                proof {
                    assert(self.node_ok(next - 1));
                }
                target_root = self.nodes[next - 1].tower_root;
                proof {
                    assert(next > MAX_LEVEL);
                    assert(self.kint(next - 1) == k);
                    assert(self.kint(target_root - 1) == k);
                    assert(!self.pending(target_root - 1));
                    assert(self.usable(target_root));
                    assert(target_root - 1 >= MAX_LEVEL);
                    if old_list.linked_below(k + 1) {
                        assert(self.node_ok(target_root - 1));
                        assert(self.kint(target_root - 1) < k + 1);
                        assert(self.on_level(0, target_root - 1));
                        self.lemma_live_succ(0, target_root);
                        self.lemma_root_entry(next);
                    }
                    if tw {
                        assert(self.live_at(i as int, next));
                        assert(old_list.live_at(i as int, next));
                        assert(old_list.on_level(old_list.lvl@[next - 1], next - 1));
                        assert(old_list.nodes@[next - 1].tower_root == target_root);
                        assert(old_list.kint(next - 1) == k);
                        assert(old_list.on_level(0, target_root - 1));
                        assert(self.on_level(0, target_root - 1));
                        assert(self.live_at(0, target_root));
                        self.lemma_live_succ(0, target_root);
                        self.lemma_root_entry(next);
                    }
                }
                break;
            }
            let ghost lv = self.lvl@[prev - 1];
            proof {
                assert(self.node_ok(prev - 1));
                if old_list.linked_below(k + 1) {
                    if prev - 1 < MAX_LEVEL {
                        assert(self.level_ok(lv, 0, 0, 0));
                        assert(self.chains@[lv][0] == lv);
                    }
                    assert(self.on_level(lv, prev - 1));
                    self.lemma_level_misses(prev, k);
                    assert(lv == i);
                    assert(forall|j: int| 1 <= j < self.chains@[lv].len() ==> self.kint(
                        #[trigger] self.chains@[lv][j]) != k);
                }
            }
            curr_node = self.nodes[prev - 1].down;
            proof {
                if curr_node != 0 {
                    assert(self.lvl@[curr_node - 1] == lv - 1);
                    assert(curr_node - 1 < MAX_LEVEL || (curr_node > MAX_LEVEL && self.kint(curr_node - 1) < k));
                    if tw {
                        let x = curr_node - 1;
                        if prev - 1 < MAX_LEVEL {
                            assert(self.level_ok(lv - 1, 0, 0, 0));
                            assert(self.chains@[lv - 1][0] == lv - 1);
                            assert(self.on_level(lv - 1, x));
                        } else {
                            let r = self.nodes@[prev - 1].tower_root;
                            assert(self.nodes@[x].tower_root == r);
                            assert(before.nodes@[prev - 1].tower_root == r);
                            if prev != start {
                                assert(!before.succ_of(r).mark);
                                assert(before.node_ok(prev - 1));
                                assert(before.node_ok(r - 1));
                                before.lemma_unmarked_live(r);
                                assert(before.on_level(0, r - 1));
                            } else {
                                assert(old_list.nodes@[start - 1].tower_root == r);
                            }
                            assert(old_list.on_level(0, r - 1));
                            assert(self.nodes@[x] == old_list.nodes@[x]);
                            assert(old_list.kint(x) < k);
                            assert(old_list.on_level(old_list.lvl@[x], x));
                            assert(self.chains@[lv - 1] == old_list.chains@[lv - 1]);
                            assert(self.on_level(lv - 1, x));
                        }
                    }
                }
            }
            if curr_node == 0 {
                proof {
                    if old_list.linked_below(k + 1) {
                        assert(i == 0);
                        self.lemma_absent0(k);
                    }
                    if tw {
                        assert(i == 0);
                        assert(self.live_at(0, prev));
                        assert(prev - 1 < MAX_LEVEL || self.kint(prev - 1) < k);
                        self.lemma_level_misses(prev, k);
                        self.lemma_absent0(k);
                    }
                }
                break;
            }
        }
        if target_root == 0 {
            return false;
        }
        let prev_root = self.head_node(0);
        loop
            invariant_except_break
                self.wf(),
                self.entries() == old_list.entries(),
                self.node_count() == old_list.node_count(),
                self.usable(target_root) && self.lvl_of(target_root) == 0 && target_root > MAX_LEVEL
                    && self.key_of(target_root) == k,
                prev_root == 1,
                self.live_at(0, prev_root),
                self.lvl_of(prev_root) == 0,
                old_list.linked_below(k + 1) ==> *self == old_list && self.live_at(0, target_root)
                    && has_key(old_list.entries(), k),
                tw ==> self.live_at(0, target_root) && has_key(old_list.entries(), k),
                forall|m: int| #[trigger] old_list.linked_below(m) ==> self.linked_below(m),
                self.chains@[0] == old_list.chains@[0],
                self.nodes@.len() == old_list.nodes@.len(),
                forall|x: int|
                    0 <= x < self.nodes@.len() && old_list.lvl@[x] == 0 ==> #[trigger] self.nodes@[x]
                        == old_list.nodes@[x],
                self.lvl@ == old_list.lvl@,
            invariant
                old_list == *old(self),
                k == key.key_int(),
                tw == old_list.towers_whole(k),
            decreases 0nat,
        {
            let ghost before = *self;
            let (p, n) = self.search_from(key, prev_root);
            proof {
                self.lemma_search_result0(p, n, k);
            }
            if n != target_root {
                proof {
                    if old_list.linked_below(k + 1) || tw {
                        self.lemma_pos_at(0, target_root);
                        self.lemma_pos_at(0, n);
                        let c = self.chains@[0];
                        let a = self.pos_at(0, n);
                        let b = self.pos_at(0, target_root);
                        assert(self.level_ok(0, 0, 0, 0));
                        assert(a != b);
                        assert(a >= 1);
                        assert(b >= 1) by {
                            if b == 0 {
                                assert(c[0] == 0);
                            }
                        }
                        assert(self.kint(c[a]) != self.kint(c[b]));
                    }
                }
                return false;
            }
            let ghost pos = self.pos_at(0, p);
            proof {
                self.lemma_live_succ(0, p);
                self.lemma_pos_at(0, p);
            }
            let ghost before_flag = *self;
            let (actual_prev, result) = self.try_flag(p, target_root);
            proof {
                assert(self.pos_at(0, p) == pos);
                assert(self.lvl_of(p) == 0);
            }
            let ghost mid = *self;
            if actual_prev != 0 {
                self.help_flagged(actual_prev, target_root);
                proof {
                    assert forall|m: int| #[trigger] old_list.linked_below(m) implies self.linked_below(
                        if m <= k {
                            m
                        } else {
                            k
                        },
                    ) by {
                        let m2 = if m <= k {
                            m
                        } else {
                            k
                        };
                        assert(before_flag.linked_below(m));
                        assert forall|i: int|
                            0 <= i < self.nodes@.len() && !self.pending(i) && self.kint(i) < m2 implies #[trigger] self.on_level(
                            self.lvl@[i],
                            i,
                        ) by {
                            assert(before_flag.kint(i) == self.kint(i));
                            assert(before_flag.on_level(before_flag.lvl@[i], i));
                            assert(before_flag.node_ok(i));
                            if self.lvl@[i] == 0 {
                                assert(before_flag.live_at(0, (i + 1) as usize));
                                assert(mid.live_at(0, (i + 1) as usize));
                                assert(self.live_at(0, (i + 1) as usize));
                            } else {
                                assert(self.chains@[self.lvl@[i]] == before_flag.chains@[self.lvl@[i]]);
                            }
                        }
                    }
                }
                if result {
                    let ghost removed = self.entries();
                    let ghost unlinked = *self;
                    proof {
                        if old_list.all_linked() {
                            old_list.lemma_all_linked_below(k + 1);
                            assert(before_flag == old_list);
                            assert(before_flag.succ_of(p) == clean(target_root as int));
                            assert(self.wf());
                            assert(self.same_shape(&old_list)) by {
                                assert forall|i: int| 0 <= i < self.nodes@.len() implies {
                                    &&& (#[trigger] self.nodes@[i]).key == old_list.nodes@[i].key
                                    &&& self.nodes@[i].element == old_list.nodes@[i].element
                                    &&& self.nodes@[i].down == old_list.nodes@[i].down
                                    &&& self.nodes@[i].tower_root == old_list.nodes@[i].tower_root
                                } by {
                                    assert(mid.nodes@[i].key == old_list.nodes@[i].key);
                                }
                            }
                            assert forall|l: int| 1 <= l < MAX_LEVEL implies #[trigger] self.chains@[l]
                                == old_list.chains@[l] by {
                                assert(self.chains@[l] == mid.chains@[l]);
                            }
                            assert forall|h: usize| #[trigger] old_list.live_at(0, h) && h != target_root implies self.live_at(
                                0,
                                h,
                            ) by {
                                assert(mid.live_at(0, h));
                            }
                            assert forall|h: usize| #[trigger] self.live_at(0, h) implies old_list.live_at(0, h) by {
                                if h != p {
                                    assert(mid.live_at(0, h));
                                }
                            }
                            Self::lemma_unlinked_bottom(&old_list, self, target_root - 1);
                            assert(unlinked.linked_below(k));
                        }
                    }
                    let mut level: usize = 1;
                    while level < MAX_LEVEL
                        invariant
                            1 <= level <= MAX_LEVEL,
                            self.wf(),
                            self.entries() == removed,
                            self.node_count() == old_list.node_count(),
                            forall|m: int| #[trigger] unlinked.linked_below(m) ==> self.linked_below(m),
                            unlinked.linked_below(k) ==> *self == unlinked,
                            k == key.key_int(),
                            self.chains@[0] == unlinked.chains@[0],
                            self.nodes@.len() == unlinked.nodes@.len(),
                            self.lvl@ == unlinked.lvl@,
                            self.nodes@[target_root - 1] == unlinked.nodes@[target_root - 1],
                            unlinked.lvl@[target_root - 1] == 0,
                            1 <= target_root <= unlinked.nodes@.len(),
                        decreases MAX_LEVEL - level,
                    {
                        let h = self.head_node(level);
                        let ghost bs = *self;
                        self.search_from(key, h);
                        proof {
                            assert(bs.lvl@[target_root - 1] == 0);
                            assert(bs.lvl_of(h) == level);
                            assert(self.lvl@[target_root - 1] == 0);
                            assert(0 <= target_root - 1 < self.nodes@.len());
                            assert(self.nodes@[target_root - 1] == bs.nodes@[target_root - 1]);
                        }
                        level = level + 1;
                    }
                    proof {
                        assert(0 <= pos < old_list.entries().len());
                        assert(old_list.entries()[pos].0.key_int() == k);
                        assert(self.succ_of(target_root) == unlinked.succ_of(target_root));
                        assert(!self.live_at(0, target_root));
                        assert(old_list.live_at(0, target_root));
                        assert(old_list.succ_of(target_root) == before.succ_of(target_root));
                        if old_list.all_linked() {
                            assert(*self == unlinked);
                            assert forall|m: int| m != k implies #[trigger] self.search_clear(m) by {
                                self.lemma_one_unlinked_search_clear(target_root - 1, m);
                            }
                            assert forall|m: int| m != k implies #[trigger] self.towers_whole(m) by {
                                self.lemma_one_unlinked_towers_whole(target_root - 1, m);
                            }
                        }
                    }
                    return true;
                }
            } else if !result {
                return false;
            }
        }
    }

    /// A walk over the bottom level, in key order.
    pub fn iter(&self) -> (it: NodeIter<'_, K, V, SkipNode<K, V>>)
        requires
            self.wf(),
        ensures
            it.wf(),
            it.remaining() == self.entries(),
    {
        let ghost rest = self.chains@[0].drop_first();
        proof {
            assert(self.level_ok(0, 0, 0, 0));
            let c = self.chains@[0];
            assert forall|j: int| 0 <= j < rest.len() implies {
                &&& 0 <= #[trigger] rest[j] < self.nodes@.len()
                &&& self.nodes@[rest[j]].succ_view() == clean(next_handle(rest, j))
                &&& self.nodes@[rest[j]].element_view().is_some()
            } by {
                assert(rest[j] == c[j + 1]);
                assert(self.nodes@[c[j + 1]].succ@ == stage_succ(c, j + 1, 0, 0));
                assert(next_handle(rest, j) == next_handle(c, j + 1));
                assert(self.node_ok(c[j + 1]));
                assert(c[j + 1] != c[0]);
                assert(c[j + 1] >= MAX_LEVEL) by {
                    if c[j + 1] < MAX_LEVEL {
                        assert(self.lvl@[c[j + 1]] == c[j + 1]);
                    }
                }
            }
            assert(self.head_tower@[0] == 1);
            assert(self.nodes@[c[0]].succ@ == stage_succ(c, 0, 0, 0));
        }
        let head_ptr = self.head_tower[0];
        let first_node = self.nodes[head_ptr - 1].load_successor().ptr;
        NodeIter::new(&self.nodes, first_node, Ghost(rest))
    }
}

impl<K: ListKey, V> LockFreeSkipList<K, V> {
    /// The entries of a consistent skip list are strictly increasing by key.
    pub proof fn lemma_sorted(&self)
        requires
            self.wf(),
        ensures
            sorted_entries(self.entries()),
    {
        let e = self.entries();
        let c = self.chains@[0];
        assert(self.level_ok(0, 0, 0, 0));
        assert forall|a: int, b: int| 0 <= a < b < e.len() implies (#[trigger] e[a]).0.key_int()
            < (#[trigger] e[b]).0.key_int() by {
            assert(c.drop_first()[a] == c[a + 1]);
            assert(c.drop_first()[b] == c[b + 1]);
            assert(self.kint(c[a + 1]) < self.kint(c[b + 1]));
        }
    }

    /// Takes the bag of unlinked nodes out of the skip list and leaves an empty one.
    pub fn take_garbage(&mut self) -> (bag: ThreadLocalBag)
        requires
            old(self).wf(),
        ensures
            final(self).wf(),
            bag@ == old(self).garbage(),
            final(self).garbage().len() == 0,
            final(self).entries() == old(self).entries(),
            final(self).node_count() == old(self).node_count(),
            old(self).all_linked() ==> final(self).all_linked(),
            forall|m: int| #[trigger] old(self).linked_below(m) ==> final(self).linked_below(m),
    {
        let ghost old_list = *self;
        let mut bag = ThreadLocalBag::new();
        std::mem::swap(&mut bag, &mut self.trash);
        proof {
            assert forall|l: int| 0 <= l < MAX_LEVEL implies #[trigger] self.level_ok(l, 0, 0, 0) by {
                assert(old_list.level_ok(l, 0, 0, 0));
            }
            assert forall|i: int| 0 <= i < self.nodes@.len() implies #[trigger] self.node_ok(i) by {
                assert(old_list.node_ok(i));
            }
            assert forall|i: int|
                0 <= i < self.nodes@.len() && !self.pending(i) && !self.on_level(self.lvl@[i], i)
                implies #[trigger] self.dead_ok(i) by {
                assert(old_list.dead_ok(i));
            }
            assert forall|a: int, b: int|
                1 <= a < b < self.chains@[0].len() implies self.kint(#[trigger] self.chains@[0][a])
                < self.kint(#[trigger] self.chains@[0][b]) by {
                assert(old_list.kint(old_list.chains@[0][a]) < old_list.kint(old_list.chains@[0][b]));
            }
            if old_list.all_linked() {
                assert forall|i: int| 0 <= i < self.nodes@.len() && !self.pending(i) implies #[trigger] self.on_level(
                    self.lvl@[i],
                    i,
                ) by {
                    assert(old_list.on_level(old_list.lvl@[i], i));
                }
            }
            assert forall|m: int| #[trigger] old_list.linked_below(m) implies self.linked_below(m) by {
                assert forall|i: int|
                    0 <= i < self.nodes@.len() && !self.pending(i) && self.kint(i) < m implies #[trigger] self.on_level(
                    self.lvl@[i],
                    i,
                ) by {
                    assert(old_list.kint(i) == self.kint(i));
                    assert(old_list.on_level(old_list.lvl@[i], i));
                }
            }
        }
        bag
    }
}

impl<K: ListKey + Seedable, V> LockFreeSkipList<K, V> {
    /// Inserts `key` with `value` under a tower whose height the key's seed gives;
    /// gives whether it was inserted (false when the key is already present).
    pub fn insert(&mut self, key: K, value: V) -> (inserted: bool)
        requires
            old(self).wf(),
            old(self).node_count() + MAX_LEVEL <= MAX_PTR,
        ensures
            final(self).wf(),
            inserted == !has_key(old(self).entries(), key.key_int()),
            inserted_into(old(self).entries(), final(self).entries(), key, value),
            final(self).node_count() == old(self).node_count() + (if inserted {
                top_level_of(key.seed_spec()) + 1
            } else {
                0
            }),
            old(self).all_linked() ==> final(self).all_linked(),
            forall|m: int| #[trigger] old(self).linked_below(m) ==> final(self).linked_below(m),
            old(self).linked_below(key.key_int()) ==> final(self).garbage() == old(self).garbage(),
            inserted && top_level_of(key.seed_spec()) > 0 ==> final(self).upper_key(key.key_int()),
            inserted && top_level_of(key.seed_spec()) == 0 ==> (final(self).upper_key(key.key_int())
                == old(self).upper_key(key.key_int())),
    {
        let seed = key.generate_seed();
        self.insert_seeded(key, value, seed)
    }
}

impl<K: ListKey, V> List<K, V, SkipNode<K, V>> for LockFreeSkipList<K, V> {
    open spec fn list_wf(&self) -> bool {
        self.wf()
    }

    open spec fn list_entries(&self) -> Seq<(K, V)> {
        self.entries()
    }

    /// The search runs from the top level down (`search_path`); it is exact when it
    /// meets no node of a deleted tower, and it may miss `key` where it does.
    fn contains(&mut self, key: &K) -> (found: bool)
        ensures
            *final(self) == *old(self),
            found == old(self).search_path(MAX_LEVEL, key.key_int()).is_some(),
            old(self).search_clear(key.key_int()) ==> found == has_key(old(self).entries(), key.key_int()),
            old(self).linked_below(key.key_int() + 1) ==> found == has_key(old(self).entries(), key.key_int()),
    {
        proof {
            if self.linked_below(key.key_int() + 1) {
                self.lemma_linked_search_clear(key.key_int());
            }
        }
        self.search_node(key).is_some()
    }

    fn contains_many(&mut self, keys: &[K]) -> (found: Vec<bool>)
        ensures
            *final(self) == *old(self),
    {
        let n = keys.len();
        let mut results: Vec<bool> = Vec::new();
        let mut i: usize = 0;
        while i < n
            invariant
                i <= n,
                results@.len() == i,
            decreases n - i,
        {
            results.push(false);
            i = i + 1;
        }
        if n == 0 {
            return results;
        }
        let sorted_keys = key_order(keys);
        let ghost entries = self.entries();
        let mut curr_start = self.head_node(0);
        let mut s: usize = 0;
        while s < n
            invariant
                *self == *old(self),
                self.wf(),
                entries == self.entries(),
                n == keys@.len(),
                s <= n,
                results@.len() == n,
                is_key_order(keys@, sorted_keys@),
                self.live_at(0, curr_start),
                s == 0 ==> curr_start == 1,
                s > 0 ==> {
                    let tp = keys@[sorted_keys@[s - 1] as int].key_int();
                    &&& has_key(entries, tp) ==> curr_start > MAX_LEVEL && self.key_of(curr_start) == tp
                    &&& !has_key(entries, tp) ==> curr_start == 1 || (curr_start > MAX_LEVEL
                        && self.key_of(curr_start) < tp)
                },
                forall|t: int|
                    0 <= t < s ==> results@[#[trigger] sorted_keys@[t] as int] == (has_key(
                        entries,
                        keys@[sorted_keys@[t] as int].key_int(),
                    ) && first_occurrence(keys@, sorted_keys@[t] as int)),
            decreases n - s,
        {
            let key_index = sorted_keys[s];
            let target_key = &keys[key_index];
            let ghost ts = target_key.key_int();
            proof {
                lemma_key_order_first(keys@, sorted_keys@, s as int);
                assert(key_index < n);
                assert forall|t: int| 0 <= t < s implies sorted_keys@[t] != key_index by {
                    assert(crate::succ::goes_before(keys@, sorted_keys@[t] as int, sorted_keys@[s as int] as int));
                }
                self.lemma_live_succ(0, curr_start);
            }
            let (prev, next) = self.search_from(target_key, curr_start);
            let ghost exact = curr_start == 1 || self.key_of(curr_start) < ts;
            proof {
                self.lemma_live_succ(0, prev);
                if exact {
                    self.lemma_search_result0(prev, next, ts);
                } else {
                    self.lemma_pos_at(0, curr_start);
                    self.lemma_pos_at(0, prev);
                    assert(self.level_ok(0, 0, 0, 0));
                    let c = self.chains@[0];
                    assert(self.pos_at(0, curr_start) != 0) by {
                        if self.pos_at(0, curr_start) == 0 {
                            assert(c[0] == 0);
                        }
                    }
                    if prev != curr_start {
                        assert(self.pos_at(0, prev) > self.pos_at(0, curr_start));
                        assert(self.kint(c[self.pos_at(0, curr_start)]) < self.kint(c[self.pos_at(0, prev)]));
                    }
                    assert(prev == curr_start);
                    if next != 0 {
                        assert(self.kint(c[self.pos_at(0, prev)]) < self.kint(c[self.pos_at(0, prev) + 1]));
                    }
                }
            }
            if next != 0 && self.nodes[next - 1].key.key_eq(target_key) {
                results.set(key_index, true);
                curr_start = next;
            } else {
                results.set(key_index, false);
                if prev != 0 {
                    curr_start = prev;
                }
            }
            proof {
                assert forall|t: int| 0 <= t < s + 1 implies results@[#[trigger] sorted_keys@[t] as int] == (has_key(
                    entries,
                    keys@[sorted_keys@[t] as int].key_int(),
                ) && first_occurrence(keys@, sorted_keys@[t] as int)) by {
                    if t < s {
                        assert(sorted_keys@[t] != key_index);
                    }
                }
            }
            s = s + 1;
        }
        proof {
            assert forall|i: int| 0 <= i < keys@.len() implies results@[i] == (has_key(
                entries,
                keys@[i].key_int(),
            ) && first_occurrence(keys@, i)) by {
                assert(crate::succ::holds_index(sorted_keys@, i, n as int));
                let t = choose|t: int| 0 <= t < n && #[trigger] sorted_keys@[t] == i;
                assert(results@[sorted_keys@[t] as int] == (has_key(
                    entries,
                    keys@[sorted_keys@[t] as int].key_int(),
                ) && first_occurrence(keys@, sorted_keys@[t] as int)));
            }
        }
        results
    }

    fn is_empty(&self) -> (empty: bool) {
        proof {
            assert(self.level_ok(0, 0, 0, 0));
            let c = self.chains@[0];
            assert(self.nodes@[c[0]].succ@ == stage_succ(c, 0, 0, 0));
            assert(self.head_tower@[0] == 1);
        }
        let head_ptr = self.head_tower[0];
        let first_node = self.nodes[head_ptr - 1].load_successor().ptr;
        first_node == 0
    }

    /// The element of the node that the search meets first; only the bottom node of a
    /// tower holds one, so a key with a tower above the bottom level gives `None`.
    fn get<'a>(&'a mut self, key: &K) -> (r: Option<&'a V>)
        ensures
            *final(self) == *old(self),
            r.is_some() ==> old(self).search_path(MAX_LEVEL, key.key_int()).is_some(),
            old(self).search_path(MAX_LEVEL, key.key_int()).is_some() ==> (r.is_some() <==> old(self).lvl_of(
                old(self).search_path(MAX_LEVEL, key.key_int()).unwrap(),
            ) == 0),
            old(self).search_clear(key.key_int()) ==> (r.is_some() == (has_key(old(self).entries(), key.key_int())
                && !old(self).upper_key(key.key_int()))),
            old(self).linked_below(key.key_int() + 1) ==> (r.is_some() == (has_key(old(self).entries(), key.key_int())
                && !old(self).upper_key(key.key_int()))),
    {
        proof {
            if self.linked_below(key.key_int() + 1) {
                self.lemma_linked_search_clear(key.key_int());
            }
        }
        match self.search_node(key) {
            Some(s) => {
                let node = &self.nodes[s - 1];
                match &node.element {
                    Some(v) => {
                        proof {
                            assert(self.node_at(s).element.is_some());
                            let i = choose|i: int|
                                0 <= i < self.entries().len() && self.entries()[i] == (
                                    self.node_at(s).key,
                                    self.node_at(s).element.unwrap(),
                                );
                            assert(self.entries()[i].0.key_int() == key.key_int());
                            assert(*v == self.node_at(s).element.unwrap());
                            assert(self.entries()[i].1 == *v);
                            assert(*self == *old(self));
                            assert(old(self).list_entries() == self.entries());
                        }
                        Some(v)
                    },
                    None => None,
                }
            },
            None => None,
        }
    }

    fn iter<'a>(&'a self) -> (it: NodeIter<'a, K, V, SkipNode<K, V>>) {
        LockFreeSkipList::iter(self)
    }

    fn pop_front<'a>(&'a mut self) -> (r: Option<(&'a K, &'a V)>)
        ensures
            final(self).node_count() == old(self).node_count(),
            old(self).entries().len() == 0 ==> *final(self) == *old(self),
            old(self).entries().len() > 0 ==> forall|m: int| #[trigger] old(self).linked_below(m)
                ==> final(self).linked_below(
                if m <= old(self).entries()[0].0.key_int() {
                    m
                } else {
                    old(self).entries()[0].0.key_int()
                },
            ),
    {
        let prev_node = self.head_node(0);
        let ghost old_list = *self;
        proof {
            self.lemma_live_succ(0, prev_node);
        }
        loop
            invariant
                old_list == *old(self),
                *self == old_list,
                self.wf(),
                prev_node == 1,
                self.live_at(0, prev_node),
                self.lvl_of(prev_node) == 0,
                self.pos_at(0, prev_node) == 0,
                self.succ_of(prev_node) == clean(next_handle(self.chains@[0], 0)),
            decreases 0nat,
        {
            let prev_succ_data = self.nodes[prev_node - 1].load_successor();
            let del_node = prev_succ_data.ptr;
            proof {
                self.lemma_live_succ(0, prev_node);
                if del_node != 0 {
                    self.lemma_pos_at(0, del_node);
                    K::lemma_key_int_bounded(&self.nodes@[del_node - 1].key);
                }
                self.lemma_search_result0(prev_node, del_node, -0x2_0000_0000_0000_0000);
            }
            if del_node == 0 {
                return None;
            }
            if prev_succ_data.flag {
                self.help_flagged(prev_node, del_node);
                continue;
            }
            let ghost before_flag = *self;
            let (actual_prev, success) = self.try_flag(prev_node, del_node);
            let ghost mid = *self;
            if actual_prev != 0 && success {
                proof {
                    assert(old_list.node_ok(del_node - 1));
                    assert(old_list.lvl@[del_node - 1] == 0);
                    assert(old_list.nodes@[del_node - 1].element.is_some());
                    assert(mid.nodes@[del_node - 1].key == old_list.nodes@[del_node - 1].key);
                    assert(mid.nodes@[del_node - 1].element == old_list.nodes@[del_node - 1].element);
                    assert(self.pos_at(0, prev_node) == 0) by {
                        self.lemma_pos_at(0, prev_node);
                        old_list.lemma_pos_at(0, prev_node);
                    }
                    assert(self.lvl_of(prev_node) == 0);
                }
                self.help_flagged(actual_prev, del_node);
                proof {
                    let k0 = old_list.entries()[0].0.key_int();
                    assert(old_list.kint(del_node - 1) == k0);
                    assert forall|m: int| #[trigger] old_list.linked_below(m) implies self.linked_below(
                        if m <= k0 {
                            m
                        } else {
                            k0
                        },
                    ) by {
                        let m2 = if m <= k0 {
                            m
                        } else {
                            k0
                        };
                        assert forall|i: int|
                            0 <= i < self.nodes@.len() && !self.pending(i) && self.kint(i) < m2 implies #[trigger] self.on_level(
                            self.lvl@[i],
                            i,
                        ) by {
                            assert(before_flag.kint(i) == self.kint(i));
                            assert(before_flag.on_level(before_flag.lvl@[i], i));
                            assert(before_flag.node_ok(i));
                            if self.lvl@[i] == 0 {
                                assert(before_flag.live_at(0, (i + 1) as usize));
                                assert(mid.live_at(0, (i + 1) as usize));
                                assert(self.live_at(0, (i + 1) as usize));
                            } else {
                                assert(self.chains@[self.lvl@[i]] == before_flag.chains@[self.lvl@[i]]);
                            }
                        }
                    }
                    assert(self.entries() =~= old_list.entries().drop_first());
                    assert(1 <= del_node <= old_list.nodes@.len());
                    assert(self.nodes@.len() == old_list.nodes@.len());
                    assert(self.nodes@[del_node - 1].key == old_list.nodes@[del_node - 1].key);
                    assert(self.nodes@[del_node - 1].element == old_list.nodes@[del_node - 1].element);
                }
                let node = &self.nodes[del_node - 1];
                let value = match &node.element {
                    Some(v) => v,
                    None => {
                        return None;
                    },
                };
                return Some((&node.key, value));
            }
        }
    }
}

} // verus!
