use core::marker::PhantomData;
use crate::key::{has_key, ListKey};
use vstd::prelude::*;

verus! {

/// Bit that marks a node as logically deleted.
pub const MARK_BIT: usize = 1;

/// Bit that flags a node whose successor is being deleted.
pub const FLAG_BIT: usize = 2;

/// Number of low bits of a successor word taken by the control bits.
pub const CONTROL_BITS: usize = 2;

/// Largest node handle that fits in a successor word beside the control bits.
pub const MAX_PTR: usize = usize::MAX / 4;

/// Successor data of a list node: the handle of the next node (0 is null)
/// and the two control bits.
#[derive(Debug, Clone, Copy, PartialEq, Eq, Structural)]
pub struct SuccData {
    /// Handle of the next node, 0 when there is none.
    pub ptr: usize,
    /// The node holding this word is logically deleted; its successor is frozen.
    pub mark: bool,
    /// The successor of the node holding this word is being deleted.
    pub flag: bool,
}

/// The packed word of a successor value: the handle shifted past the control bits.
pub open spec fn packed_spec(s: SuccData) -> int {
    s.ptr * 4 + (if s.mark { 1int } else { 0 }) + (if s.flag { 2int } else { 0 })
}

/// The successor value that a packed word stands for.
pub open spec fn unpacked_spec(v: usize) -> SuccData {
    SuccData { ptr: v / 4, mark: v % 2 == 1, flag: (v / 2) % 2 == 1 }
}

impl SuccData {
    /// A clean successor: neither marked nor flagged.
    pub fn new(ptr: usize) -> (s: Self)
        ensures
            s == (SuccData { ptr, mark: false, flag: false }),
    {
        Self { ptr, mark: false, flag: false }
    }

    /// A successor whose holder is marked as deleted.
    pub fn new_marked(ptr: usize) -> (s: Self)
        ensures
            s == (SuccData { ptr, mark: true, flag: false }),
    {
        Self { ptr, mark: true, flag: false }
    }

    /// A successor whose target is flagged for deletion.
    pub fn new_flagged(ptr: usize) -> (s: Self)
        ensures
            s == (SuccData { ptr, mark: false, flag: true }),
    {
        Self { ptr, mark: false, flag: true }
    }

    /// Packs the successor into one word.
    pub fn into_packed(self) -> (val: usize)
        requires
            self.ptr <= MAX_PTR,
        ensures
            val == packed_spec(self),
    {
        let p = self.ptr;
        let mut val: usize = p * 4;
        if self.mark {
            assert(val | MARK_BIT == val + 1) by (bit_vector)
                requires
                    val % 4 == 0,
            ;
            val = val | MARK_BIT;
        }
        if self.flag {
            let v0 = val;
            assert(v0 | FLAG_BIT == v0 + 2) by (bit_vector)
                requires
                    v0 % 4 == 0 || v0 % 4 == 1,
            ;
            val = val | FLAG_BIT;
        }
        val
    }

    /// Unpacks a word into a successor value.
    pub fn from_packed(val: usize) -> (s: Self)
        ensures
            s == unpacked_spec(val),
    {
        let ptr = val >> CONTROL_BITS;
        let mark = (val & MARK_BIT) != 0;
        let flag = (val & FLAG_BIT) != 0;
        assert(ptr == val / 4) by (bit_vector)
            requires
                ptr == val >> 2usize,
        ;
        assert(mark == (val % 2 == 1)) by (bit_vector)
            requires
                mark == ((val & 1usize) != 0usize),
        ;
        assert(flag == ((val / 2) % 2 == 1)) by (bit_vector)
            requires
                flag == ((val & 2usize) != 0usize),
        ;
        Self { ptr, mark, flag }
    }
}

/// Unpacking a packed successor gives it back.
#[verifier::spinoff_prover]
pub proof fn lemma_unpack_pack(s: SuccData)
    requires
        s.ptr <= MAX_PTR,
    ensures
        0 <= packed_spec(s) <= usize::MAX,
        unpacked_spec(packed_spec(s) as usize) == s,
{
    let p = s.ptr as int;
    let r: int = (if s.mark { 1int } else { 0 }) + (if s.flag { 2int } else { 0 });
    let v = packed_spec(s);
    assert(v == p * 4 + r);
    assert(0 <= r < 4);
    assert(v / 4 == p && v % 4 == r) by (nonlinear_arith)
        requires
            v == p * 4 + r,
            0 <= r < 4,
            p >= 0,
    ;
    assert(v % 2 == r % 2 && (v / 2) % 2 == r / 2) by (nonlinear_arith)
        requires
            v == p * 4 + r,
            0 <= r < 4,
            p >= 0,
    ;
}

/// Packing an unpacked word gives the word back.
#[verifier::spinoff_prover]
pub proof fn lemma_pack_unpack(v: usize)
    ensures
        unpacked_spec(v).ptr <= MAX_PTR,
        packed_spec(unpacked_spec(v)) == v,
{
}

/// A successor word: the packed form of a `SuccData`, read and updated as a whole.
pub struct AtomicSucc {
    inner: usize,
}

impl View for AtomicSucc {
    type V = SuccData;

    closed spec fn view(&self) -> SuccData {
        unpacked_spec(self.inner)
    }
}

impl AtomicSucc {
    /// A word holding `initial`.
    pub fn new(initial: SuccData) -> (a: Self)
        requires
            initial.ptr <= MAX_PTR,
        ensures
            a@ == initial,
    {
        let inner = initial.into_packed();
        proof {
            lemma_unpack_pack(initial);
        }
        Self { inner }
    }

    /// Reads the successor.
    pub fn load(&self) -> (s: SuccData)
        ensures
            s == self@,
            s.ptr <= MAX_PTR,
    {
        SuccData::from_packed(self.inner)
    }

    /// Overwrites the successor.
    pub fn store(&mut self, data: SuccData)
        requires
            data.ptr <= MAX_PTR,
        ensures
            final(self)@ == data,
    {
        self.inner = data.into_packed();
        proof {
            lemma_unpack_pack(data);
        }
    }

    /// Replaces the successor with `new` if it equals `expected`. Gives `Ok` with the
    /// previous successor when it did, `Err` with the successor found when it did not.
    pub fn compare_exchange(&mut self, expected: SuccData, new: SuccData) -> (r: Result<
        SuccData,
        SuccData,
    >)
        requires
            expected.ptr <= MAX_PTR,
            new.ptr <= MAX_PTR,
        ensures
            old(self)@ == expected ==> final(self)@ == new && r == Ok::<SuccData, SuccData>(
                expected,
            ),
            old(self)@ != expected ==> final(self)@ == old(self)@ && r == Err::<
                SuccData,
                SuccData,
            >(old(self)@),
            old(self)@ != expected ==> *final(self) == *old(self),
    {
        let current = self.inner;
        let exp = expected.into_packed();
        proof {
            lemma_unpack_pack(expected);
            lemma_pack_unpack(current);
        }
        if current == exp {
            self.inner = new.into_packed();
            proof {
                lemma_unpack_pack(new);
            }
            Ok(SuccData::from_packed(current))
        } else {
            Err(SuccData::from_packed(current))
        }
    }
}

impl Default for AtomicSucc {
    /// A clean word with a null successor.
    fn default() -> (a: Self)
        ensures
            a@ == (SuccData { ptr: 0, mark: false, flag: false }),
    {
        Self::new(SuccData::new(0))
    }
}

/// The successor value of a clean link to `ptr`.
pub open spec fn clean(ptr: int) -> SuccData {
    SuccData { ptr: ptr as usize, mark: false, flag: false }
}

/// A node of a list: a key, an optional element (none for dummy nodes), a backlink
/// used to recover after a deletion, and a successor word.
pub trait Node<K, V>: Sized {
    /// The node's key.
    spec fn key_view(&self) -> K;

    /// The node's element.
    spec fn element_view(&self) -> Option<V>;

    /// The node's backlink (0 is null).
    spec fn backlink_view(&self) -> usize;

    /// The node's successor.
    spec fn succ_view(&self) -> SuccData;

    fn key(&self) -> (k: &K)
        ensures
            *k == self.key_view(),
    ;

    fn element(&self) -> (e: Option<&V>)
        ensures
            e.is_some() == self.element_view().is_some(),
            e.is_some() ==> *e.unwrap() == self.element_view().unwrap(),
    ;

    fn load_backlink(&self) -> (b: usize)
        ensures
            b == self.backlink_view(),
    ;

    fn store_backlink(&mut self, new_val: usize)
        ensures
            final(self).backlink_view() == new_val,
            final(self).key_view() == old(self).key_view(),
            final(self).element_view() == old(self).element_view(),
            final(self).succ_view() == old(self).succ_view(),
    ;

    fn load_successor(&self) -> (s: SuccData)
        ensures
            s == self.succ_view(),
            s.ptr <= MAX_PTR,
    ;

    fn store_successor(&mut self, new_val: SuccData)
        requires
            new_val.ptr <= MAX_PTR,
        ensures
            final(self).succ_view() == new_val,
            final(self).key_view() == old(self).key_view(),
            final(self).element_view() == old(self).element_view(),
            final(self).backlink_view() == old(self).backlink_view(),
    ;

    fn swap_successor(&mut self, expected: SuccData, new_val: SuccData) -> (r: Result<
        SuccData,
        SuccData,
    >)
        requires
            expected.ptr <= MAX_PTR,
            new_val.ptr <= MAX_PTR,
        ensures
            old(self).succ_view() == expected ==> final(self).succ_view() == new_val && r == Ok::<
                SuccData,
                SuccData,
            >(expected),
            old(self).succ_view() != expected ==> final(self).succ_view() == old(self).succ_view()
                && r == Err::<SuccData, SuccData>(old(self).succ_view()),
            old(self).succ_view() != expected ==> *final(self) == *old(self),
            final(self).key_view() == old(self).key_view(),
            final(self).element_view() == old(self).element_view(),
            final(self).backlink_view() == old(self).backlink_view(),
    ;
}

/// The handle of the node after position `j` of a run of node indices, 0 after the last.
pub open spec fn next_handle(run: Seq<int>, j: int) -> int {
    if j + 1 < run.len() {
        run[j + 1] + 1
    } else {
        0
    }
}

/// `run` lists node indices that are linked one to the next by clean successors,
/// the last one to null, and each of them holds an element.
pub open spec fn linked_run<K, V, N: Node<K, V>>(nodes: Seq<N>, run: Seq<int>) -> bool {
    forall|j: int|
        0 <= j < run.len() ==> {
            &&& 0 <= #[trigger] run[j] < nodes.len()
            &&& nodes[run[j]].succ_view() == clean(next_handle(run, j))
            &&& nodes[run[j]].element_view().is_some()
        }
}

/// The key and element pairs of the nodes at the indices of `run`.
pub open spec fn run_entries<K, V, N: Node<K, V>>(nodes: Seq<N>, run: Seq<int>) -> Seq<(K, V)> {
    Seq::new(
        run.len(),
        |j: int| (nodes[run[j]].key_view(), nodes[run[j]].element_view().unwrap()),
    )
}

/// `run` lists node indices each linked to the next by its successor word (whatever
/// its mark and flag), the last one to null.
pub open spec fn chain_run<K, V, N: Node<K, V>>(nodes: Seq<N>, run: Seq<int>) -> bool {
    forall|j: int|
        0 <= j < run.len() ==> {
            &&& 0 <= #[trigger] run[j] < nodes.len()
            &&& nodes[run[j]].succ_view().ptr == next_handle(run, j) as usize
        }
}

/// The node at index `i` is one that a walk yields: not marked, and holding an element.
pub open spec fn visible_node<K, V, N: Node<K, V>>(nodes: Seq<N>, i: int) -> bool {
    !nodes[i].succ_view().mark && nodes[i].element_view().is_some()
}

/// The key and element pairs of the nodes of `run` that a walk yields, in order.
pub open spec fn visible_entries<K, V, N: Node<K, V>>(nodes: Seq<N>, run: Seq<int>) -> Seq<(K, V)>
    decreases run.len(),
{
    if run.len() == 0 {
        Seq::empty()
    } else {
        let rest = visible_entries(nodes, run.drop_first());
        if visible_node(nodes, run[0]) {
            seq![(nodes[run[0]].key_view(), nodes[run[0]].element_view().unwrap())] + rest
        } else {
            rest
        }
    }
}

/// A run of clean nodes that all hold elements is a chain whose nodes are all yielded.
pub proof fn lemma_linked_run_visible<K, V, N: Node<K, V>>(nodes: Seq<N>, run: Seq<int>)
    requires
        linked_run(nodes, run),
    ensures
        chain_run(nodes, run),
        visible_entries(nodes, run) == run_entries(nodes, run),
    decreases run.len(),
{
    if run.len() > 0 {
        let tail = run.drop_first();
        assert forall|j: int| 0 <= j < tail.len() implies {
            &&& 0 <= #[trigger] tail[j] < nodes.len()
            &&& nodes[tail[j]].succ_view() == clean(next_handle(tail, j))
            &&& nodes[tail[j]].element_view().is_some()
        } by {
            assert(tail[j] == run[j + 1]);
            assert(next_handle(tail, j) == next_handle(run, j + 1));
        }
        lemma_linked_run_visible(nodes, tail);
        assert(0 <= run[0] < nodes.len());
        assert(visible_node(nodes, run[0]));
        assert(visible_entries(nodes, run) =~= run_entries(nodes, run)) by {
            assert forall|j: int| 0 < j < run.len() implies run_entries(nodes, run)[j] == run_entries(
                nodes,
                tail,
            )[j - 1] by {
                assert(tail[j - 1] == run[j]);
            }
        }
    }
}

/// A walk along the successor words of a list's nodes, from a starting node to the
/// end, yielding the nodes that are not marked and hold an element.
pub struct NodeIter<'a, K, V, N> {
    nodes: &'a Vec<N>,
    next_ptr: usize,
    rest: Ghost<Seq<int>>,
    _marker: PhantomData<(&'a K, &'a V)>,
}

impl<'a, K, V, N: Node<K, V>> NodeIter<'a, K, V, N> {
    /// The walk is consistent: the nodes still to visit are chained from `next_ptr`.
    pub closed spec fn wf(&self) -> bool {
        &&& chain_run(self.nodes@, self.rest@)
        &&& self.next_ptr == (if self.rest@.len() == 0 {
            0
        } else {
            self.rest@[0] + 1
        })
    }

    /// The pairs that the walk has still to give, in order.
    pub closed spec fn remaining(&self) -> Seq<(K, V)> {
        visible_entries(self.nodes@, self.rest@)
    }

    /// A walk from the node with handle `ptr` along the chain `rest` of nodes.
    pub fn new(nodes: &'a Vec<N>, ptr: usize, rest: Ghost<Seq<int>>) -> (it: Self)
        requires
            chain_run(nodes@, rest@),
            ptr == (if rest@.len() == 0 {
                0
            } else {
                rest@[0] + 1
            }),
        ensures
            it.wf(),
            it.remaining() == visible_entries(nodes@, rest@),
            linked_run(nodes@, rest@) ==> it.remaining() == run_entries(nodes@, rest@),
    {
        proof {
            if linked_run(nodes@, rest@) {
                lemma_linked_run_visible(nodes@, rest@);
            }
        }
        Self { nodes, next_ptr: ptr, rest, _marker: PhantomData }
    }

    /// The next pair, skipping marked nodes and nodes without an element; `None` at
    /// the end.
    pub fn next(&mut self) -> (r: Option<(&'a K, &'a V)>)
        requires
            old(self).wf(),
        ensures
            final(self).wf(),
            old(self).remaining().len() == 0 ==> r.is_none() && final(self).remaining()
                == old(self).remaining(),
            old(self).remaining().len() > 0 ==> {
                &&& r.is_some()
                &&& *r.unwrap().0 == old(self).remaining()[0].0
                &&& *r.unwrap().1 == old(self).remaining()[0].1
                &&& final(self).remaining() == old(self).remaining().drop_first()
            },
    {
        let nodes: &'a Vec<N> = self.nodes;
        while self.next_ptr != 0
            invariant
                self.nodes == nodes,
                self.wf(),
                self.remaining() == old(self).remaining(),
            decreases self.rest@.len(),
        {
            let idx = self.next_ptr - 1;
            let node: &'a N = &nodes[idx];
            let succ_val = node.load_successor();
            let ghost old_rest = self.rest@;
            proof {
                assert(old_rest[0] == idx);
                assert(nodes@[old_rest[0]].succ_view().ptr == next_handle(old_rest, 0) as usize);
                assert(nodes@.len() == nodes.len());
            }
            self.next_ptr = succ_val.ptr;
            self.rest = Ghost(self.rest@.drop_first());
            proof {
                assert(chain_run(nodes@, self.rest@)) by {
                    assert forall|j: int| 0 <= j < self.rest@.len() implies {
                        &&& 0 <= #[trigger] self.rest@[j] < nodes@.len()
                        &&& nodes@[self.rest@[j]].succ_view().ptr == next_handle(self.rest@, j) as usize
                    } by {
                        assert(self.rest@[j] == old_rest[j + 1]);
                        assert(next_handle(self.rest@, j) == next_handle(old_rest, j + 1));
                    }
                }
                if old_rest.len() > 1 {
                    assert(next_handle(old_rest, 0) == old_rest[1] + 1);
                    assert(self.rest@[0] == old_rest[1]);
                }
                assert(self.wf());
                assert(old_rest.drop_first() == self.rest@);
            }
            if !succ_val.mark {
                match node.element() {
                    Some(val) => {
                        proof {
                            assert(visible_node(nodes@, old_rest[0]));
                            assert(visible_entries(nodes@, old_rest) == seq![
                                (nodes@[old_rest[0]].key_view(), nodes@[old_rest[0]].element_view().unwrap()),
                            ] + visible_entries(nodes@, self.rest@));
                            assert(visible_entries(nodes@, old_rest).drop_first() =~= visible_entries(
                                nodes@,
                                self.rest@,
                            ));
                        }
                        return Some((node.key(), val));
                    },
                    None => {},
                }
            }
            proof {
                assert(!visible_node(nodes@, old_rest[0]));
                assert(visible_entries(nodes@, old_rest) == visible_entries(nodes@, self.rest@));
            }
        }
        proof {
            assert(self.rest@.len() == 0);
        }
        None
    }
}

/// The first index of `keys` whose key stands for the same integer as `keys[i]`
/// is `i` itself.
pub open spec fn first_occurrence<K: ListKey>(keys: Seq<K>, i: int) -> bool {
    forall|j: int| 0 <= j < i ==> (#[trigger] keys[j]).key_int() != keys[i].key_int()
}

/// Index `a` of `keys` goes before index `b`: by key, then by index.
pub open spec fn goes_before<K: ListKey>(keys: Seq<K>, a: int, b: int) -> bool {
    keys[a].key_int() < keys[b].key_int() || (keys[a].key_int() == keys[b].key_int() && a < b)
}

/// Some position below `bound` of `order` holds `v`.
pub open spec fn holds_index(order: Seq<usize>, v: int, bound: int) -> bool {
    exists|s: int| 0 <= s < bound && #[trigger] order[s] == v
}

/// `order` lists every index of `keys` once, by key and then by index.
pub open spec fn is_key_order<K: ListKey>(keys: Seq<K>, order: Seq<usize>) -> bool {
    &&& order.len() == keys.len()
    &&& forall|s: int| 0 <= s < order.len() ==> #[trigger] order[s] < keys.len()
    &&& forall|v: int| 0 <= v < keys.len() ==> #[trigger] holds_index(order, v, order.len() as int)
    &&& forall|a: int, b: int|
        0 <= a < b < order.len() ==> goes_before(keys, #[trigger] order[a] as int, #[trigger] order[b] as int)
}

/// In a key order, an index is not the first occurrence of its key just when the
/// index before it in the order has the same key.
pub proof fn lemma_key_order_first<K: ListKey>(keys: Seq<K>, order: Seq<usize>, s: int)
    requires
        is_key_order(keys, order),
        0 <= s < order.len(),
    ensures
        !first_occurrence(keys, order[s] as int) <==> (s > 0 && keys[order[s - 1] as int].key_int()
            == keys[order[s] as int].key_int()),
        s > 0 ==> keys[order[s - 1] as int].key_int() <= keys[order[s] as int].key_int(),
{
    let o = order[s] as int;
    if s > 0 {
        assert(goes_before(keys, order[s - 1] as int, o));
    }
    if !first_occurrence(keys, o) {
        let j = choose|j: int| 0 <= j < o && (#[trigger] keys[j]).key_int() == keys[o].key_int();
        assert(holds_index(order, j, order.len() as int));
        let t = choose|t: int| 0 <= t < order.len() && #[trigger] order[t] == j;
        if t > s {
            assert(goes_before(keys, o, order[t] as int));
        }
        assert(t != s);
        assert(t < s);
        if t < s - 1 {
            assert(goes_before(keys, order[t] as int, order[s - 1] as int));
        }
    }
    if s > 0 && keys[order[s - 1] as int].key_int() == keys[o].key_int() {
        assert(order[s - 1] < o);
        assert((keys[order[s - 1] as int]).key_int() == keys[o].key_int());
    }
}

/// The indices of `keys`, ordered by key and then by index (a stable insertion sort).
pub fn key_order<K: ListKey>(keys: &[K]) -> (order: Vec<usize>)
    ensures
        is_key_order(keys@, order@),
{
    let n = keys.len();
    let mut order: Vec<usize> = Vec::new();
    let mut i: usize = 0;
    while i < n
        invariant
            n == keys@.len(),
            i <= n,
            order@.len() == i,
            forall|s: int| 0 <= s < i ==> #[trigger] order@[s] == s,
        decreases n - i,
    {
        order.push(i);
        i = i + 1;
    }
    let mut i: usize = 0;
    while i < n
        invariant
            n == keys@.len(),
            i <= n,
            order@.len() == n,
            forall|s: int| i <= s < n ==> #[trigger] order@[s] == s,
            forall|s: int| 0 <= s < i ==> #[trigger] order@[s] < i,
            forall|v: int| 0 <= v < i ==> #[trigger] holds_index(order@, v, i as int),
            forall|a: int, b: int|
                0 <= a < b < i ==> goes_before(keys@, #[trigger] order@[a] as int, #[trigger] order@[b] as int),
        decreases n - i,
    {
        let mut j: usize = i;
        proof {
            assert forall|v: int| 0 <= v <= i implies #[trigger] holds_index(order@, v, i + 1) by {
                if v < i {
                    assert(holds_index(order@, v, i as int));
                    let s0 = choose|s: int| 0 <= s < i && #[trigger] order@[s] == v;
                    assert(order@[s0] == v);
                } else {
                    assert(order@[i as int] == v);
                }
            }
        }
        while j > 0 && keys[order[j]].key_lt(&keys[order[j - 1]])
            invariant
                n == keys@.len(),
                i < n,
                j <= i,
                order@.len() == n,
                order@[j as int] == i,
                forall|s: int| i < s < n ==> #[trigger] order@[s] == s,
                forall|s: int| 0 <= s <= i && s != j ==> #[trigger] order@[s] < i,
                forall|v: int| 0 <= v <= i ==> #[trigger] holds_index(order@, v, i + 1),
                forall|a: int, b: int|
                    0 <= a < b <= i && a != j && b != j ==> goes_before(
                        keys@,
                        #[trigger] order@[a] as int,
                        #[trigger] order@[b] as int,
                    ),
                forall|b: int| j < b <= i ==> goes_before(keys@, i as int, #[trigger] order@[b] as int),
            decreases j,
        {
            let ghost prev_order = order@;
            let t = order[j];
            let u = order[j - 1];
            order.set(j, u);
            order.set(j - 1, t);
            proof {
                assert forall|v: int| 0 <= v <= i implies #[trigger] holds_index(order@, v, i + 1) by {
                    assert(holds_index(prev_order, v, i + 1));
                    let s0 = choose|s: int| 0 <= s < i + 1 && #[trigger] prev_order[s] == v;
                    if s0 == j {
                        assert(order@[j - 1] == v);
                    } else if s0 == j - 1 {
                        assert(order@[j as int] == v);
                    } else {
                        assert(order@[s0] == v);
                    }
                }
                assert forall|a: int, b: int|
                    0 <= a < b <= i && a != j - 1 && b != j - 1 implies goes_before(
                        keys@,
                        #[trigger] order@[a] as int,
                        #[trigger] order@[b] as int,
                    ) by {
                    let pa = if a == j { j - 1 } else { a };
                    let pb = if b == j { j - 1 } else { b };
                    assert(order@[a] == prev_order[pa]);
                    assert(order@[b] == prev_order[pb]);
                }
                assert forall|b: int| j - 1 < b <= i implies goes_before(keys@, i as int, #[trigger] order@[b] as int) by {
                    if b == j {
                        assert(order@[b] == u);
                    } else {
                        assert(order@[b] == prev_order[b]);
                    }
                }
            }
            j = j - 1;
        }
        proof {
            assert forall|a: int, b: int| 0 <= a < b <= i implies goes_before(
                keys@,
                #[trigger] order@[a] as int,
                #[trigger] order@[b] as int,
            ) by {
                if b == j {
                    if a < j - 1 {
                        assert(goes_before(keys@, order@[a] as int, order@[j - 1] as int));
                    }
                    assert(order@[j - 1] < i);
                } else if a == j {
                } else {
                }
            }
            assert forall|s: int| 0 <= s <= i implies #[trigger] order@[s] < i + 1 by {}
        }
        i = i + 1;
    }
    order
}

/// An ordered list of keys and elements.
pub trait List<K: ListKey, V, N: Node<K, V>>: Sized {
    /// The list is consistent.
    spec fn list_wf(&self) -> bool;

    /// The key and element pairs of the list, in key order.
    spec fn list_entries(&self) -> Seq<(K, V)>;

    /// Whether the list holds `key`. A `true` is always right; a `false` may come for
    /// a held key where the list's own search does not promise to find it.
    fn contains(&mut self, key: &K) -> (found: bool)
        requires
            old(self).list_wf(),
        ensures
            final(self).list_wf(),
            final(self).list_entries() == old(self).list_entries(),
            found ==> has_key(old(self).list_entries(), key.key_int()),
    ;

    /// For each key of `keys`, whether the list holds it; a key that occurs again in
    /// `keys` is reported only at its first occurrence.
    fn contains_many(&mut self, keys: &[K]) -> (found: Vec<bool>)
        requires
            old(self).list_wf(),
        ensures
            final(self).list_wf(),
            final(self).list_entries() == old(self).list_entries(),
            found@.len() == keys@.len(),
            forall|i: int|
                0 <= i < keys@.len() ==> found@[i] == (has_key(
                    old(self).list_entries(),
                    keys@[i].key_int(),
                ) && first_occurrence(keys@, i)),
    ;

    /// Whether the list holds no entry.
    fn is_empty(&self) -> (empty: bool)
        requires
            self.list_wf(),
        ensures
            empty == (self.list_entries().len() == 0),
    ;

    /// The element of `key`. A `Some` is always right; a `None` may come for a held key
    /// where the list's own search does not promise to find it.
    fn get<'a>(&'a mut self, key: &K) -> (r: Option<&'a V>)
        requires
            old(self).list_wf(),
        ensures
            final(self).list_wf(),
            final(self).list_entries() == old(self).list_entries(),
            r.is_some() ==> exists|i: int|
                0 <= i < old(self).list_entries().len() && old(self).list_entries()[i].0.key_int()
                    == key.key_int() && *r.unwrap() == old(self).list_entries()[i].1,
    ;

    /// A walk over the entries in key order.
    fn iter<'a>(&'a self) -> (it: NodeIter<'a, K, V, N>)
        requires
            self.list_wf(),
        ensures
            it.wf(),
            it.remaining() == self.list_entries(),
    ;

    /// Removes the first entry and gives its key and element.
    fn pop_front<'a>(&'a mut self) -> (r: Option<(&'a K, &'a V)>)
        requires
            old(self).list_wf(),
        ensures
            final(self).list_wf(),
            old(self).list_entries().len() == 0 ==> r.is_none() && final(self).list_entries()
                == old(self).list_entries(),
            old(self).list_entries().len() > 0 ==> {
                &&& r.is_some()
                &&& *r.unwrap().0 == old(self).list_entries()[0].0
                &&& *r.unwrap().1 == old(self).list_entries()[0].1
                &&& final(self).list_entries() == old(self).list_entries().drop_first()
            },
    ;
}

} // verus!
