use vstd::prelude::*;

verus! {

/// Keys of an ordered list: each key stands for an integer, and keys are ordered and
/// compared by it.
pub trait ListKey: Sized {
    /// The integer that the key stands for.
    spec fn key_int(&self) -> int;

    /// Two keys that stand for the same integer are the same key.
    proof fn lemma_key_int_injective(a: &Self, b: &Self)
        requires
            a.key_int() == b.key_int(),
        ensures
            *a == *b,
    ;

    /// Every key stands for an integer of at most 64 bits.
    proof fn lemma_key_int_bounded(k: &Self)
        ensures
            -0x1_0000_0000_0000_0000 <= k.key_int() <= 0x1_0000_0000_0000_0000,
    ;

    fn key_lt(&self, other: &Self) -> (b: bool)
        ensures
            b == (self.key_int() < other.key_int()),
    ;

    fn key_eq(&self, other: &Self) -> (b: bool)
        ensures
            b == (self.key_int() == other.key_int()),
    ;

    /// The key given to dummy nodes: the default key, which stands for 0.
    fn key_default() -> (k: Self)
        ensures
            k.key_int() == 0,
    ;

    fn key_clone(&self) -> (k: Self)
        ensures
            k == *self,
    ;
}

impl ListKey for i8 {
    open spec fn key_int(&self) -> int {
        *self as int
    }

    proof fn lemma_key_int_injective(a: &Self, b: &Self) {
    }

    proof fn lemma_key_int_bounded(k: &Self) {
    }

    fn key_lt(&self, other: &Self) -> (b: bool) {
        *self < *other
    }

    fn key_eq(&self, other: &Self) -> (b: bool) {
        *self == *other
    }

    fn key_default() -> (k: Self) {
        0
    }

    fn key_clone(&self) -> (k: Self) {
        *self
    }
}

impl ListKey for i16 {
    open spec fn key_int(&self) -> int {
        *self as int
    }

    proof fn lemma_key_int_injective(a: &Self, b: &Self) {
    }

    proof fn lemma_key_int_bounded(k: &Self) {
    }

    fn key_lt(&self, other: &Self) -> (b: bool) {
        *self < *other
    }

    fn key_eq(&self, other: &Self) -> (b: bool) {
        *self == *other
    }

    fn key_default() -> (k: Self) {
        0
    }

    fn key_clone(&self) -> (k: Self) {
        *self
    }
}

impl ListKey for i32 {
    open spec fn key_int(&self) -> int {
        *self as int
    }

    proof fn lemma_key_int_injective(a: &Self, b: &Self) {
    }

    proof fn lemma_key_int_bounded(k: &Self) {
    }

    fn key_lt(&self, other: &Self) -> (b: bool) {
        *self < *other
    }

    fn key_eq(&self, other: &Self) -> (b: bool) {
        *self == *other
    }

    fn key_default() -> (k: Self) {
        0
    }

    fn key_clone(&self) -> (k: Self) {
        *self
    }
}

impl ListKey for i64 {
    open spec fn key_int(&self) -> int {
        *self as int
    }

    proof fn lemma_key_int_injective(a: &Self, b: &Self) {
    }

    proof fn lemma_key_int_bounded(k: &Self) {
    }

    fn key_lt(&self, other: &Self) -> (b: bool) {
        *self < *other
    }

    fn key_eq(&self, other: &Self) -> (b: bool) {
        *self == *other
    }

    fn key_default() -> (k: Self) {
        0
    }

    fn key_clone(&self) -> (k: Self) {
        *self
    }
}

impl ListKey for isize {
    open spec fn key_int(&self) -> int {
        *self as int
    }

    proof fn lemma_key_int_injective(a: &Self, b: &Self) {
    }

    proof fn lemma_key_int_bounded(k: &Self) {
    }

    fn key_lt(&self, other: &Self) -> (b: bool) {
        *self < *other
    }

    fn key_eq(&self, other: &Self) -> (b: bool) {
        *self == *other
    }

    fn key_default() -> (k: Self) {
        0
    }

    fn key_clone(&self) -> (k: Self) {
        *self
    }
}

impl ListKey for u8 {
    open spec fn key_int(&self) -> int {
        *self as int
    }

    proof fn lemma_key_int_injective(a: &Self, b: &Self) {
    }

    proof fn lemma_key_int_bounded(k: &Self) {
    }

    fn key_lt(&self, other: &Self) -> (b: bool) {
        *self < *other
    }

    fn key_eq(&self, other: &Self) -> (b: bool) {
        *self == *other
    }

    fn key_default() -> (k: Self) {
        0
    }

    fn key_clone(&self) -> (k: Self) {
        *self
    }
}

impl ListKey for u16 {
    open spec fn key_int(&self) -> int {
        *self as int
    }

    proof fn lemma_key_int_injective(a: &Self, b: &Self) {
    }

    proof fn lemma_key_int_bounded(k: &Self) {
    }

    fn key_lt(&self, other: &Self) -> (b: bool) {
        *self < *other
    }

    fn key_eq(&self, other: &Self) -> (b: bool) {
        *self == *other
    }

    fn key_default() -> (k: Self) {
        0
    }

    fn key_clone(&self) -> (k: Self) {
        *self
    }
}

impl ListKey for u32 {
    open spec fn key_int(&self) -> int {
        *self as int
    }

    proof fn lemma_key_int_injective(a: &Self, b: &Self) {
    }

    proof fn lemma_key_int_bounded(k: &Self) {
    }

    fn key_lt(&self, other: &Self) -> (b: bool) {
        *self < *other
    }

    fn key_eq(&self, other: &Self) -> (b: bool) {
        *self == *other
    }

    fn key_default() -> (k: Self) {
        0
    }

    fn key_clone(&self) -> (k: Self) {
        *self
    }
}

impl ListKey for u64 {
    open spec fn key_int(&self) -> int {
        *self as int
    }

    proof fn lemma_key_int_injective(a: &Self, b: &Self) {
    }

    proof fn lemma_key_int_bounded(k: &Self) {
    }

    fn key_lt(&self, other: &Self) -> (b: bool) {
        *self < *other
    }

    fn key_eq(&self, other: &Self) -> (b: bool) {
        *self == *other
    }

    fn key_default() -> (k: Self) {
        0
    }

    fn key_clone(&self) -> (k: Self) {
        *self
    }
}

impl ListKey for usize {
    open spec fn key_int(&self) -> int {
        *self as int
    }

    proof fn lemma_key_int_injective(a: &Self, b: &Self) {
    }

    proof fn lemma_key_int_bounded(k: &Self) {
    }

    fn key_lt(&self, other: &Self) -> (b: bool) {
        *self < *other
    }

    fn key_eq(&self, other: &Self) -> (b: bool) {
        *self == *other
    }

    fn key_default() -> (k: Self) {
        0
    }

    fn key_clone(&self) -> (k: Self) {
        *self
    }
}

/// A key of type `i8` stands for its numeric value: keys compare, and lists of such
/// keys are ordered, by value.
pub proof fn law_i8_key_is_value(a: i8, b: i8)
    ensures
        a.key_int() == a as int,
        (a.key_int() < b.key_int()) <==> (a < b),
        (a.key_int() == b.key_int()) <==> (a == b),
{
}

/// A key of type `i16` stands for its numeric value: keys compare, and lists of such
/// keys are ordered, by value.
pub proof fn law_i16_key_is_value(a: i16, b: i16)
    ensures
        a.key_int() == a as int,
        (a.key_int() < b.key_int()) <==> (a < b),
        (a.key_int() == b.key_int()) <==> (a == b),
{
}

/// A key of type `i32` stands for its numeric value: keys compare, and lists of such
/// keys are ordered, by value.
pub proof fn law_i32_key_is_value(a: i32, b: i32)
    ensures
        a.key_int() == a as int,
        (a.key_int() < b.key_int()) <==> (a < b),
        (a.key_int() == b.key_int()) <==> (a == b),
{
}

/// A key of type `i64` stands for its numeric value: keys compare, and lists of such
/// keys are ordered, by value.
pub proof fn law_i64_key_is_value(a: i64, b: i64)
    ensures
        a.key_int() == a as int,
        (a.key_int() < b.key_int()) <==> (a < b),
        (a.key_int() == b.key_int()) <==> (a == b),
{
}

/// A key of type `isize` stands for its numeric value: keys compare, and lists of such
/// keys are ordered, by value.
pub proof fn law_isize_key_is_value(a: isize, b: isize)
    ensures
        a.key_int() == a as int,
        (a.key_int() < b.key_int()) <==> (a < b),
        (a.key_int() == b.key_int()) <==> (a == b),
{
}

/// A key of type `u8` stands for its numeric value: keys compare, and lists of such
/// keys are ordered, by value.
pub proof fn law_u8_key_is_value(a: u8, b: u8)
    ensures
        a.key_int() == a as int,
        (a.key_int() < b.key_int()) <==> (a < b),
        (a.key_int() == b.key_int()) <==> (a == b),
{
}

/// A key of type `u16` stands for its numeric value: keys compare, and lists of such
/// keys are ordered, by value.
pub proof fn law_u16_key_is_value(a: u16, b: u16)
    ensures
        a.key_int() == a as int,
        (a.key_int() < b.key_int()) <==> (a < b),
        (a.key_int() == b.key_int()) <==> (a == b),
{
}

/// A key of type `u32` stands for its numeric value: keys compare, and lists of such
/// keys are ordered, by value.
pub proof fn law_u32_key_is_value(a: u32, b: u32)
    ensures
        a.key_int() == a as int,
        (a.key_int() < b.key_int()) <==> (a < b),
        (a.key_int() == b.key_int()) <==> (a == b),
{
}

/// A key of type `u64` stands for its numeric value: keys compare, and lists of such
/// keys are ordered, by value.
pub proof fn law_u64_key_is_value(a: u64, b: u64)
    ensures
        a.key_int() == a as int,
        (a.key_int() < b.key_int()) <==> (a < b),
        (a.key_int() == b.key_int()) <==> (a == b),
{
}

/// A key of type `usize` stands for its numeric value: keys compare, and lists of such
/// keys are ordered, by value.
pub proof fn law_usize_key_is_value(a: usize, b: usize)
    ensures
        a.key_int() == a as int,
        (a.key_int() < b.key_int()) <==> (a < b),
        (a.key_int() == b.key_int()) <==> (a == b),
{
}

} // verus!

verus! {

/// Some entry of `entries` has a key that stands for `k`.
pub open spec fn has_key<K: ListKey, V>(entries: Seq<(K, V)>, k: int) -> bool {
    exists|i: int| 0 <= i < entries.len() && (#[trigger] entries[i]).0.key_int() == k
}

/// The keys of `entries` are strictly increasing.
pub open spec fn sorted_entries<K: ListKey, V>(entries: Seq<(K, V)>) -> bool {
    forall|a: int, b: int|
        0 <= a < b < entries.len() ==> (#[trigger] entries[a]).0.key_int() < (
        #[trigger] entries[b]).0.key_int()
}

} // verus!

verus! {

/// `after` is `before` with `(key, value)` put in its place, or `before` itself when
/// `key` was already there.
pub open spec fn inserted_into<K: ListKey, V>(
    before: Seq<(K, V)>,
    after: Seq<(K, V)>,
    key: K,
    value: V,
) -> bool {
    if has_key(before, key.key_int()) {
        after == before
    } else {
        exists|p: int| 0 <= p <= before.len() && after == before.insert(p, (key, value))
    }
}

/// `after` is `before` without its entry with key `k`, or `before` itself when there
/// is none.
pub open spec fn removed_from<K: ListKey, V>(before: Seq<(K, V)>, after: Seq<(K, V)>, k: int) -> bool {
    if has_key(before, k) {
        exists|p: int| 0 <= p < before.len() && before[p].0.key_int() == k && after == before.remove(p)
    } else {
        after == before
    }
}

/// In a sorted list no two entries have the same key.
pub proof fn law_keys_unique<K: ListKey, V>(entries: Seq<(K, V)>)
    requires
        sorted_entries(entries),
    ensures
        forall|i: int, j: int|
            0 <= i < j < entries.len() ==> (#[trigger] entries[i]).0 != (#[trigger] entries[j]).0,
{
}

/// After an insertion the key is present, and the list grew by one entry exactly when
/// the key was absent.
pub proof fn law_insert_then_contains<K: ListKey, V>(
    before: Seq<(K, V)>,
    after: Seq<(K, V)>,
    key: K,
    value: V,
)
    requires
        inserted_into(before, after, key, value),
    ensures
        has_key(after, key.key_int()),
        after.len() == before.len() + (if has_key(before, key.key_int()) {
            0int
        } else {
            1
        }),
{
    if !has_key(before, key.key_int()) {
        let p = choose|p: int| 0 <= p <= before.len() && after == before.insert(p, (key, value));
        assert(after[p] == (key, value));
    }
}

/// A successful insertion holds the inserted pair; an insertion of a held key keeps
/// the value already there.
pub proof fn law_insert_then_find<K: ListKey, V>(
    before: Seq<(K, V)>,
    after: Seq<(K, V)>,
    key: K,
    value: V,
)
    requires
        inserted_into(before, after, key, value),
    ensures
        !has_key(before, key.key_int()) ==> exists|i: int| 0 <= i < after.len() && after[i] == (key, value),
        has_key(before, key.key_int()) ==> after == before,
{
    if !has_key(before, key.key_int()) {
        let p = choose|p: int| 0 <= p <= before.len() && after == before.insert(p, (key, value));
        assert(after[p] == (key, value));
    }
}

/// Into a sorted list, an insertion has one sorted outcome: whatever else went into it
/// (such as the seed that chose a tower's height) does not change the entries.
pub proof fn law_insert_unique_result<K: ListKey, V>(
    before: Seq<(K, V)>,
    after1: Seq<(K, V)>,
    after2: Seq<(K, V)>,
    key: K,
    value: V,
)
    requires
        sorted_entries(after1),
        sorted_entries(after2),
        inserted_into(before, after1, key, value),
        inserted_into(before, after2, key, value),
    ensures
        after1 == after2,
{
    if !has_key(before, key.key_int()) {
        let p1 = choose|p: int| 0 <= p <= before.len() && after1 == before.insert(p, (key, value));
        let p2 = choose|p: int| 0 <= p <= before.len() && after2 == before.insert(p, (key, value));
        law_insert_in_order(before, after1, key, value, p1);
        law_insert_in_order(before, after2, key, value, p2);
        if p1 < p2 {
            assert(before[p1].0.key_int() < key.key_int());
        } else if p2 < p1 {
            assert(before[p2].0.key_int() < key.key_int());
        }
        assert(p1 == p2);
    }
}

/// An inserted entry goes where the order wants it: after the smaller keys, before the
/// larger ones.
pub proof fn law_insert_in_order<K: ListKey, V>(
    before: Seq<(K, V)>,
    after: Seq<(K, V)>,
    key: K,
    value: V,
    p: int,
)
    requires
        sorted_entries(after),
        0 <= p <= before.len(),
        after == before.insert(p, (key, value)),
    ensures
        forall|i: int| 0 <= i < p ==> (#[trigger] before[i]).0.key_int() < key.key_int(),
        forall|i: int| p <= i < before.len() ==> (#[trigger] before[i]).0.key_int() > key.key_int(),
{
    assert forall|i: int| 0 <= i < p implies (#[trigger] before[i]).0.key_int() < key.key_int() by {
        assert(after[i] == before[i]);
        assert(after[p] == (key, value));
    }
    assert forall|i: int| p <= i < before.len() implies (#[trigger] before[i]).0.key_int() > key.key_int() by {
        assert(after[i + 1] == before[i]);
        assert(after[p] == (key, value));
    }
}

/// Inserting into a sorted list a key above every key it holds appends the entry.
pub proof fn law_insert_largest_appends<K: ListKey, V>(
    before: Seq<(K, V)>,
    after: Seq<(K, V)>,
    key: K,
    value: V,
)
    requires
        sorted_entries(after),
        inserted_into(before, after, key, value),
        forall|i: int| 0 <= i < before.len() ==> (#[trigger] before[i]).0.key_int() < key.key_int(),
    ensures
        after == before.push((key, value)),
{
    assert(!has_key(before, key.key_int()));
    let p = choose|p: int| 0 <= p <= before.len() && after == before.insert(p, (key, value));
    law_insert_in_order(before, after, key, value, p);
    if p < before.len() {
        assert(before[p].0.key_int() > key.key_int());
    }
    assert(after =~= before.push((key, value)));
}

/// Inserting into a sorted list a key below every key it holds puts the entry first.
pub proof fn law_insert_smallest_prepends<K: ListKey, V>(
    before: Seq<(K, V)>,
    after: Seq<(K, V)>,
    key: K,
    value: V,
)
    requires
        sorted_entries(after),
        inserted_into(before, after, key, value),
        forall|i: int| 0 <= i < before.len() ==> (#[trigger] before[i]).0.key_int() > key.key_int(),
    ensures
        after == seq![(key, value)] + before,
{
    assert(!has_key(before, key.key_int()));
    let p = choose|p: int| 0 <= p <= before.len() && after == before.insert(p, (key, value));
    law_insert_in_order(before, after, key, value, p);
    if p > 0 {
        assert(before[0].0.key_int() < key.key_int());
    }
    assert(after =~= seq![(key, value)] + before);
}

/// After a deletion from a sorted list the key is absent.
pub proof fn law_delete_then_absent<K: ListKey, V>(before: Seq<(K, V)>, after: Seq<(K, V)>, k: int)
    requires
        sorted_entries(before),
        removed_from(before, after, k),
    ensures
        !has_key(after, k),
{
    if has_key(before, k) {
        let p = choose|p: int|
            0 <= p < before.len() && before[p].0.key_int() == k && after == before.remove(p);
        if has_key(after, k) {
            let j = choose|j: int| 0 <= j < after.len() && (#[trigger] after[j]).0.key_int() == k;
            if j < p {
                assert(after[j] == before[j]);
            } else {
                assert(after[j] == before[j + 1]);
            }
        }
    }
}

/// Deleting a key just inserted into a sorted list that lacked it gives the list back.
pub proof fn law_insert_then_delete<K: ListKey, V>(
    before: Seq<(K, V)>,
    middle: Seq<(K, V)>,
    after: Seq<(K, V)>,
    key: K,
    value: V,
)
    requires
        sorted_entries(before),
        sorted_entries(middle),
        !has_key(before, key.key_int()),
        inserted_into(before, middle, key, value),
        removed_from(middle, after, key.key_int()),
    ensures
        after == before,
{
    let p = choose|p: int| 0 <= p <= before.len() && middle == before.insert(p, (key, value));
    assert(middle[p] == (key, value));
    assert(has_key(middle, key.key_int()));
    let q = choose|q: int|
        0 <= q < middle.len() && middle[q].0.key_int() == key.key_int() && after == middle.remove(q);
    if q != p {
        if q < p {
            assert(middle[q].0.key_int() < middle[p].0.key_int());
        } else {
            assert(middle[p].0.key_int() < middle[q].0.key_int());
        }
    }
    assert(after =~= before);
}

} // verus!
