//! An array-backed binary max-heap of `(key, payload)` entries.
//!
//! The heap knows nothing about what the payload means. Its contents are
//! modelled as the multiset of its entries; which of several entries with
//! equally great keys leaves first is left open.

use crate::seq_facts::lemma_nothing_in_no_slots;
use core::cmp::Ordering;
use vstd::multiset::Multiset;
use vstd::pervasive::VecAdditionalExecFns;
use vstd::prelude::*;
use vstd::seq_lib::{
    to_multiset_build, to_multiset_contains, to_multiset_insert, to_multiset_len,
    to_multiset_remove, to_multiset_update,
};
use vstd::std_specs::cmp::PartialOrdSpec;

verus! {

/// `a` is strictly below `b` in the order that `<` computes on keys.
pub open spec fn key_lt<K: PartialOrd>(a: K, b: K) -> bool {
    a.partial_cmp_spec(&b) == Some(Ordering::Less)
}

/// What the heap asks of its keys: `<` is computed as specified, and it is a
/// strict weak order (asymmetric, transitive, and "not below" is transitive).
/// Every integer type meets this.
pub open spec fn strict_weak_order<K: PartialOrd>() -> bool {
    &&& K::obeys_partial_cmp_spec()
    &&& forall|a: K, b: K| #[trigger] key_lt(a, b) ==> !key_lt(b, a)
    &&& forall|a: K, b: K, c: K| #[trigger] key_lt(a, b) && #[trigger] key_lt(b, c) ==> key_lt(a, c)
    &&& forall|a: K, b: K, c: K|
        !#[trigger] key_lt(a, b) && !#[trigger] key_lt(b, c) ==> !key_lt(a, c)
}

/// The order of `i64` keys is one that the heap accepts.
pub proof fn lemma_i64_keys_are_ordered()
    ensures
        strict_weak_order::<i64>(),
{
}

/// The slot above slot `i` in the implicit tree.
pub open spec fn parent_of(i: int) -> int {
    (i - 1) / 2
}

/// Slot `i` lies on the way from slot `from` up to the root slot, both ends
/// included.
pub open spec fn on_path(from: int, i: int) -> bool
    decreases from,
{
    i == from || (from > 0 && on_path(parent_of(from), i))
}

/// No slot holds a key above the key of its parent slot.
pub open spec fn heap_ordered<K: PartialOrd, V>(s: Seq<(K, V)>) -> bool {
    forall|i: int| 0 < i < s.len() ==> !key_lt(#[trigger] s[parent_of(i)].0, s[i].0)
}

/// No entry of `m` has a key above `k`.
pub open spec fn is_greatest<K: PartialOrd, V>(k: K, m: Multiset<(K, V)>) -> bool {
    forall|e: (K, V)| m.contains(e) ==> !key_lt(k, #[trigger] e.0)
}

/// `e` may be popped from a heap holding `before`, which then holds `after`:
/// `e` is one of the entries, none has a key above its key, and only `e` has
/// left.
pub open spec fn pops<K: PartialOrd, V>(
    before: Multiset<(K, V)>,
    e: (K, V),
    after: Multiset<(K, V)>,
) -> bool {
    &&& before.contains(e)
    &&& is_greatest(e.0, before)
    &&& after == before.remove(e)
}

/// `out` lists entries in an order in which repeated `pop_max` may hand them
/// out of a heap that holds `m`.
pub open spec fn pop_trace<K: PartialOrd, V>(m: Multiset<(K, V)>, out: Seq<(K, V)>) -> bool
    decreases out.len(),
{
    if out.len() == 0 {
        true
    } else {
        &&& pops(m, out[0], m.remove(out[0]))
        &&& pop_trace(m.remove(out[0]), out.drop_first())
    }
}

/// A priority queue of entries `(key, payload)`, greatest key first.
pub struct MaxHeap<K, V> {
    data: Vec<(K, V)>,
}

impl<K: PartialOrd, V> View for MaxHeap<K, V> {
    type V = Seq<(K, V)>;

    /// The slots of the backing array, root first.
    closed spec fn view(&self) -> Seq<(K, V)> {
        self.data@
    }
}

impl<K: PartialOrd, V> MaxHeap<K, V> {
    /// The entries that the heap holds, without their arrangement.
    pub open spec fn entries(&self) -> Multiset<(K, V)> {
        self@.to_multiset()
    }

    /// The backing array is arranged as a max-heap.
    pub open spec fn well_formed(&self) -> bool {
        heap_ordered(self@)
    }

    /// The number of entries.
    pub fn len(&self) -> (r: usize)
        ensures
            r == self@.len(),
            r == self.entries().len(),
    {
        proof {
            to_multiset_len(self@);
        }
        self.data.len()
    }

    /// An empty heap.
    pub fn new() -> (r: Self)
        ensures
            r@.len() == 0,
            r.entries().len() == 0,
            r.well_formed(),
    {
        let r = MaxHeap { data: Vec::new() };
        proof {
            to_multiset_len(r@);
        }
        r
    }

    /// Adds the entry `(k, v)`: it is put into a new last slot and moved up
    /// from there, so that only slots on the way from the new slot to the
    /// root change.
    pub fn insert(&mut self, k: K, v: V)
        requires
            strict_weak_order::<K>(),
            old(self).well_formed(),
        ensures
            final(self).well_formed(),
            final(self).entries() == old(self).entries().insert((k, v)),
            final(self)@.len() == old(self)@.len() + 1,
            forall|i: int|
                0 <= i < old(self)@.len() && !on_path(old(self)@.len() as int, i)
                    ==> final(self)@[i] == old(self)@[i],
    {
        proof {
            to_multiset_build(self@, (k, v));
            to_multiset_len(self@);
            to_multiset_len(self@.push((k, v)));
        }
        self.data.push((k, v));
        let last: usize = self.data.len() - 1;
        self._sift_up(last);
        proof {
            to_multiset_len(self@);
        }
    }

    /// Takes out an entry whose key no other entry's key is above, or
    /// reports that the heap is empty. Among several such entries the one in
    /// the root slot leaves.
    pub fn pop_max(&mut self) -> (r: Option<(K, V)>)
        requires
            strict_weak_order::<K>(),
            old(self).well_formed(),
        ensures
            final(self).well_formed(),
            match r {
                None => old(self)@.len() == 0 && final(self)@ == old(self)@,
                Some(e) => {
                    &&& old(self)@.len() > 0
                    &&& e == old(self)@[0]
                    &&& final(self)@.len() == old(self)@.len() - 1
                    &&& pops(old(self).entries(), e, final(self).entries())
                },
            },
    {
        if self.len() == 0 {
            None
        } else {
            let last: usize = self.len() - 1;
            proof {
                lemma_root_is_greatest(self@);
                lemma_take_root(self@);
            }
            swap_slots(&mut self.data, 0, last);
            let popped = self.data.pop();
            if self.data.len() > 0 {
                self._sift_down(0);
            }
            popped
        }
    }

    fn _parent_idx(&self, idx: usize) -> (r: Option<usize>)
        ensures
            idx == 0 ==> r.is_none(),
            idx > 0 ==> r == Some(parent_of(idx as int) as usize),
    {
        if idx == 0 {
            None
        } else {
            Some((idx - 1) / 2)
        }
    }

    fn _left_idx(&self, idx: usize) -> (r: usize)
        requires
            idx * 2 + 1 <= usize::MAX,
        ensures
            r == idx * 2 + 1,
    {
        idx * 2 + 1
    }

    fn _right_idx(&self, idx: usize) -> (r: usize)
        requires
            idx * 2 + 2 <= usize::MAX,
        ensures
            r == idx * 2 + 2,
    {
        idx * 2 + 2
    }

    /// Moves the entry in slot `idx` towards the root until its parent's key
    /// is not below its own. Only slots on the way from `idx` to the root
    /// change.
    fn _sift_up(&mut self, mut idx: usize)
        requires
            strict_weak_order::<K>(),
            idx < old(self)@.len(),
            ordered_but_upwards(old(self)@, idx as int),
        ensures
            final(self).well_formed(),
            final(self).entries() == old(self).entries(),
            final(self)@.len() == old(self)@.len(),
            forall|i: int|
                0 <= i < old(self)@.len() && !on_path(idx as int, i)
                    ==> final(self)@[i] == old(self)@[i],
    {
        let ghost start = idx as int;
        loop
            invariant
                strict_weak_order::<K>(),
                idx < self@.len(),
                ordered_but_upwards(self@, idx as int),
                self.entries() == old(self).entries(),
                self@.len() == old(self)@.len(),
                on_path(start, idx as int),
                forall|i: int|
                    0 <= i < self@.len() && !on_path(start, i) ==> self@[i] == old(self)@[i],
            ensures
                self.well_formed(),
                self.entries() == old(self).entries(),
                self@.len() == old(self)@.len(),
                forall|i: int|
                    0 <= i < self@.len() && !on_path(start, i) ==> self@[i] == old(self)@[i],
            decreases idx,
        {
            if idx == 0 {
                break ;
            }
            let op_parent_idx = self._parent_idx(idx);
            match op_parent_idx {
                None => {
                    break ;
                },
                Some(parent_idx) => {
                    if self.data[parent_idx].0 < self.data[idx].0 {
                        proof {
                            lemma_swap_up(self@, idx as int);
                            lemma_path_goes_on(start, idx as int);
                        }
                        swap_slots(&mut self.data, parent_idx, idx);
                        idx = parent_idx;
                        continue ;
                    } else {
                        break ;
                    }
                },
            }
        }
    }

    /// Moves the entry in slot `idx` away from the root, each time below the
    /// greater of its children, until neither child's key is above its own.
    /// Only slots from which the way to the root leads over `idx` change.
    fn _sift_down(&mut self, mut idx: usize)
        requires
            strict_weak_order::<K>(),
            idx < old(self)@.len(),
            ordered_but_downwards(old(self)@, idx as int),
        ensures
            final(self).well_formed(),
            final(self).entries() == old(self).entries(),
            final(self)@.len() == old(self)@.len(),
            forall|i: int|
                0 <= i < old(self)@.len() && !on_path(i, idx as int)
                    ==> final(self)@[i] == old(self)@[i],
    {
        let ghost start = idx as int;
        loop
            invariant
                strict_weak_order::<K>(),
                idx < self@.len(),
                ordered_but_downwards(self@, idx as int),
                self.entries() == old(self).entries(),
                self@.len() == old(self)@.len(),
                on_path(idx as int, start),
                forall|i: int|
                    0 <= i < self@.len() && !on_path(i, start) ==> self@[i] == old(self)@[i],
            ensures
                self.well_formed(),
                self.entries() == old(self).entries(),
                self@.len() == old(self)@.len(),
                forall|i: int|
                    0 <= i < self@.len() && !on_path(i, start) ==> self@[i] == old(self)@[i],
            decreases self@.len() - idx,
        {
            let len = self.data.len();
            let has_left = idx < len / 2;
            if !has_left {
                proof {
                    lemma_childless_is_ordered(self@, idx as int);
                }
                break ;
            }
            let left_idx = self._left_idx(idx);
            let right_idx = self._right_idx(idx);
            let has_right = right_idx < len;
            if !has_right {
                if self.data[idx].0 < self.data[left_idx].0 {
                    proof {
                        lemma_swap_down(self@, idx as int, left_idx as int);
                        lemma_childless_is_ordered(
                            self@.update(idx as int, self@[left_idx as int]).update(
                                left_idx as int,
                                self@[idx as int],
                            ),
                            left_idx as int,
                        );
                    }
                    swap_slots(&mut self.data, idx, left_idx);
                    break ;
                } else {
                    proof {
                        lemma_settled_is_ordered(self@, idx as int, left_idx as int);
                    }
                    break ;
                }
            } else {
                let max_child_idx = if self.data[right_idx].0 < self.data[left_idx].0 {
                    left_idx
                } else {
                    right_idx
                };

                if self.data[idx].0 < self.data[max_child_idx].0 {
                    proof {
                        lemma_swap_down(self@, idx as int, max_child_idx as int);
                    }
                    swap_slots(&mut self.data, idx, max_child_idx);
                    idx = max_child_idx;
                    continue ;
                } else {
                    proof {
                        lemma_settled_is_ordered(self@, idx as int, max_child_idx as int);
                    }
                    break ;
                }
            }
        }
    }
}

/// Entries popped one after another come out with keys that never increase,
/// and each of them is one of the entries that were in the heap. When as many
/// are popped as were inserted into an empty heap, exactly the inserted
/// entries come out.
pub proof fn lemma_pops_never_increase<K: PartialOrd, V>(m: Multiset<(K, V)>, out: Seq<(K, V)>)
    requires
        pop_trace(m, out),
    ensures
        forall|i: int, j: int| 0 <= i < j < out.len() ==> !key_lt(out[i].0, out[j].0),
        out.to_multiset().subset_of(m),
        out.len() == m.len() ==> out.to_multiset() == m,
    decreases out.len(),
{
    broadcast use vstd::multiset::group_multiset_axioms;

    if out.len() == 0 {
        lemma_nothing_in_no_slots(out);
        if m.len() == 0 {
            assert forall|e: (K, V)| m.count(e) == 0 by {
                if m.count(e) > 0 {
                    assert(m.remove(e).len() == m.len() - 1);
                }
            }
            assert(out.to_multiset() =~= m);
        }
    } else {
        let rest = out.drop_first();
        let m1 = m.remove(out[0]);
        lemma_pops_never_increase(m1, rest);
        assert(out =~= seq![out[0]] + rest);
        assert(out.to_multiset() =~= rest.to_multiset().insert(out[0])) by {
            to_multiset_insert(rest, 0, out[0]);
            assert(rest.insert(0, out[0]) =~= out);
        }
        assert(m =~= m1.insert(out[0]));
        assert forall|i: int, j: int| 0 <= i < j < out.len() implies !key_lt(
            out[i].0,
            out[j].0,
        ) by {
            assert(rest.len() == out.len() - 1);
            assert(out[j] == rest[j - 1]);
            if i == 0 {
                to_multiset_contains(rest, rest[j - 1]);
                assert(rest.contains(rest[j - 1]));
                assert(rest.to_multiset().contains(out[j]));
                assert(m1.contains(out[j]));
                assert(m.contains(out[j]));
                assert(is_greatest(out[0].0, m));
            } else {
                assert(out[i] == rest[i - 1]);
                assert(!key_lt(rest[i - 1].0, rest[j - 1].0));
            }
        }
        if out.len() == m.len() {
            assert(rest.len() == m1.len());
        }
    }
}

/// Where no two entries have keys of equal rank, the multiset of entries
/// alone decides which entry `pop_max` hands out.
pub proof fn lemma_pop_is_determined<K: PartialOrd, V>(
    m: Multiset<(K, V)>,
    e1: (K, V),
    e2: (K, V),
)
    requires
        m.contains(e1) && is_greatest(e1.0, m),
        m.contains(e2) && is_greatest(e2.0, m),
        forall|a: (K, V), b: (K, V)|
            m.contains(a) && m.contains(b) && a != b ==> key_lt(a.0, b.0) || key_lt(b.0, a.0),
    ensures
        e1 == e2,
{
}

/// `s` is heap-ordered except that the key in slot `idx` may be above those
/// of its ancestors.
spec fn ordered_but_upwards<K: PartialOrd, V>(s: Seq<(K, V)>, idx: int) -> bool {
    &&& forall|i: int|
        0 < i < s.len() && i != idx ==> !key_lt(#[trigger] s[parent_of(i)].0, s[i].0)
    &&& forall|i: int|
        0 < i < s.len() && parent_of(i) == idx && idx > 0 ==> !key_lt(
            s[parent_of(idx)].0,
            #[trigger] s[i].0,
        )
}

/// `s` is heap-ordered except that the key in slot `idx` may be below those
/// of its descendants.
spec fn ordered_but_downwards<K: PartialOrd, V>(s: Seq<(K, V)>, idx: int) -> bool {
    &&& forall|i: int|
        0 < i < s.len() && parent_of(i) != idx ==> !key_lt(#[trigger] s[parent_of(i)].0, s[i].0)
    &&& forall|i: int|
        0 < i < s.len() && parent_of(i) == idx && idx > 0 ==> !key_lt(
            s[parent_of(idx)].0,
            #[trigger] s[i].0,
        )
}

/// `c` is a child slot of `idx` whose key is not below that of the other
/// child, if there is one.
spec fn is_greater_child<K: PartialOrd, V>(s: Seq<(K, V)>, idx: int, c: int) -> bool {
    &&& 0 < c < s.len()
    &&& parent_of(c) == idx
    &&& forall|i: int| 0 < i < s.len() && parent_of(i) == idx ==> !key_lt(s[c].0, #[trigger] s[i].0)
}

/// Exchanges the contents of slots `i` and `j`.
fn swap_slots<T>(data: &mut Vec<T>, i: usize, j: usize)
    requires
        i < old(data).len(),
        j < old(data).len(),
    ensures
        final(data)@ == old(data)@.update(i as int, old(data)@[j as int]).update(
            j as int,
            old(data)@[i as int],
        ),
        final(data)@.to_multiset() == old(data)@.to_multiset(),
{
    proof {
        lemma_swap_keeps_entries(data@, i as int, j as int);
    }
    if i == j {
        assert(data@ =~= data@.update(i as int, data@[j as int]).update(j as int, data@[i as int]));
        return ;
    }
    let last: usize = data.len() - 1;
    let ghost before = data@;
    match data.pop() {
        Some(mut spare) => {
            if i == last {
                data.set_and_swap(j, &mut spare);
                data.push(spare);
            } else if j == last {
                data.set_and_swap(i, &mut spare);
                data.push(spare);
            } else {
                data.set_and_swap(i, &mut spare);
                data.set_and_swap(j, &mut spare);
                data.set_and_swap(i, &mut spare);
                data.push(spare);
            }
            assert(data@ =~= before.update(i as int, before[j as int]).update(
                j as int,
                before[i as int],
            ));
        },
        None => {},
    }
}

/// Exchanging two slots leaves the multiset of entries as it was.
proof fn lemma_swap_keeps_entries<T>(s: Seq<T>, i: int, j: int)
    requires
        0 <= i < s.len(),
        0 <= j < s.len(),
    ensures
        s.update(i, s[j]).update(j, s[i]).to_multiset() == s.to_multiset(),
{
    broadcast use vstd::multiset::group_multiset_axioms;

    let s1 = s.update(i, s[j]);
    assert(s1.len() == s.len());
    to_multiset_update(s, i, s[j]);
    to_multiset_update(s1, j, s[i]);
    assert(s.to_multiset().count(s[i]) > 0) by {
        to_multiset_contains(s, s[i]);
        assert(s.contains(s[i]));
    }
    assert(s1.update(j, s[i]).to_multiset() =~= s.to_multiset());
}

/// The way from a slot to the root leads on over the parent of each slot on
/// it.
proof fn lemma_path_goes_on(from: int, i: int)
    requires
        on_path(from, i),
        i > 0,
    ensures
        on_path(from, parent_of(i)),
    decreases from,
{
    if from != i {
        lemma_path_goes_on(parent_of(from), i);
    } else {
        assert(on_path(parent_of(i), parent_of(i)));
    }
}

proof fn lemma_swap_up<K: PartialOrd, V>(s: Seq<(K, V)>, idx: int)
    requires
        strict_weak_order::<K>(),
        0 < idx < s.len(),
        ordered_but_upwards(s, idx),
        key_lt(s[parent_of(idx)].0, s[idx].0),
    ensures
        ordered_but_upwards(
            s.update(parent_of(idx), s[idx]).update(idx, s[parent_of(idx)]),
            parent_of(idx),
        ),
{
    let p = parent_of(idx);
    let t = s.update(p, s[idx]).update(idx, s[p]);
    assert forall|i: int| 0 < i < t.len() && i != p implies !key_lt(
        #[trigger] t[parent_of(i)].0,
        t[i].0,
    ) by {
        if i == idx {
        } else if parent_of(i) == p {
            assert(!key_lt(s[parent_of(i)].0, s[i].0));
        } else if parent_of(i) == idx {
            assert(!key_lt(s[parent_of(idx)].0, s[i].0));
        } else {
            assert(!key_lt(s[parent_of(i)].0, s[i].0));
        }
    }
    assert forall|i: int| 0 < i < t.len() && parent_of(i) == p && p > 0 implies !key_lt(
        t[parent_of(p)].0,
        #[trigger] t[i].0,
    ) by {
        assert(!key_lt(s[parent_of(p)].0, s[p].0));
        if i != idx {
            assert(!key_lt(s[parent_of(i)].0, s[i].0));
        }
    }
}

proof fn lemma_swap_down<K: PartialOrd, V>(s: Seq<(K, V)>, idx: int, c: int)
    requires
        strict_weak_order::<K>(),
        0 <= idx < s.len(),
        ordered_but_downwards(s, idx),
        is_greater_child(s, idx, c),
        key_lt(s[idx].0, s[c].0),
    ensures
        ordered_but_downwards(s.update(idx, s[c]).update(c, s[idx]), c),
{
    let t = s.update(idx, s[c]).update(c, s[idx]);
    assert forall|i: int| 0 < i < t.len() && parent_of(i) != c implies !key_lt(
        #[trigger] t[parent_of(i)].0,
        t[i].0,
    ) by {
        if i == c {
        } else if parent_of(i) == idx {
            assert(!key_lt(s[c].0, s[i].0));
        } else if i == idx {
            assert(!key_lt(s[parent_of(idx)].0, s[c].0));
        } else {
            assert(!key_lt(s[parent_of(i)].0, s[i].0));
        }
    }
    assert forall|i: int| 0 < i < t.len() && parent_of(i) == c && c > 0 implies !key_lt(
        t[parent_of(c)].0,
        #[trigger] t[i].0,
    ) by {
        assert(!key_lt(s[parent_of(i)].0, s[i].0));
    }
}

proof fn lemma_childless_is_ordered<K: PartialOrd, V>(s: Seq<(K, V)>, idx: int)
    requires
        0 <= idx,
        idx >= s.len() / 2,
        ordered_but_downwards(s, idx),
    ensures
        heap_ordered(s),
{
    assert forall|i: int| 0 < i < s.len() implies !key_lt(#[trigger] s[parent_of(i)].0, s[i].0) by {
        assert(parent_of(i) != idx);
    }
}

proof fn lemma_settled_is_ordered<K: PartialOrd, V>(s: Seq<(K, V)>, idx: int, c: int)
    requires
        strict_weak_order::<K>(),
        0 <= idx < s.len(),
        ordered_but_downwards(s, idx),
        is_greater_child(s, idx, c),
        !key_lt(s[idx].0, s[c].0),
    ensures
        heap_ordered(s),
{
    assert forall|i: int| 0 < i < s.len() implies !key_lt(#[trigger] s[parent_of(i)].0, s[i].0) by {
        if parent_of(i) == idx {
            assert(!key_lt(s[c].0, s[i].0));
        }
    }
}

/// In a heap-ordered array no key is above the key in the root slot.
proof fn lemma_root_is_greatest<K: PartialOrd, V>(s: Seq<(K, V)>)
    requires
        strict_weak_order::<K>(),
        heap_ordered(s),
        s.len() > 0,
    ensures
        is_greatest(s[0].0, s.to_multiset()),
        s.to_multiset().contains(s[0]),
{
    assert forall|e: (K, V)| s.to_multiset().contains(e) implies !key_lt(
        s[0].0,
        #[trigger] e.0,
    ) by {
        to_multiset_contains(s, e);
        let i = choose|i: int| 0 <= i < s.len() && s[i] == e;
        lemma_root_not_below(s, i);
    }
    to_multiset_contains(s, s[0]);
    assert(s.contains(s[0]));
}

proof fn lemma_root_not_below<K: PartialOrd, V>(s: Seq<(K, V)>, i: int)
    requires
        strict_weak_order::<K>(),
        heap_ordered(s),
        0 <= i < s.len(),
    ensures
        !key_lt(s[0].0, s[i].0),
    decreases i,
{
    if i > 0 {
        lemma_root_not_below(s, parent_of(i));
        assert(!key_lt(s[parent_of(i)].0, s[i].0));
    }
}

/// Moving the last entry into the root slot and cutting the array by one
/// removes the root entry and leaves only the root slot out of order.
proof fn lemma_take_root<K: PartialOrd, V>(s: Seq<(K, V)>)
    requires
        heap_ordered(s),
        s.len() > 0,
    ensures
        ({
            let last = s.len() - 1;
            let t = s.update(0, s[last]).update(last, s[0]).subrange(0, last);
            &&& t.to_multiset() == s.to_multiset().remove(s[0])
            &&& t.len() > 0 ==> ordered_but_downwards(t, 0)
            &&& heap_ordered(Seq::<(K, V)>::empty())
        }),
{
    let last = s.len() - 1;
    let u = s.update(0, s[last]).update(last, s[0]);
    let t = u.subrange(0, last);
    lemma_swap_keeps_entries(s, 0, last);
    to_multiset_remove(u, last);
    assert(u.remove(last) =~= t);
    assert forall|i: int| 0 < i < t.len() && parent_of(i) != 0 implies !key_lt(
        #[trigger] t[parent_of(i)].0,
        t[i].0,
    ) by {
        assert(!key_lt(s[parent_of(i)].0, s[i].0));
    }
}

} // verus!
