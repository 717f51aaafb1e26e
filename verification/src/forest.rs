//! The forest of clusters as contracts see it, and what holds of it.

use crate::seq_facts::{
    lemma_distinct_items, lemma_filter_keeps_distinct, lemma_filter_membership,
    lemma_short_of_an_item,
};
use vstd::prelude::*;
use vstd::seq_lib::lemma_no_dup_in_concat;

verus! {

/// The handle of a cluster in the arena.
pub type NodeIndex = usize;

/// The largest number of items a forest can be made with. It keeps every
/// handle within `usize` on any machine, and the number of cross pairs between
/// two clusters within 64 bits.
pub const MAX_ITEMS: usize = 0x7FFF_FFFF;

/// A cluster as contracts see it.
pub struct NodeView {
    pub members: Seq<usize>,
    pub parent: Option<NodeIndex>,
    pub left: Option<NodeIndex>,
    pub right: Option<NodeIndex>,
}

/// A forest as contracts see it: its clusters by handle, the labels of its
/// items by item, and the handle of the cluster that holds every item, once
/// there is one.
pub struct Forest {
    pub nodes: Seq<NodeView>,
    pub labels: Seq<Seq<char>>,
    pub root: Option<NodeIndex>,
}

/// No item of `a` is an item of `b`.
pub open spec fn disjoint(a: Seq<usize>, b: Seq<usize>) -> bool {
    forall|i: int, j: int| 0 <= i < a.len() && 0 <= j < b.len() ==> a[i] != b[j]
}

/// How many of `nodes` have no parent.
pub open spec fn active_count(nodes: Seq<NodeView>) -> nat
    decreases nodes.len(),
{
    if nodes.len() == 0 {
        0
    } else {
        active_count(nodes.drop_last()) + if nodes.last().parent is None {
            1nat
        } else {
            0nat
        }
    }
}

/// The handles from `lo` up to `hi`, in ascending order.
pub open spec fn handles(lo: int, hi: int) -> Seq<NodeIndex> {
    Seq::new((hi - lo) as nat, |k: int| (lo + k) as usize)
}

impl Forest {
    /// The forest in which each of the items labelled `labels` is a cluster
    /// of its own.
    pub open spec fn fresh(labels: Seq<Seq<char>>) -> Forest {
        Forest {
            nodes: Seq::new(
                labels.len(),
                |i: int|
                    NodeView { members: seq![i as usize], parent: None, left: None, right: None },
            ),
            labels,
            root: None,
        }
    }

    /// The number of items.
    pub open spec fn item_count(self) -> nat {
        self.labels.len()
    }

    /// `h` is the handle of a cluster.
    pub open spec fn has(self, h: NodeIndex) -> bool {
        h < self.nodes.len()
    }

    /// `h` is the handle of a cluster that no merge has absorbed.
    pub open spec fn is_active(self, h: NodeIndex) -> bool {
        h < self.nodes.len() && self.nodes[h as int].parent is None
    }

    /// The items of cluster `h`.
    pub open spec fn members(self, h: NodeIndex) -> Seq<usize> {
        self.nodes[h as int].members
    }

    /// The number of merges that made the forest.
    pub open spec fn merges_done(self) -> int {
        self.nodes.len() - self.labels.len()
    }

    /// Cluster `i` is the singleton of item `i`.
    pub open spec fn leaf_ok(self, i: int) -> bool {
        &&& self.nodes[i].members == seq![i as usize]
        &&& self.nodes[i].left is None
        &&& self.nodes[i].right is None
    }

    /// Cluster `h` joins two earlier clusters, which name it as their parent,
    /// and holds the items of the left one followed by those of the right one.
    pub open spec fn join_ok(self, h: int) -> bool {
        match (self.nodes[h].left, self.nodes[h].right) {
            (Some(l), Some(r)) => {
                &&& l < h
                &&& r < h
                &&& l != r
                &&& self.nodes[l as int].parent == Some(h as usize)
                &&& self.nodes[r as int].parent == Some(h as usize)
                &&& self.nodes[h].members == self.nodes[l as int].members
                    + self.nodes[r as int].members
            },
            _ => false,
        }
    }

    /// The parent of cluster `h`, if it has one, is a later cluster made by a
    /// merge, and names `h` as a child.
    pub open spec fn parent_ok(self, h: int) -> bool {
        match self.nodes[h].parent {
            Some(p) => {
                &&& h < p < self.nodes.len()
                &&& self.labels.len() <= p
                &&& (self.nodes[p as int].left == Some(h as usize) || self.nodes[p as int].right
                    == Some(h as usize))
            },
            None => true,
        }
    }

    /// Cluster `h` holds at least one item, no item twice, and only items of
    /// the forest.
    pub open spec fn members_ok(self, h: int) -> bool {
        &&& self.nodes[h].members.len() >= 1
        &&& self.nodes[h].members.no_duplicates()
        &&& forall|k: int|
            0 <= k < self.nodes[h].members.len() ==> #[trigger] self.nodes[h].members[k]
                < self.labels.len()
    }

    /// Item `i` is in the active cluster `h`.
    pub open spec fn owns(self, h: NodeIndex, i: usize) -> bool {
        self.is_active(h) && self.members(h).contains(i)
    }

    /// Item `i` is in some active cluster.
    pub open spec fn is_owned(self, i: usize) -> bool {
        exists|h: NodeIndex| self.owns(h, i)
    }

    /// What holds of the clusters of every forest, whatever its root.
    pub open spec fn structure_ok(self) -> bool {
        &&& self.labels.len() <= self.nodes.len()
        &&& self.labels.len() <= MAX_ITEMS
        &&& forall|i: int| 0 <= i < self.labels.len() ==> #[trigger] self.leaf_ok(i)
        &&& forall|h: int| self.labels.len() <= h < self.nodes.len() ==> #[trigger] self.join_ok(h)
        &&& forall|h: int| 0 <= h < self.nodes.len() ==> #[trigger] self.parent_ok(h)
        &&& forall|h: int| 0 <= h < self.nodes.len() ==> #[trigger] self.members_ok(h)
        &&& forall|a: NodeIndex, b: NodeIndex|
            #![trigger self.is_active(a), self.is_active(b)]
            self.is_active(a) && self.is_active(b) && a != b ==> disjoint(
                self.members(a),
                self.members(b),
            )
        &&& forall|i: usize| i < self.labels.len() ==> self.is_owned(i)
        &&& active_count(self.nodes) + self.nodes.len() == 2 * self.labels.len()
    }

    /// Cluster `h` holds as many items as the forest has.
    pub open spec fn is_complete(self, h: int) -> bool {
        self.nodes[h].members.len() == self.labels.len()
    }

    /// The root, once set, is an active cluster that holds as many items as
    /// the forest has; and as long as it is not set, no cluster made by a
    /// merge holds that many.
    pub open spec fn root_ok(self) -> bool {
        match self.root {
            Some(r) => self.is_active(r) && self.labels.len() <= r && self.is_complete(r as int),
            None => forall|h: int|
                self.labels.len() <= h < self.nodes.len() ==> !#[trigger] self.is_complete(h),
        }
    }

    pub open spec fn well_formed(self) -> bool {
        self.structure_ok() && self.root_ok()
    }

    /// As a predicate on handles: the cluster is active.
    pub open spec fn active_ones(self) -> spec_fn(NodeIndex) -> bool {
        |h: NodeIndex| self.is_active(h)
    }

    /// As a predicate on handles: the cluster's items are not those of
    /// cluster `new`.
    pub open spec fn unlike(self, new: NodeIndex) -> spec_fn(NodeIndex) -> bool {
        |h: NodeIndex| self.members(h) != self.members(new)
    }

    /// As a predicate on handles: the cluster is active, and its items are
    /// not those of cluster `new`.
    pub open spec fn active_unlike(self, new: NodeIndex) -> spec_fn(NodeIndex) -> bool {
        |h: NodeIndex| self.is_active(h) && self.members(h) != self.members(new)
    }

    /// The items that no merge has absorbed, in ascending order, each as the
    /// handle of its singleton cluster.
    pub open spec fn unclustered_leafs(self) -> Seq<NodeIndex> {
        handles(0, self.labels.len() as int).filter(self.active_ones())
    }

    /// The handles that merges have made, in ascending order.
    pub open spec fn sub_tree_roots(self) -> Seq<NodeIndex> {
        handles(self.labels.len() as int, self.nodes.len() as int)
    }

    /// The clusters against which a new cluster `new` is scored: the
    /// unabsorbed singletons, then the active results of merges, without
    /// any whose items are those of `new`.
    pub open spec fn candidates(self, new: NodeIndex) -> Seq<NodeIndex> {
        self.unclustered_leafs().filter(self.unlike(new)) + self.sub_tree_roots().filter(
            self.active_unlike(new),
        )
    }

    /// The Newick text of the tree under cluster `h`: the label of its item
    /// for a singleton, else the texts of its left and right child in
    /// parentheses with a comma between them.
    pub open spec fn newick(self, h: NodeIndex) -> Seq<char>
        decreases h,
    {
        match (self.nodes[h as int].left, self.nodes[h as int].right) {
            (Some(l), Some(r)) => if l < h && r < h {
                seq!['('] + self.newick(l) + seq![','] + self.newick(r) + seq![')']
            } else {
                Seq::empty()
            },
            _ => self.labels[self.members(h)[0] as int],
        }
    }

    /// The items at the leaves of the tree under cluster `h`, in the order in
    /// which its text names them.
    pub open spec fn leaves(self, h: NodeIndex) -> Seq<usize>
        decreases h,
    {
        match (self.nodes[h as int].left, self.nodes[h as int].right) {
            (Some(l), Some(r)) => if l < h && r < h {
                self.leaves(l) + self.leaves(r)
            } else {
                Seq::empty()
            },
            _ => seq![self.members(h)[0]],
        }
    }

    /// One of the clusters `l` and `r` has been absorbed by a merge.
    pub open spec fn is_stale(self, l: NodeIndex, r: NodeIndex) -> bool {
        !self.is_active(l) || !self.is_active(r)
    }

    /// The forest after one step on the pair of clusters `l` and `r`. A stale
    /// pair leaves it as it is. Otherwise the two are merged, and where the
    /// new cluster holds as many items as the forest has, it becomes the root.
    pub open spec fn step(self, l: NodeIndex, r: NodeIndex) -> Forest {
        if self.is_stale(l, r) {
            self
        } else {
            let merged = self.merge(l, r);
            if merged.is_complete(self.nodes.len() as int) {
                Forest { root: Some(self.nodes.len() as usize), ..merged }
            } else {
                merged
            }
        }
    }

    /// The forest after the active clusters `l` and `r` were merged: both
    /// name the new cluster, whose handle is the next free one, as their
    /// parent, and it holds the items of `l` followed by those of `r`.
    pub open spec fn merge(self, l: NodeIndex, r: NodeIndex) -> Forest {
        let p = self.nodes.len() as usize;
        let joined = NodeView {
            members: self.members(l) + self.members(r),
            parent: None,
            left: Some(l),
            right: Some(r),
        };
        Forest {
            nodes: self.nodes.update(l as int, NodeView { parent: Some(p), ..self.nodes[l as int] })
                .update(r as int, NodeView { parent: Some(p), ..self.nodes[r as int] }).push(
                joined,
            ),
            ..self
        }
    }
}

/// A merge of two distinct active clusters keeps what holds of every forest.
pub proof fn lemma_merge_keeps_structure(f: Forest, l: NodeIndex, r: NodeIndex)
    requires
        f.structure_ok(),
        f.is_active(l),
        f.is_active(r),
        l != r,
    ensures
        f.merge(l, r).structure_ok(),
        f.nodes.len() < usize::MAX,
{
    let g = f.merge(l, r);
    let n = f.labels.len();
    let big = f.nodes.len();
    let p = big as usize;
    let nl = NodeView { parent: Some(p), ..f.nodes[l as int] };
    let nr = NodeView { parent: Some(p), ..f.nodes[r as int] };
    let s1 = f.nodes.update(l as int, nl);
    let s2 = s1.update(r as int, nr);
    assert(g.nodes.len() == big + 1);
    assert forall|h: int| 0 <= h < big implies (#[trigger] g.nodes[h]).members
        == f.nodes[h].members && g.nodes[h].left == f.nodes[h].left && g.nodes[h].right
        == f.nodes[h].right && (h != l && h != r ==> g.nodes[h].parent == f.nodes[h].parent) by {}
    assert forall|i: int| 0 <= i < n implies #[trigger] g.leaf_ok(i) by {
        assert(f.leaf_ok(i));
    }
    assert(f.members_ok(l as int) && f.members_ok(r as int));
    assert(f.parent_ok(l as int) && f.parent_ok(r as int));
    assert forall|h: int| n <= h < g.nodes.len() implies #[trigger] g.join_ok(h) by {
        if h < big {
            assert(f.join_ok(h));
        }
    }
    assert forall|h: int| 0 <= h < g.nodes.len() implies #[trigger] g.parent_ok(h) by {
        if h < big {
            assert(f.parent_ok(h));
            if n > l {
                assert(f.leaf_ok(l as int));
            }
        }
    }
    assert(disjoint(f.members(l), f.members(r)));
    lemma_no_dup_in_concat(f.members(l), f.members(r));
    assert forall|h: int| 0 <= h < g.nodes.len() implies #[trigger] g.members_ok(h) by {
        if h < big {
            assert(f.members_ok(h));
        }
    }
    assert forall|a: NodeIndex, b: NodeIndex|
        #![trigger g.is_active(a), g.is_active(b)]
        g.is_active(a) && g.is_active(b) && a != b implies disjoint(g.members(a), g.members(b)) by {
        if a < big && b < big {
            assert(f.is_active(a) && f.is_active(b));
        } else if a == big {
            assert(f.is_active(b) && f.is_active(l) && f.is_active(r));
            assert(disjoint(f.members(l), f.members(b)));
            assert(disjoint(f.members(r), f.members(b)));
        } else {
            assert(f.is_active(a) && f.is_active(l) && f.is_active(r));
            assert(disjoint(f.members(a), f.members(l)));
            assert(disjoint(f.members(a), f.members(r)));
        }
    }
    assert forall|i: usize| i < n implies g.is_owned(i) by {
        assert(f.is_owned(i));
        let h = choose|h: NodeIndex| f.owns(h, i);
        if h == l || h == r {
            let k = choose|k: int| 0 <= k < f.members(h).len() && f.members(h)[k] == i;
            if h == l {
                assert(g.members(p)[k] == i);
            } else {
                assert(g.members(p)[f.members(l).len() + k] == i);
            }
            assert(g.owns(p, i));
        } else {
            assert(g.owns(h, i));
        }
    }
    lemma_active_count_update(f.nodes, l as int, nl);
    lemma_active_count_update(s1, r as int, nr);
    assert(g.nodes.drop_last() =~= s2);
}

/// A merge adds its result to the handles that merges have made, and takes
/// its two clusters, and no other, out of the active ones.
pub proof fn lemma_merge_absorbs(f: Forest, l: NodeIndex, r: NodeIndex)
    requires
        f.labels.len() <= f.nodes.len() < usize::MAX,
        f.has(l),
        f.has(r),
    ensures
        f.merge(l, r).sub_tree_roots() == f.sub_tree_roots().push(f.nodes.len() as usize),
        f.merge(l, r).is_active(f.nodes.len() as usize),
        forall|h: NodeIndex|
            f.has(h) ==> (f.merge(l, r).is_active(h) <==> f.is_active(h) && h != l && h != r),
{
    assert(f.merge(l, r).sub_tree_roots() =~= f.sub_tree_roots().push(f.nodes.len() as usize));
}

/// The forest in which every item is a cluster of its own is well formed.
pub proof fn lemma_fresh_is_well_formed(labels: Seq<Seq<char>>)
    requires
        labels.len() <= MAX_ITEMS,
    ensures
        Forest::fresh(labels).well_formed(),
        Forest::fresh(labels).merges_done() == 0,
{
    let f = Forest::fresh(labels);
    lemma_active_count_all(f.nodes);
    assert forall|i: int| 0 <= i < f.labels.len() implies #[trigger] f.leaf_ok(i) by {}
    assert forall|h: int| 0 <= h < f.nodes.len() implies #[trigger] f.parent_ok(h) by {}
    assert forall|h: int| 0 <= h < f.nodes.len() implies #[trigger] f.members_ok(h) by {}
    assert forall|i: usize| i < f.labels.len() implies f.is_owned(i) by {
        assert(f.members(i)[0] == i);
        assert(f.owns(i, i));
    }
}

/// A step keeps a forest well formed, be it on a stale pair or on a pair of
/// two different clusters.
pub proof fn lemma_step_keeps_well_formed(f: Forest, l: NodeIndex, r: NodeIndex)
    requires
        f.well_formed(),
        f.has(l),
        f.has(r),
        l != r || f.is_stale(l, r),
    ensures
        f.step(l, r).well_formed(),
        !f.is_stale(l, r) ==> f.root is None && f.merge(l, r).structure_ok(),
{
    if !f.is_stale(l, r) {
        if f.root is Some {
            lemma_root_is_alone(f);
        }
        lemma_merge_keeps_structure(f, l, r);
        let g = f.merge(l, r);
        let big = f.nodes.len() as int;
        assert forall|h: int| 0 <= h < big implies (#[trigger] g.nodes[h]).members
            == f.nodes[h].members by {}
        let s = f.step(l, r);
        lemma_structure_ignores_root(g, s);
        if !g.is_complete(big) {
            assert forall|h: int|
                f.labels.len() <= h < g.nodes.len() implies !#[trigger] g.is_complete(h) by {
                if h < big {
                    assert(!f.is_complete(h));
                }
            }
        }
    }
}

/// A cluster that has been absorbed stays absorbed, and a cluster of the
/// forest that is active after a step was active before it: a stale pair
/// stays stale.
pub proof fn lemma_absorbed_stays_absorbed(f: Forest, l: NodeIndex, r: NodeIndex)
    requires
        f.has(l),
        f.has(r),
    ensures
        forall|h: NodeIndex| f.has(h) && !f.is_active(h) ==> !#[trigger] f.step(l, r).is_active(h),
        forall|a: NodeIndex, b: NodeIndex|
            f.has(a) && f.has(b) && f.is_stale(a, b) ==> #[trigger] f.step(l, r).is_stale(a, b),
{
    let g = f.step(l, r);
    assert forall|h: NodeIndex| f.has(h) && !f.is_active(h) implies !#[trigger] g.is_active(h) by {
        if !f.is_stale(l, r) {
            assert(g.nodes[h as int].parent is Some);
        }
    }
}

/// A step on a pair that is not stale is one merge more; a step on a stale
/// pair is none.
pub proof fn lemma_step_counts_merges(f: Forest, l: NodeIndex, r: NodeIndex)
    ensures
        f.step(l, r).merges_done() == f.merges_done() + if f.is_stale(l, r) {
            0int
        } else {
            1int
        },
{
}

/// Once a forest has its root, no other cluster is active.
pub proof fn lemma_root_is_alone(f: Forest)
    requires
        f.well_formed(),
        f.root is Some,
    ensures
        forall|h: NodeIndex| f.is_active(h) ==> h == f.root->0,
{
    let r = f.root->0;
    assert(f.members_ok(r as int));
    lemma_distinct_items(f.members(r), f.labels.len());
    assert forall|h: NodeIndex| f.is_active(h) implies h == r by {
        if h != r {
            assert(f.members_ok(h as int));
            let i = f.members(h)[0];
            assert(f.members(r).contains(i));
            let k = choose|k: int| 0 <= k < f.members(r).len() && f.members(r)[k] == i;
            assert(f.is_active(h) && f.is_active(r));
            assert(disjoint(f.members(h), f.members(r)));
            assert(false);
        }
    }
}

/// A forest of `n` items has its root after exactly `n - 1` merges: when the
/// root is set, that many merges have made it, and each step on a pair that
/// is not stale is one merge.
pub proof fn lemma_root_after_all_merges(f: Forest)
    requires
        f.well_formed(),
        f.root is Some,
    ensures
        f.merges_done() == f.item_count() - 1,
        forall|l: NodeIndex, r: NodeIndex|
            f.is_stale(l, r) || l == r,
{
    lemma_root_is_alone(f);
    let r = f.root->0;
    assert forall|h: int| 0 <= h < f.nodes.len() implies ((#[trigger] f.nodes[h]).parent is None
        <==> h == r) by {
        if f.nodes[h].parent is None {
            assert(f.is_active(h as usize));
        }
    }
    lemma_active_count_single(f.nodes, r as int);
    assert forall|l: NodeIndex, r: NodeIndex| f.is_stale(l, r) || l == r by {
        if !f.is_stale(l, r) {
            assert(f.is_active(l) && f.is_active(r));
        }
    }
}

/// The root holds every item of the forest, and none twice.
pub proof fn lemma_root_holds_every_item(f: Forest)
    requires
        f.well_formed(),
        f.root is Some,
    ensures
        f.members(f.root->0).len() == f.item_count(),
        f.members(f.root->0).no_duplicates(),
        forall|i: usize| i < f.item_count() <==> f.members(f.root->0).contains(i),
{
    let r = f.root->0;
    assert(f.members_ok(r as int));
    lemma_distinct_items(f.members(r), f.labels.len());
}

/// The leaves of the tree under a cluster are the items of the cluster, in
/// the same order.
pub proof fn lemma_leaves_are_members(f: Forest, h: NodeIndex)
    requires
        f.structure_ok(),
        f.has(h),
    ensures
        f.leaves(h) == f.members(h),
    decreases h,
{
    if h < f.labels.len() {
        assert(f.leaf_ok(h as int));
        assert(f.leaves(h) =~= f.members(h));
    } else {
        assert(f.join_ok(h as int));
        lemma_leaves_are_members(f, f.nodes[h as int].left->0);
        lemma_leaves_are_members(f, f.nodes[h as int].right->0);
    }
}

/// Every item is a leaf of the finished tree exactly once: the leaves that
/// the text of the tree names are as many as the items, no two of them are
/// the same item, and each item is among them.
pub proof fn lemma_every_item_is_one_leaf(f: Forest)
    requires
        f.well_formed(),
        f.root is Some,
    ensures
        f.leaves(f.root->0).len() == f.item_count(),
        f.leaves(f.root->0).no_duplicates(),
        forall|i: usize| i < f.item_count() <==> f.leaves(f.root->0).contains(i),
{
    lemma_leaves_are_members(f, f.root->0);
    lemma_root_holds_every_item(f);
}

/// As long as a forest of two or more items has no root, two different
/// clusters are active.
pub proof fn lemma_two_are_active(f: Forest) -> (pair: (NodeIndex, NodeIndex))
    requires
        f.well_formed(),
        f.root is None,
        f.item_count() >= 2,
    ensures
        f.is_active(pair.0),
        f.is_active(pair.1),
        pair.0 != pair.1,
{
    assert(f.is_owned(0));
    let a = choose|h: NodeIndex| f.owns(h, 0);
    assert(f.members_ok(a as int));
    if a < f.labels.len() {
        assert(f.leaf_ok(a as int));
        assert(f.members(a).len() == 1);
    } else {
        assert(!f.is_complete(a as int));
        lemma_distinct_items(f.members(a), f.labels.len());
    }
    lemma_short_of_an_item(f.members(a), f.labels.len());
    let j = choose|i: usize| i < f.labels.len() && !f.members(a).contains(i);
    assert(f.is_owned(j));
    let b = choose|h: NodeIndex| f.owns(h, j);
    (a, b)
}

/// The candidates for a new active cluster are the other active clusters,
/// each once.
pub proof fn lemma_candidates_are_the_other_active(f: Forest, new: NodeIndex)
    requires
        f.structure_ok(),
        f.is_active(new),
    ensures
        forall|c: NodeIndex| #[trigger]
            f.candidates(new).contains(c) <==> f.is_active(c) && c != new,
        f.candidates(new).no_duplicates(),
{
    lemma_candidates_are_distinct(f, new);
    let n = f.labels.len() as int;
    let big = f.nodes.len() as int;
    let leafs = f.unclustered_leafs().filter(f.unlike(new));
    let roots = f.sub_tree_roots().filter(f.active_unlike(new));
    assert(f.members_ok(new as int));
    assert forall|c: NodeIndex| #[trigger]
        f.candidates(new).contains(c) <==> f.is_active(c) && c != new by {
        lemma_filter_membership(f.unclustered_leafs(), f.unlike(new), c);
        lemma_filter_membership(handles(0, n), f.active_ones(), c);
        lemma_filter_membership(f.sub_tree_roots(), f.active_unlike(new), c);
        if f.is_active(c) {
            assert(f.members_ok(c as int));
            if c != new {
                assert(f.is_active(c) && f.is_active(new));
                assert(disjoint(f.members(c), f.members(new)));
                assert(f.members(c)[0] != f.members(new)[0]);
            }
        }
        if f.candidates(new).contains(c) {
            let k = choose|k: int| 0 <= k < f.candidates(new).len() && f.candidates(new)[k] == c;
            if k < leafs.len() {
                assert(leafs[k] == c);
                assert(leafs.contains(c));
            } else {
                assert(roots[k - leafs.len()] == c);
                assert(roots.contains(c));
            }
        }
        if f.is_active(c) && c != new {
            if c < n {
                assert(handles(0, n)[c as int] == c);
                assert(handles(0, n).contains(c));
                let k = choose|k: int| 0 <= k < leafs.len() && leafs[k] == c;
                assert(f.candidates(new)[k] == c);
            } else {
                assert(handles(n, big)[c - n] == c);
                assert(f.sub_tree_roots().contains(c));
                let k = choose|k: int| 0 <= k < roots.len() && roots[k] == c;
                assert(f.candidates(new)[leafs.len() + k] == c);
            }
        }
    }
}

/// No cluster is a candidate twice.
proof fn lemma_candidates_are_distinct(f: Forest, new: NodeIndex)
    requires
        f.labels.len() <= f.nodes.len() <= usize::MAX,
    ensures
        f.candidates(new).no_duplicates(),
{
    let n = f.labels.len() as int;
    let big = f.nodes.len() as int;
    let leafs = f.unclustered_leafs().filter(f.unlike(new));
    let roots = f.sub_tree_roots().filter(f.active_unlike(new));
    assert(handles(0, n).no_duplicates());
    assert(handles(n, big).no_duplicates());
    lemma_filter_keeps_distinct(handles(0, n), f.active_ones());
    lemma_filter_keeps_distinct(f.unclustered_leafs(), f.unlike(new));
    lemma_filter_keeps_distinct(f.sub_tree_roots(), f.active_unlike(new));
    assert forall|i: int, j: int| 0 <= i < leafs.len() && 0 <= j < roots.len() implies leafs[i]
        != roots[j] by {
        assert(leafs.contains(leafs[i]));
        assert(roots.contains(roots[j]));
        lemma_filter_membership(f.unclustered_leafs(), f.unlike(new), leafs[i]);
        lemma_filter_membership(handles(0, n), f.active_ones(), leafs[i]);
        lemma_filter_membership(f.sub_tree_roots(), f.active_unlike(new), roots[j]);
        let a = choose|a: int| 0 <= a < handles(0, n).len() && handles(0, n)[a] == leafs[i];
        let b = choose|b: int| 0 <= b < handles(n, big).len() && handles(n, big)[b] == roots[j];
    }
    lemma_no_dup_in_concat(leafs, roots);
}

/// What holds of the clusters does not depend on which one is the root.
proof fn lemma_structure_ignores_root(f: Forest, g: Forest)
    requires
        f.structure_ok(),
        g.nodes == f.nodes,
        g.labels == f.labels,
    ensures
        g.structure_ok(),
{
    assert forall|i: int| 0 <= i < g.labels.len() implies #[trigger] g.leaf_ok(i) by {
        assert(f.leaf_ok(i));
    }
    assert forall|h: int| g.labels.len() <= h < g.nodes.len() implies #[trigger] g.join_ok(h) by {
        assert(f.join_ok(h));
    }
    assert forall|h: int| 0 <= h < g.nodes.len() implies #[trigger] g.parent_ok(h) by {
        assert(f.parent_ok(h));
    }
    assert forall|h: int| 0 <= h < g.nodes.len() implies #[trigger] g.members_ok(h) by {
        assert(f.members_ok(h));
    }
    assert forall|a: NodeIndex, b: NodeIndex|
        #![trigger g.is_active(a), g.is_active(b)]
        g.is_active(a) && g.is_active(b) && a != b implies disjoint(g.members(a), g.members(b)) by {
        assert(f.is_active(a) && f.is_active(b));
    }
    assert forall|i: usize| i < g.labels.len() implies g.is_owned(i) by {
        assert(f.is_owned(i));
        let h = choose|h: NodeIndex| f.owns(h, i);
        assert(g.owns(h, i));
    }
}

/// Where no cluster has a parent, all are active.
proof fn lemma_active_count_all(nodes: Seq<NodeView>)
    requires
        forall|h: int| 0 <= h < nodes.len() ==> (#[trigger] nodes[h]).parent is None,
    ensures
        active_count(nodes) == nodes.len(),
    decreases nodes.len(),
{
    if nodes.len() > 0 {
        lemma_active_count_all(nodes.drop_last());
    }
}

/// Replacing one cluster changes the number of active ones by what the
/// replacement changes.
proof fn lemma_active_count_update(nodes: Seq<NodeView>, k: int, v: NodeView)
    requires
        0 <= k < nodes.len(),
    ensures
        active_count(nodes.update(k, v)) + (if nodes[k].parent is None {
            1int
        } else {
            0int
        }) == active_count(nodes) + (if v.parent is None {
            1int
        } else {
            0int
        }),
    decreases nodes.len(),
{
    let last = nodes.len() - 1;
    if k == last {
        assert(nodes.update(k, v).drop_last() =~= nodes.drop_last());
    } else {
        lemma_active_count_update(nodes.drop_last(), k, v);
        assert(nodes.update(k, v).drop_last() =~= nodes.drop_last().update(k, v));
    }
}

/// Where exactly one cluster is active, the number of active ones is one.
proof fn lemma_active_count_single(nodes: Seq<NodeView>, r: int)
    requires
        0 <= r < nodes.len(),
        forall|h: int| 0 <= h < nodes.len() ==> ((#[trigger] nodes[h]).parent is None <==> h == r),
    ensures
        active_count(nodes) == 1,
    decreases nodes.len(),
{
    let rest = nodes.drop_last();
    if r == nodes.len() - 1 {
        lemma_active_count_none(rest);
    } else {
        lemma_active_count_single(rest, r);
    }
}

/// Where no cluster is active, the number of active ones is zero.
proof fn lemma_active_count_none(nodes: Seq<NodeView>)
    requires
        forall|h: int| 0 <= h < nodes.len() ==> (#[trigger] nodes[h]).parent is Some,
    ensures
        active_count(nodes) == 0,
    decreases nodes.len(),
{
    if nodes.len() > 0 {
        lemma_active_count_none(nodes.drop_last());
    }
}

} // verus!
