//! The forest of clusters that agglomerative clustering grows, held in an
//! arena: a cluster is addressed by its handle, the index at which the arena
//! holds it, and the arena only ever grows.
//!
//! Item `i` is the `i`-th label that the forest was made with, and the
//! singleton cluster of item `i` has handle `i`. Every later handle is the
//! result of a merge.

use crate::forest::{
    handles, lemma_fresh_is_well_formed, lemma_merge_keeps_structure,
    lemma_step_keeps_well_formed,
    Forest, NodeIndex, NodeView, MAX_ITEMS,
};
use crate::linkage::{
    cross_count, cross_sum, lemma_cross_bounds, lemma_mean_is_score, lemma_row_bounds, linkage,
    pair_score, row_count, row_sum, score_max, score_min,
};
use crate::max_heap::{lemma_i64_keys_are_ordered, strict_weak_order, MaxHeap};
use crate::pair_table::{table_get, table_scores, PairTable, ScoreMap};
use crate::seq_facts::{lemma_distinct_items, lemma_filter_of_empty, lemma_nothing_in_no_slots};
use vstd::multiset::Multiset;
use vstd::prelude::*;
use vstd::seq_lib::to_multiset_build;
use vstd::std_specs::cmp::PartialEqSpecImpl;
use vstd::string::StringExecFns;

verus! {

/// The payload of a queue entry: the handles of two clusters that may be merged.
#[derive(Debug, Clone, Copy, PartialEq, Eq)]
pub struct HeapPair {
    pub from_index: NodeIndex,
    pub to_index: NodeIndex,
}

impl HeapPair {
    /// The pair of the clusters `f` and `t`.
    pub fn new(f: NodeIndex, t: NodeIndex) -> (r: Self)
        ensures
            r.from_index == f,
            r.to_index == t,
    {
        HeapPair { from_index: f, to_index: t }
    }
}

/// One cluster. Two clusters are equal where they hold the same items in the
/// same order, whatever their parents and children.
#[derive(Debug)]
pub struct Node {
    /// The items of the cluster: those of the left child, then those of the
    /// right child; the one item for a singleton.
    pub data: Vec<usize>,
    /// The cluster that this one was merged into, if it was.
    pub parent: Option<NodeIndex>,
    pub left: Option<NodeIndex>,
    pub right: Option<NodeIndex>,
}

impl View for Node {
    type V = NodeView;

    open spec fn view(&self) -> NodeView {
        NodeView { members: self.data@, parent: self.parent, left: self.left, right: self.right }
    }
}

impl PartialEq for Node {
    fn eq(&self, other: &Self) -> (r: bool) {
        Node::is_equal(self, other)
    }
}

impl PartialEqSpecImpl for Node {
    open spec fn obeys_eq_spec() -> bool {
        true
    }

    open spec fn eq_spec(&self, other: &Self) -> bool {
        self@.members == other@.members
    }
}

impl Node {
    /// The singleton cluster of item `i`.
    #[inline]
    pub fn new_from_str(i: usize) -> (r: Self)
        ensures
            r@ == (NodeView { members: seq![i], parent: None, left: None, right: None }),
    {
        let mut v = Vec::new();
        v.push(i);
        assert(v@ =~= seq![i]);
        Node { data: v, parent: None, left: None, right: None }
    }

    #[inline]
    pub fn new_empty() -> (r: Self)
        ensures
            r@ == (NodeView { members: Seq::empty(), parent: None, left: None, right: None }),
    {
        let v = Vec::new();
        Node { data: v, parent: None, left: None, right: None }
    }

    #[inline]
    pub fn inner_data_size(node: &Node) -> (r: usize)
        ensures
            r == node@.members.len(),
    {
        node.data.len()
    }

    #[inline]
    pub fn get_inner_data(node: &Node) -> (r: &Vec<usize>)
        ensures
            r@ == node@.members,
    {
        &node.data
    }

    #[inline]
    pub fn set_left(node: &mut Node, left_index: NodeIndex)
        ensures
            final(node)@ == (NodeView { left: Some(left_index), ..old(node)@ }),
    {
        node.left = Some(left_index);
    }

    #[inline]
    pub fn set_right(node: &mut Node, right_index: NodeIndex)
        ensures
            final(node)@ == (NodeView { right: Some(right_index), ..old(node)@ }),
    {
        node.right = Some(right_index);
    }

    #[inline]
    pub fn set_parent(node: &mut Node, parent_index: NodeIndex)
        ensures
            final(node)@ == (NodeView { parent: Some(parent_index), ..old(node)@ }),
    {
        node.parent = Some(parent_index);
    }

    #[inline]
    pub fn get_parent_idx(node: &Node) -> (r: Option<NodeIndex>)
        ensures
            r == node@.parent,
    {
        node.parent
    }

    /// The last item of the cluster, which is its only one for a singleton.
    #[inline]
    pub fn get_left_str(node: &Node) -> (r: usize)
        requires
            node@.members.len() > 0,
        ensures
            r == node@.members.last(),
    {
        node.data[node.data.len() - 1]
    }

    /// Appends the items `inputs` to those of `node`.
    #[inline]
    pub fn add_inner(node: &mut Node, inputs: &Vec<usize>)
        ensures
            final(node)@ == (NodeView { members: old(node)@.members + inputs@, ..old(node)@ }),
    {
        let n = inputs.len();
        let mut i: usize = 0;
        while i < n
            invariant
                n == inputs@.len(),
                i <= n,
                node@ == (NodeView {
                    members: old(node)@.members + inputs@.subrange(0, i as int),
                    ..old(node)@
                }),
            decreases n - i,
        {
            node.data.push(inputs[i]);
            i += 1;
            assert(node@.members =~= old(node)@.members + inputs@.subrange(0, i as int));
        }
        assert(inputs@.subrange(0, n as int) =~= inputs@);
    }

    /// Whether two clusters hold the same items in the same order.
    #[inline]
    pub fn is_equal(n1: &Node, n2: &Node) -> (r: bool)
        ensures
            r == (n1@.members == n2@.members),
    {
        let len = n1.data.len();
        if len != n2.data.len() {
            return false;
        }
        let mut i: usize = 0;
        while i < len
            invariant
                len == n1@.members.len(),
                len == n2@.members.len(),
                i <= len,
                forall|k: int| 0 <= k < i ==> n1@.members[k] == n2@.members[k],
            decreases len - i,
        {
            if n1.data[i] != n2.data[i] {
                assert(n1@.members[i as int] != n2@.members[i as int]);
                return false;
            }
            i += 1;
        }
        assert(n1@.members =~= n2@.members);
        true
    }

    /// A copy of `node`.
    pub fn clone(node: &Node) -> (r: Node)
        ensures
            r@ == node@,
    {
        let inner = Node::get_inner_data(node);
        let mut new_n = Node::new_empty();
        Node::add_inner(&mut new_n, inner);
        new_n.right = node.right;
        new_n.left = node.left;
        new_n.parent = node.parent;
        assert(new_n@.members =~= node@.members);
        new_n
    }
}

/// A linkage score with the handles of the two clusters it was computed for.
pub type Scored = (i64, NodeIndex, NodeIndex);

/// The linkage of cluster `c` with cluster `new`, with the two handles, where
/// it is defined.
pub open spec fn scored_pair(f: Forest, m: ScoreMap, c: NodeIndex, new: NodeIndex) -> Option<
    Scored,
> {
    match linkage(m, f.members(c), f.members(new)) {
        Some(score) => Some((score as i64, c, new)),
        None => None,
    }
}

/// As a function of the handle `c`: the linkage of `c` with `new`.
pub open spec fn score_against(f: Forest, m: ScoreMap, new: NodeIndex) -> spec_fn(
    NodeIndex,
) -> Option<Scored> {
    |c: NodeIndex| scored_pair(f, m, c, new)
}

/// As a predicate: the linkage is defined.
pub open spec fn is_offer() -> spec_fn(Option<Scored>) -> bool {
    |o: Option<Scored>| o is Some
}

/// As a function: the queue entry for a defined linkage.
pub open spec fn as_entry() -> spec_fn(Option<Scored>) -> (i64, HeapPair) {
    |o: Option<Scored>|
        (o.unwrap().0, HeapPair { from_index: o.unwrap().1, to_index: o.unwrap().2 })
}

/// The queue entries for those of `scored` that are defined, in their order.
pub open spec fn entries_of(scored: Seq<Option<Scored>>) -> Seq<(i64, HeapPair)> {
    scored.filter(is_offer()).map_values(as_entry())
}

/// The queue entries that a new cluster `new` gives rise to: one for each
/// candidate with which its linkage is defined, from the candidate to `new`.
pub open spec fn offers(f: Forest, m: ScoreMap, new: NodeIndex) -> Seq<(i64, HeapPair)> {
    entries_of(f.candidates(new).map_values(score_against(f, m, new)))
}

/// The queue entries that one step on the pair `l` and `r` adds: none where
/// the pair is stale or the merge completes the tree, else those that the new
/// cluster gives rise to.
pub open spec fn step_offers(f: Forest, m: ScoreMap, l: NodeIndex, r: NodeIndex) -> Seq<
    (i64, HeapPair),
> {
    if f.is_stale(l, r) || f.step(l, r).root is Some {
        Seq::empty()
    } else {
        offers(f.step(l, r), m, f.nodes.len() as usize)
    }
}

/// The arena of clusters, with the labels of the items.
pub struct BinaryT {
    root_index: Option<NodeIndex>,
    nodes: Vec<Node>,
    all_samples: Vec<String>,
}

impl View for BinaryT {
    type V = Forest;

    closed spec fn view(&self) -> Forest {
        Forest {
            nodes: Seq::new(self.nodes@.len(), |h: int| self.nodes@[h]@),
            labels: Seq::new(self.all_samples@.len(), |i: int| self.all_samples@[i]@),
            root: self.root_index,
        }
    }
}

impl BinaryT {
    /// The forest in which each of the items labelled `all_samples` is a
    /// cluster of its own.
    pub fn new(all_samples: Vec<String>) -> (r: Self)
        requires
            all_samples@.len() <= MAX_ITEMS,
        ensures
            r@ == Forest::fresh(all_samples@.map_values(|s: String| s@)),
            r@.well_formed(),
    {
        let nodes = Self::str_to_leaf_nodes(&all_samples);
        let r = BinaryT { root_index: None, nodes, all_samples };
        proof {
            let f = r@;
            assert(f.labels =~= all_samples@.map_values(|s: String| s@));
            assert(f.nodes =~= Forest::fresh(f.labels).nodes);
            lemma_fresh_is_well_formed(f.labels);
        }
        r
    }

    /// The singleton clusters of the items labelled `inputs`, in their order.
    #[inline]
    pub fn str_to_leaf_nodes(inputs: &Vec<String>) -> (r: Vec<Node>)
        ensures
            r@.len() == inputs@.len(),
            forall|i: int|
                0 <= i < r@.len() ==> (#[trigger] r@[i])@ == (NodeView {
                    members: seq![i as usize],
                    parent: None,
                    left: None,
                    right: None,
                }),
    {
        let n = inputs.len();
        let mut out: Vec<Node> = Vec::new();
        let mut i: usize = 0;
        while i < n
            invariant
                i <= n,
                out@.len() == i,
                forall|k: int|
                    0 <= k < i ==> (#[trigger] out@[k])@ == (NodeView {
                        members: seq![k as usize],
                        parent: None,
                        left: None,
                        right: None,
                    }),
            decreases n - i,
        {
            out.push(Node::new_from_str(i));
            i += 1;
        }
        out
    }

    /// The handle of the cluster that holds every item, once a merge has made it.
    pub fn root(&self) -> (r: Option<NodeIndex>)
        ensures
            r == self@.root,
    {
        self.root_index
    }

    /// The number of clusters.
    pub fn len(&self) -> (r: usize)
        ensures
            r == self@.nodes.len(),
    {
        self.nodes.len()
    }

    /// The number of items.
    pub fn item_count(&self) -> (r: usize)
        ensures
            r == self@.labels.len(),
    {
        self.all_samples.len()
    }

    /// The cluster with handle `index`, if there is one.
    pub fn get_node(&self, index: NodeIndex) -> (r: Option<&Node>)
        ensures
            match r {
                Some(node) => self@.has(index) && node@ == self@.nodes[index as int],
                None => !self@.has(index),
            },
    {
        if index < self.nodes.len() {
            Some(&self.nodes[index])
        } else {
            None
        }
    }

    /// Merges the active clusters `left_index` and `right_index` into a new
    /// cluster and returns its handle.
    pub fn merge(&mut self, left_index: NodeIndex, right_index: NodeIndex) -> (parent_index:
        NodeIndex)
        requires
            old(self)@.has(left_index),
            old(self)@.has(right_index),
        ensures
            parent_index == old(self)@.nodes.len(),
            final(self)@ == old(self)@.merge(left_index, right_index),
            old(self)@.structure_ok() && old(self)@.is_active(left_index) && old(self)@.is_active(
                right_index,
            ) && left_index != right_index ==> final(self)@.structure_ok(),
    {
        proof {
            if self@.structure_ok() && self@.is_active(left_index) && self@.is_active(right_index)
                && left_index != right_index {
                lemma_merge_keeps_structure(self@, left_index, right_index);
            }
        }
        let parent_index: NodeIndex = self.nodes.len();
        let mut parent = Node::new_empty();
        Node::set_left(&mut parent, left_index);
        Node::set_right(&mut parent, right_index);
        Node::add_inner(&mut parent, Node::get_inner_data(&self.nodes[left_index]));
        Node::add_inner(&mut parent, Node::get_inner_data(&self.nodes[right_index]));
        Node::set_parent(&mut self.nodes[left_index], parent_index);
        Node::set_parent(&mut self.nodes[right_index], parent_index);
        self.nodes.push(parent);
        proof {
            assert(self@.nodes =~= old(self)@.merge(left_index, right_index).nodes);
            assert(self@.labels =~= old(self)@.labels);
        }
        parent_index
    }

    /// The items that no merge has absorbed yet, in ascending order, each as
    /// the handle of its singleton cluster.
    #[inline]
    pub fn get_unclustered_leafs(&self) -> (r: Vec<NodeIndex>)
        requires
            self@.labels.len() <= self@.nodes.len(),
        ensures
            r@ == self@.unclustered_leafs(),
    {
        let n = self.all_samples.len();
        let mut out: Vec<NodeIndex> = Vec::new();
        let mut i: usize = 0;
        proof {
            assert(handles(0, 0) =~= Seq::<NodeIndex>::empty());
            lemma_filter_of_empty(self@.active_ones());
        }
        while i < n
            invariant
                i <= n,
                n == self@.labels.len(),
                n <= self@.nodes.len(),
                out@ == handles(0, i as int).filter(self@.active_ones()),
            decreases n - i,
        {
            proof {
                assert(handles(0, i + 1) =~= handles(0, i as int).push(i));
                handles(0, i as int).lemma_filter_push(i, self@.active_ones());
            }
            if Node::get_parent_idx(&self.nodes[i]).is_none() {
                out.push(i);
            }
            i += 1;
        }
        out
    }

    /// The handles of the clusters that merges have made, in ascending order.
    #[inline]
    pub fn get_sub_tree_roots(&self) -> (r: Vec<NodeIndex>)
        requires
            self@.labels.len() <= self@.nodes.len(),
        ensures
            r@ == self@.sub_tree_roots(),
    {
        let n = self.all_samples.len();
        let len = self.nodes.len();
        let mut out: Vec<NodeIndex> = Vec::new();
        let mut h: usize = n;
        while h < len
            invariant
                n <= h <= len,
                out@ == handles(n as int, h as int),
            decreases len - h,
        {
            out.push(h);
            h += 1;
            assert(out@ =~= handles(n as int, h as int));
        }
        out
    }

    /// One step of clustering on the pair of clusters `left_index` and
    /// `right_index`. A pair of which one has been absorbed is stale: nothing
    /// happens. Otherwise the two are merged. Where the new cluster holds
    /// every item it becomes the root; else an entry goes into `max_heap` for
    /// each other active cluster with which its linkage is defined.
    pub fn updating(
        &mut self,
        left_index: NodeIndex,
        right_index: NodeIndex,
        max_heap: &mut MaxHeap<i64, HeapPair>,
        pair_value: &PairTable,
    )
        requires
            old(self)@.well_formed(),
            old(self)@.has(left_index),
            old(self)@.has(right_index),
            left_index != right_index || old(self)@.is_stale(left_index, right_index),
            old(max_heap).well_formed(),
        ensures
            final(self)@ == old(self)@.step(left_index, right_index),
            final(self)@.well_formed(),
            final(max_heap).well_formed(),
            final(max_heap).entries() == old(max_heap).entries().add(
                step_offers(
                    old(self)@,
                    table_scores(*pair_value),
                    left_index,
                    right_index,
                ).to_multiset(),
            ),
            old(self)@.is_stale(left_index, right_index) ==> {
                &&& final(self)@ == old(self)@
                &&& final(max_heap)@ == old(max_heap)@
            },
    {
        broadcast use vstd::multiset::group_multiset_axioms;

        let ghost before = self@;
        let ghost m = table_scores(*pair_value);
        let ghost queued = max_heap.entries();
        proof {
            lemma_step_keeps_well_formed(before, left_index, right_index);
            lemma_i64_keys_are_ordered();
            lemma_entries_of_empty();
            lemma_nothing_in_no_slots(Seq::<(i64, HeapPair)>::empty());
            assert(queued.add(Multiset::empty()) =~= queued);
        }
        let left_is_clustered = Node::get_parent_idx(&self.nodes[left_index]).is_some();
        let right_is_clustered = Node::get_parent_idx(&self.nodes[right_index]).is_some();
        if left_is_clustered || right_is_clustered {
            return ;
        }
        let new_centroid_idx = self.merge(left_index, right_index);
        let remained_leaf_centroids = self.get_unclustered_leafs();
        if Node::inner_data_size(&self.nodes[new_centroid_idx]) == self.all_samples.len() {
            self.root_index = Some(new_centroid_idx);
            proof {
                assert(self@.nodes =~= before.step(left_index, right_index).nodes);
                assert(self@.labels =~= before.step(left_index, right_index).labels);
            }
            return ;
        } else {
            let new_values = self.calculate_parallel(
                &remained_leaf_centroids,
                new_centroid_idx,
                pair_value,
            );
            let count = new_values.len();
            let mut k: usize = 0;
            proof {
                assert(new_values@.take(0) =~= Seq::<Option<Scored>>::empty());
            }
            while k < count
                invariant
                    k <= count,
                    count == new_values@.len(),
                    strict_weak_order::<i64>(),
                    max_heap.well_formed(),
                    max_heap.entries() == queued.add(
                        entries_of(new_values@.take(k as int)).to_multiset(),
                    ),
                decreases count - k,
            {
                proof {
                    lemma_entries_of_push(new_values@.take(k as int), new_values@[k as int]);
                    assert(new_values@.take(k + 1) =~= new_values@.take(k as int).push(
                        new_values@[k as int],
                    ));
                }
                match new_values[k] {
                    Some(o) => {
                        proof {
                            to_multiset_build(
                                entries_of(new_values@.take(k as int)),
                                (o.0, HeapPair { from_index: o.1, to_index: o.2 }),
                            );
                        }
                        max_heap.insert(o.0, HeapPair::new(o.1, o.2));
                    },
                    None => {},
                }
                k += 1;
                assert(max_heap.entries() =~= queued.add(
                    entries_of(new_values@.take(k as int)).to_multiset(),
                ));
            }
            assert(new_values@.take(count as int) =~= new_values@);
        }
    }

    /// The linkage of the new cluster `new_centroid` with each of the
    /// clusters `remained_leaf_centroids` and each active cluster that a
    /// merge has made, but for any whose items are those of `new_centroid`.
    pub fn calculate_parallel(
        &self,
        remained_leaf_centroids: &Vec<NodeIndex>,
        new_centroid: NodeIndex,
        pair_values: &PairTable,
    ) -> (r: Vec<Option<Scored>>)
        requires
            self@.structure_ok(),
            self@.has(new_centroid),
            forall|k: int|
                0 <= k < remained_leaf_centroids@.len() ==> self@.has(
                    #[trigger] remained_leaf_centroids@[k],
                ),
        ensures
            r@ == (remained_leaf_centroids@.filter(self@.unlike(new_centroid))
                + self@.sub_tree_roots().filter(self@.active_unlike(new_centroid))).map_values(
                score_against(self@, table_scores(*pair_values), new_centroid),
            ),
    {
        let ghost f = self@;
        let ghost m = table_scores(*pair_values);
        let ghost score = score_against(f, m, new_centroid);
        let sub_tree_roots = self.get_sub_tree_roots();
        let new_node = &self.nodes[new_centroid];
        let mut o1: Vec<Option<Scored>> = Vec::new();
        let leaf_count = remained_leaf_centroids.len();
        let mut k: usize = 0;
        proof {
            lemma_filter_of_empty(f.unlike(new_centroid));
            assert(remained_leaf_centroids@.take(0) =~= Seq::<NodeIndex>::empty());
        }
        while k < leaf_count
            invariant
                k <= leaf_count,
                leaf_count == remained_leaf_centroids@.len(),
                f == self@,
                f.structure_ok(),
                f.has(new_centroid),
                new_node@ == f.nodes[new_centroid as int],
                m == table_scores(*pair_values),
                score == score_against(f, m, new_centroid),
                forall|k: int|
                    0 <= k < remained_leaf_centroids@.len() ==> f.has(
                        #[trigger] remained_leaf_centroids@[k],
                    ),
                o1@ == remained_leaf_centroids@.take(k as int).filter(
                    f.unlike(new_centroid),
                ).map_values(score),
            decreases leaf_count - k,
        {
            let c = remained_leaf_centroids[k];
            proof {
                let done = remained_leaf_centroids@.take(k as int);
                assert(remained_leaf_centroids@.take(k + 1) =~= done.push(c));
                done.lemma_filter_push(c, f.unlike(new_centroid));
                assert(done.filter(f.unlike(new_centroid)).push(c).map_values(score)
                    =~= done.filter(f.unlike(new_centroid)).map_values(score).push(score(c)));
            }
            if !Node::is_equal(&self.nodes[c], new_node) {
                o1.push(self.calculate_two(c, new_centroid, pair_values));
            }
            k += 1;
        }
        let ghost first = remained_leaf_centroids@.filter(f.unlike(new_centroid));
        let root_count = sub_tree_roots.len();
        let mut k: usize = 0;
        proof {
            assert(remained_leaf_centroids@.take(leaf_count as int) =~= remained_leaf_centroids@);
            lemma_filter_of_empty(f.active_unlike(new_centroid));
            assert(sub_tree_roots@.take(0) =~= Seq::<NodeIndex>::empty());
            assert(first.map_values(score) =~= (first + Seq::<NodeIndex>::empty()).map_values(
                score,
            ));
        }
        while k < root_count
            invariant
                k <= root_count,
                root_count == sub_tree_roots@.len(),
                sub_tree_roots@ == f.sub_tree_roots(),
                f == self@,
                f.structure_ok(),
                f.has(new_centroid),
                new_node@ == f.nodes[new_centroid as int],
                m == table_scores(*pair_values),
                score == score_against(f, m, new_centroid),
                o1@ == (first + sub_tree_roots@.take(k as int).filter(
                    f.active_unlike(new_centroid),
                )).map_values(score),
            decreases root_count - k,
        {
            let c = sub_tree_roots[k];
            proof {
                let done = sub_tree_roots@.take(k as int);
                assert(sub_tree_roots@.take(k + 1) =~= done.push(c));
                done.lemma_filter_push(c, f.active_unlike(new_centroid));
                let kept = done.filter(f.active_unlike(new_centroid));
                assert((first + kept.push(c)).map_values(score) =~= (first + kept).map_values(
                    score,
                ).push(score(c)));
            }
            let node = &self.nodes[c];
            if Node::get_parent_idx(node).is_none() && !Node::is_equal(node, new_node) {
                o1.push(self.calculate_two(c, new_centroid, pair_values));
            }
            k += 1;
        }
        assert(sub_tree_roots@.take(root_count as int) =~= sub_tree_roots@);
        o1
    }

    /// The least handle of a cluster that holds the items of `node` in the
    /// same order, if there is one.
    pub fn get_node_index(&self, node: &Node) -> (r: Option<NodeIndex>)
        ensures
            match r {
                Some(h) => {
                    &&& self@.has(h)
                    &&& self@.members(h) == node@.members
                    &&& forall|g: NodeIndex| g < h ==> self@.members(g) != node@.members
                },
                None => forall|g: NodeIndex| self@.has(g) ==> self@.members(g) != node@.members,
            },
    {
        let len = self.nodes.len();
        let mut h: usize = 0;
        while h < len
            invariant
                h <= len,
                len == self@.nodes.len(),
                forall|g: NodeIndex| g < h ==> self@.members(g) != node@.members,
            decreases len - h,
        {
            if Node::is_equal(&self.nodes[h], node) {
                return Some(h);
            }
            h += 1;
        }
        None
    }

    /// Appends the Newick text of the tree under cluster `h` to `out`.
    fn newick_into(&self, h: NodeIndex, out: &mut String)
        requires
            self@.structure_ok(),
            self@.has(h),
        ensures
            final(out)@ == old(out)@ + self@.newick(h),
        decreases h,
    {
        let cur_node = &self.nodes[h];
        let ghost start = out@;
        proof {
            assert(self@.members_ok(h as int));
            if h < self@.labels.len() {
                assert(self@.leaf_ok(h as int));
            } else {
                assert(self@.join_ok(h as int));
                assert(self@.members_ok(self@.nodes[h as int].left->0 as int));
                assert(self@.members_ok(self@.nodes[h as int].right->0 as int));
            }
            reveal_strlit("(");
            reveal_strlit(",");
            reveal_strlit(")");
        }
        if Node::inner_data_size(cur_node) < 2 {
            let item = cur_node.data[0];
            out.append(self.all_samples[item].as_str());
            assert(out@ =~= start + self@.newick(h));
        } else {
            let left_idx = cur_node.left.unwrap();
            let right_idx = cur_node.right.unwrap();
            out.append("(");
            self.newick_into(left_idx, out);
            out.append(",");
            self.newick_into(right_idx, out);
            out.append(")");
            assert(out@ =~= start + self@.newick(h));
        }
    }

    /// The Newick text of the finished tree: the text of the tree under the
    /// root, and a semicolon.
    pub fn to_newick(&self) -> (r: String)
        requires
            self@.well_formed(),
            self@.root is Some,
        ensures
            r@ == self@.newick(self@.root->0) + seq![';'],
    {
        let mut out = String::new();
        self.newick_into(self.root_index.unwrap(), &mut out);
        proof {
            reveal_strlit(";");
        }
        out.append(";");
        assert(out@ =~= self@.newick(self@.root->0) + seq![';']);
        out
    }

    /// The linkage score of the clusters `left_index` and `right_index`,
    /// with the two handles, or `None` where no score is known between them.
    pub fn calculate_two(
        &self,
        left_index: NodeIndex,
        right_index: NodeIndex,
        pair_value_dict: &PairTable,
    ) -> (r: Option<(i64, NodeIndex, NodeIndex)>)
        requires
            self@.structure_ok(),
            self@.has(left_index),
            self@.has(right_index),
        ensures
            match linkage(
                table_scores(*pair_value_dict),
                self@.members(left_index),
                self@.members(right_index),
            ) {
                Some(score) => r == Some((score as i64, left_index, right_index)) && score_min()
                    <= score <= score_max(),
                None => r is None,
            },
    {
        let left_node = &self.nodes[left_index];
        let right_node = &self.nodes[right_index];
        let left_len = left_node.data.len();
        let right_len = right_node.data.len();
        let ghost m = table_scores(*pair_value_dict);
        let ghost xs = self@.members(left_index);
        let ghost bs = self@.members(right_index);
        proof {
            assert(self@.members_ok(left_index as int));
            assert(self@.members_ok(right_index as int));
            lemma_distinct_items(xs, self@.labels.len());
            lemma_distinct_items(bs, self@.labels.len());
            assert(left_len * right_len <= MAX_ITEMS * MAX_ITEMS) by (nonlinear_arith)
                requires
                    left_len <= MAX_ITEMS,
                    right_len <= MAX_ITEMS,
            ;
        }
        let mut sum: i128 = 0;
        let mut size: u64 = 0;
        let mut i: usize = 0;
        while i < left_len
            invariant
                i <= left_len,
                left_len == xs.len(),
                right_len == bs.len(),
                xs == left_node.data@,
                bs == right_node.data@,
                m == table_scores(*pair_value_dict),
                left_len * right_len <= MAX_ITEMS * MAX_ITEMS,
                sum == cross_sum(m, xs.take(i as int), bs),
                size == cross_count(m, xs.take(i as int), bs),
            decreases left_len - i,
        {
            let l = left_node.data[i];
            let ghost sum0 = sum;
            let ghost size0 = size;
            proof {
                lemma_cross_bounds(m, xs.take(i as int), bs);
                assert(i * right_len + right_len <= left_len * right_len) by (nonlinear_arith)
                    requires
                        i < left_len,
                ;
            }
            let mut j: usize = 0;
            while j < right_len
                invariant
                    j <= right_len,
                    i < left_len,
                    left_len == xs.len(),
                    right_len == bs.len(),
                    bs == right_node.data@,
                    l == xs[i as int],
                    m == table_scores(*pair_value_dict),
                    left_len * right_len <= MAX_ITEMS * MAX_ITEMS,
                    i * right_len + right_len <= left_len * right_len,
                    size0 <= i * right_len,
                    score_min() * size0 <= sum0 <= score_max() * size0,
                    sum == sum0 + row_sum(m, l, bs.take(j as int)),
                    size == size0 + row_count(m, l, bs.take(j as int)),
                decreases right_len - j,
            {
                let r = right_node.data[j];
                proof {
                    lemma_row_bounds(m, l, bs.take(j as int));
                    let c = row_count(m, l, bs.take(j as int)) as int;
                    assert(score_min() * (size0 + c) == score_min() * size0 + score_min() * c)
                        by (nonlinear_arith);
                    assert(score_max() * (size0 + c) == score_max() * size0 + score_max() * c)
                        by (nonlinear_arith);
                    assert(score_max() * (size0 + c) <= score_max() * (MAX_ITEMS * MAX_ITEMS))
                        by (nonlinear_arith)
                        requires
                            0 <= size0 + c <= MAX_ITEMS * MAX_ITEMS,
                    ;
                    assert(score_min() * (size0 + c) >= score_min() * (MAX_ITEMS * MAX_ITEMS))
                        by (nonlinear_arith)
                        requires
                            0 <= size0 + c <= MAX_ITEMS * MAX_ITEMS,
                    ;
                    assert(bs.take(j + 1).drop_last() =~= bs.take(j as int));
                }
                let known = match table_get(pair_value_dict, l, r) {
                    Some(o) => Some(o),
                    None => table_get(pair_value_dict, r, l),
                };
                assert(known == pair_score(m, l, r));
                match known {
                    Some(o) => {
                        sum += o as i128;
                        size += 1;
                    },
                    None => {},
                }
                j += 1;
            }
            proof {
                assert(bs.take(right_len as int) =~= bs);
                assert(xs.take(i + 1).drop_last() =~= xs.take(i as int));
            }
            i += 1;
        }
        proof {
            assert(xs.take(left_len as int) =~= xs);
            lemma_cross_bounds(m, xs, bs);
        }
        if size == 0 {
            None
        } else {
            proof {
                lemma_mean_is_score(sum as int, size as int);
            }
            let out_value = (sum / (size as i128)) as i64;
            Some((out_value, left_index, right_index))
        }
    }
}

/// No linkage gives no queue entry.
proof fn lemma_entries_of_empty()
    ensures
        entries_of(Seq::empty()) == Seq::<(i64, HeapPair)>::empty(),
{
    reveal(Seq::filter);
    assert(Seq::<Option<Scored>>::empty().filter(is_offer()).map_values(as_entry())
        =~= Seq::<(i64, HeapPair)>::empty());
}

/// One more linkage gives one more queue entry if it is defined, else none.
proof fn lemma_entries_of_push(scored: Seq<Option<Scored>>, o: Option<Scored>)
    ensures
        entries_of(scored.push(o)) == (match o {
            Some(t) => entries_of(scored).push((t.0, HeapPair { from_index: t.1, to_index: t.2 })),
            None => entries_of(scored),
        }),
{
    scored.lemma_filter_push(o, is_offer());
    if o is Some {
        assert(scored.filter(is_offer()).push(o).map_values(as_entry()) =~= scored.filter(
            is_offer(),
        ).map_values(as_entry()).push(as_entry()(o)));
    }
}

} // verus!
