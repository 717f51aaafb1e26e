use hclust::binary_tree::{BinaryT, HeapPair, Node};
use hclust::max_heap::MaxHeap;
use ABtree::BTree;

fn labels(names: &[&str]) -> Vec<String> {
    names.iter().map(|s| s.to_string()).collect()
}

fn table(scores: &[(usize, usize, i64)]) -> BTree<(usize, usize), i64> {
    let mut t = BTree::new(4);
    for (a, b, s) in scores {
        t.insert((*a, *b), *s);
    }
    t
}

fn drain(h: &mut MaxHeap<i64, HeapPair>) -> Vec<(i64, usize, usize)> {
    let mut out = Vec::new();
    loop {
        match h.pop_max() {
            Some((s, p)) => out.push((s, p.from_index, p.to_index)),
            None => return out,
        }
    }
}

#[test]
fn heap_pair_holds_both_handles() {
    let p = HeapPair::new(3, 8);
    assert_eq!(p.from_index, 3);
    assert_eq!(p.to_index, 8);
}

#[test]
fn node_constructors() {
    let leaf = Node::new_from_str(4);
    assert_eq!(leaf.data, vec![4]);
    assert_eq!(leaf.parent, None);
    assert_eq!(leaf.left, None);
    assert_eq!(leaf.right, None);
    let empty = Node::new_empty();
    assert_eq!(Node::inner_data_size(&empty), 0);
    assert_eq!(Node::inner_data_size(&leaf), 1);
    assert_eq!(Node::get_inner_data(&leaf), &vec![4]);
}

#[test]
fn node_setters_and_getters() {
    let mut n = Node::new_from_str(0);
    assert_eq!(Node::get_parent_idx(&n), None);
    Node::set_parent(&mut n, 7);
    Node::set_left(&mut n, 1);
    Node::set_right(&mut n, 2);
    assert_eq!(Node::get_parent_idx(&n), Some(7));
    assert_eq!(n.left, Some(1));
    assert_eq!(n.right, Some(2));
    assert_eq!(n.data, vec![0]);
}

#[test]
fn node_get_left_str_is_the_last_item() {
    assert_eq!(Node::get_left_str(&Node::new_from_str(6)), 6);
    let mut n = Node::new_from_str(6);
    Node::add_inner(&mut n, &vec![2, 9]);
    assert_eq!(Node::get_left_str(&n), 9);
    assert_eq!(n.data, vec![6, 2, 9]);
}

#[test]
fn node_add_inner_appends_in_order() {
    let mut n = Node::new_from_str(5);
    Node::add_inner(&mut n, &vec![1, 2]);
    Node::add_inner(&mut n, &vec![]);
    Node::add_inner(&mut n, &vec![9]);
    assert_eq!(n.data, vec![5, 1, 2, 9]);
}

#[test]
fn node_equality_is_by_members_in_order() {
    let mut a = Node::new_empty();
    Node::add_inner(&mut a, &vec![1, 2]);
    let mut b = Node::new_empty();
    Node::add_inner(&mut b, &vec![1, 2]);
    Node::set_parent(&mut b, 9);
    let mut c = Node::new_empty();
    Node::add_inner(&mut c, &vec![2, 1]);
    let mut d = Node::new_empty();
    Node::add_inner(&mut d, &vec![1, 2, 3]);
    assert!(Node::is_equal(&a, &b));
    assert!(!Node::is_equal(&a, &c));
    assert!(!Node::is_equal(&a, &d));
    assert!(!Node::is_equal(&d, &a));
    assert!(a == b);
    assert!(a != c);
}

#[test]
fn node_clone_copies_everything() {
    let mut a = Node::new_empty();
    Node::add_inner(&mut a, &vec![3, 1]);
    Node::set_parent(&mut a, 6);
    Node::set_left(&mut a, 0);
    Node::set_right(&mut a, 2);
    let b = Node::clone(&a);
    assert_eq!(b.data, vec![3, 1]);
    assert_eq!(b.parent, Some(6));
    assert_eq!(b.left, Some(0));
    assert_eq!(b.right, Some(2));
}

#[test]
fn new_forest_has_one_leaf_per_item() {
    let t = BinaryT::new(labels(&["a", "b", "c"]));
    assert_eq!(t.len(), 3);
    assert_eq!(t.item_count(), 3);
    assert_eq!(t.root(), None);
    for i in 0..3 {
        let n = t.get_node(i).unwrap();
        assert_eq!(n.data, vec![i]);
        assert_eq!(n.parent, None);
        assert_eq!(n.left, None);
        assert_eq!(n.right, None);
    }
    assert!(t.get_node(3).is_none());
    assert_eq!(t.get_unclustered_leafs(), vec![0, 1, 2]);
    assert_eq!(t.get_sub_tree_roots(), Vec::<usize>::new());
}

#[test]
fn str_to_leaf_nodes_numbers_the_items() {
    let nodes = BinaryT::str_to_leaf_nodes(&labels(&["x", "y"]));
    assert_eq!(nodes.len(), 2);
    assert_eq!(nodes[0].data, vec![0]);
    assert_eq!(nodes[1].data, vec![1]);
    assert_eq!(nodes[1].parent, None);
}

#[test]
fn merge_appends_a_parent_and_links_the_children() {
    let mut t = BinaryT::new(labels(&["a", "b", "c", "d"]));
    let p = t.merge(2, 0);
    assert_eq!(p, 4);
    assert_eq!(t.len(), 5);
    let parent = t.get_node(4).unwrap();
    assert_eq!(parent.data, vec![2, 0]);
    assert_eq!(parent.left, Some(2));
    assert_eq!(parent.right, Some(0));
    assert_eq!(parent.parent, None);
    assert_eq!(t.get_node(2).unwrap().parent, Some(4));
    assert_eq!(t.get_node(0).unwrap().parent, Some(4));
    assert_eq!(t.get_node(1).unwrap().parent, None);
    assert_eq!(t.get_node(2).unwrap().data, vec![2]);
    assert_eq!(t.root(), None);
    assert_eq!(t.get_unclustered_leafs(), vec![1, 3]);
    assert_eq!(t.get_sub_tree_roots(), vec![4]);
    let q = t.merge(4, 3);
    assert_eq!(q, 5);
    assert_eq!(t.get_node(5).unwrap().data, vec![2, 0, 3]);
    assert_eq!(t.get_node(4).unwrap().parent, Some(5));
    assert_eq!(t.get_unclustered_leafs(), vec![1]);
    assert_eq!(t.get_sub_tree_roots(), vec![4, 5]);
}

#[test]
fn get_node_index_finds_a_cluster_by_its_members() {
    let mut t = BinaryT::new(labels(&["a", "b", "c"]));
    t.merge(1, 2);
    let mut probe = Node::new_empty();
    Node::add_inner(&mut probe, &vec![1, 2]);
    assert_eq!(t.get_node_index(&probe), Some(3));
    assert_eq!(t.get_node_index(&Node::new_from_str(2)), Some(2));
    let mut other = Node::new_empty();
    Node::add_inner(&mut other, &vec![2, 1]);
    assert_eq!(t.get_node_index(&other), None);
    assert_eq!(t.get_node_index(&Node::new_empty()), None);
}

#[test]
fn calculate_two_is_the_mean_of_the_known_scores() {
    let mut t = BinaryT::new(labels(&["a", "b", "c", "d"]));
    let ab = t.merge(0, 1);
    let cd = t.merge(2, 3);
    let scores = table(&[(0, 2, 10), (3, 0, 4), (1, 2, 7)]);
    // pairs a-c 10, a-d 4 (recorded as d-a), b-c 7, b-d unknown: 21 / 3
    assert_eq!(t.calculate_two(ab, cd, &scores), Some((7, ab, cd)));
    assert_eq!(t.calculate_two(cd, ab, &scores), Some((7, cd, ab)));
    assert_eq!(t.calculate_two(0, 2, &scores), Some((10, 0, 2)));
    assert_eq!(t.calculate_two(2, 0, &scores), Some((10, 2, 0)));
    assert_eq!(t.calculate_two(1, 3, &scores), None);
    assert_eq!(t.calculate_two(0, 1, &scores), None);
}

#[test]
fn calculate_two_rounds_towards_zero() {
    let mut t = BinaryT::new(labels(&["a", "b", "c"]));
    let ab = t.merge(0, 1);
    assert_eq!(t.calculate_two(ab, 2, &table(&[(0, 2, 1), (1, 2, 2)])), Some((1, ab, 2)));
    assert_eq!(t.calculate_two(ab, 2, &table(&[(0, 2, -1), (1, 2, -2)])), Some((-1, ab, 2)));
    assert_eq!(t.calculate_two(ab, 2, &table(&[(0, 2, -7), (1, 2, 2)])), Some((-2, ab, 2)));
    assert_eq!(t.calculate_two(ab, 2, &table(&[(0, 2, 1), (1, 2, -1)])), Some((0, ab, 2)));
}

#[test]
fn calculate_two_takes_the_first_direction_where_both_are_recorded() {
    let t = BinaryT::new(labels(&["a", "b"]));
    let scores = table(&[(0, 1, 5), (1, 0, 9)]);
    assert_eq!(t.calculate_two(0, 1, &scores), Some((5, 0, 1)));
    assert_eq!(t.calculate_two(1, 0, &scores), Some((9, 1, 0)));
}

#[test]
fn calculate_two_does_not_overflow_on_extreme_scores() {
    let mut t = BinaryT::new(labels(&["a", "b", "c"]));
    let ab = t.merge(0, 1);
    let top = table(&[(0, 2, i64::MAX), (1, 2, i64::MAX)]);
    assert_eq!(t.calculate_two(ab, 2, &top), Some((i64::MAX, ab, 2)));
    let bottom = table(&[(0, 2, i64::MIN), (1, 2, i64::MIN)]);
    assert_eq!(t.calculate_two(ab, 2, &bottom), Some((i64::MIN, ab, 2)));
    let mixed = table(&[(0, 2, i64::MIN), (1, 2, i64::MAX)]);
    assert_eq!(t.calculate_two(ab, 2, &mixed), Some((0, ab, 2)));
}

#[test]
fn calculate_parallel_scores_every_other_active_cluster() {
    let mut t = BinaryT::new(labels(&["a", "b", "c", "d", "e"]));
    let ab = t.merge(0, 1);
    let cd = t.merge(2, 3);
    let scores = table(&[(0, 2, 8), (1, 3, 4), (4, 2, 3)]);
    let leafs = t.get_unclustered_leafs();
    assert_eq!(leafs, vec![4]);
    let got = t.calculate_parallel(&leafs, cd, &scores);
    // the unabsorbed leaf e first, then the active merge result ab; cd itself is left out
    assert_eq!(got, vec![Some((3, 4, cd)), Some((6, ab, cd))]);
    let got = t.calculate_parallel(&leafs, ab, &scores);
    assert_eq!(got, vec![None, Some((6, cd, ab))]);
}

#[test]
fn updating_merges_and_queues_the_new_candidates() {
    let mut t = BinaryT::new(labels(&["s1", "s2", "s3", "s4"]));
    let scores = table(&[(0, 1, 10), (0, 2, 1), (0, 3, 2), (1, 2, 3), (1, 3, 4), (2, 3, 9)]);
    let mut heap: MaxHeap<i64, HeapPair> = MaxHeap::new();
    t.updating(0, 1, &mut heap, &scores);
    assert_eq!(t.len(), 5);
    assert_eq!(t.root(), None);
    assert_eq!(t.get_node(4).unwrap().data, vec![0, 1]);
    assert_eq!(heap.len(), 2);
    // s3 against {s1,s2}: (1 + 3) / 2; s4 against {s1,s2}: (2 + 4) / 2
    assert_eq!(drain(&mut heap), vec![(3, 3, 4), (2, 2, 4)]);
}

#[test]
fn updating_leaves_out_candidates_without_a_score() {
    let mut t = BinaryT::new(labels(&["a", "b", "c", "d"]));
    let scores = table(&[(0, 1, 10), (2, 0, 6)]);
    let mut heap: MaxHeap<i64, HeapPair> = MaxHeap::new();
    t.updating(0, 1, &mut heap, &scores);
    assert_eq!(drain(&mut heap), vec![(6, 2, 4)]);
}

#[test]
fn updating_discards_a_stale_pair() {
    let mut t = BinaryT::new(labels(&["a", "b", "c"]));
    let scores = table(&[(0, 1, 10), (0, 2, 1), (1, 2, 2)]);
    let mut heap: MaxHeap<i64, HeapPair> = MaxHeap::new();
    t.updating(0, 1, &mut heap, &scores);
    assert_eq!(t.len(), 4);
    assert_eq!(heap.len(), 1);
    // item 0 has been absorbed: the pair (0, 2) is stale, whichever side it is on
    t.updating(0, 2, &mut heap, &scores);
    t.updating(2, 1, &mut heap, &scores);
    assert_eq!(t.len(), 4);
    assert_eq!(t.root(), None);
    assert_eq!(heap.len(), 1);
    assert_eq!(t.get_node(0).unwrap().parent, Some(3));
    assert_eq!(t.get_node(1).unwrap().parent, Some(3));
    assert_eq!(t.get_node(2).unwrap().parent, None);
    assert_eq!(t.get_node(3).unwrap().parent, None);
    assert_eq!(t.get_node(3).unwrap().data, vec![0, 1]);
    assert_eq!(drain(&mut heap), vec![(1, 2, 3)]);
}

#[test]
fn updating_discards_a_stale_pair_that_names_one_cluster_twice() {
    let mut t = BinaryT::new(labels(&["a", "b", "c"]));
    let scores = table(&[(0, 1, 10), (0, 2, 1), (1, 2, 2)]);
    let mut heap: MaxHeap<i64, HeapPair> = MaxHeap::new();
    t.updating(0, 1, &mut heap, &scores);
    t.updating(0, 0, &mut heap, &scores);
    t.updating(1, 1, &mut heap, &scores);
    assert_eq!(t.len(), 4);
    assert_eq!(t.root(), None);
    assert_eq!(heap.len(), 1);
    assert_eq!(t.get_node(0).unwrap().parent, Some(3));
    assert_eq!(t.get_node(0).unwrap().data, vec![0]);
    assert_eq!(t.get_node(1).unwrap().parent, Some(3));
    assert_eq!(t.get_node(3).unwrap().data, vec![0, 1]);
    assert_eq!(drain(&mut heap), vec![(1, 2, 3)]);
}

#[test]
fn updating_sets_the_root_when_every_item_is_in() {
    let mut t = BinaryT::new(labels(&["a", "b", "c"]));
    let scores = table(&[(0, 1, 10), (0, 2, 1), (1, 2, 2)]);
    let mut heap: MaxHeap<i64, HeapPair> = MaxHeap::new();
    t.updating(0, 1, &mut heap, &scores);
    let (_, pair) = heap.pop_max().unwrap();
    t.updating(pair.from_index, pair.to_index, &mut heap, &scores);
    assert_eq!(t.root(), Some(4));
    assert_eq!(t.len(), 5);
    assert_eq!(heap.len(), 0);
    let mut members = t.get_node(4).unwrap().data.clone();
    assert_eq!(members, vec![2, 0, 1]);
    members.sort();
    assert_eq!(members, vec![0, 1, 2]);
    // once the root is set every pair is stale
    t.updating(4, 2, &mut heap, &scores);
    t.updating(0, 1, &mut heap, &scores);
    assert_eq!(t.len(), 5);
    assert_eq!(t.root(), Some(4));
    assert_eq!(heap.len(), 0);
}

#[test]
fn to_newick_of_two_items() {
    let mut t = BinaryT::new(labels(&["left", "right"]));
    let mut heap: MaxHeap<i64, HeapPair> = MaxHeap::new();
    t.updating(1, 0, &mut heap, &table(&[(0, 1, 1)]));
    assert_eq!(t.root(), Some(2));
    assert_eq!(t.to_newick(), "(right,left);");
}

#[test]
fn to_newick_nests_by_merge_order() {
    let mut t = BinaryT::new(labels(&["s1", "s2", "s3", "s4"]));
    let scores = table(&[]);
    let mut heap: MaxHeap<i64, HeapPair> = MaxHeap::new();
    t.updating(0, 1, &mut heap, &scores);
    t.updating(2, 3, &mut heap, &scores);
    t.updating(4, 5, &mut heap, &scores);
    assert_eq!(t.root(), Some(6));
    assert_eq!(t.to_newick(), "((s1,s2),(s3,s4));");
}

#[test]
fn to_newick_of_a_chain() {
    let mut t = BinaryT::new(labels(&["a", "b", "c", "d"]));
    let scores = table(&[]);
    let mut heap: MaxHeap<i64, HeapPair> = MaxHeap::new();
    t.updating(0, 1, &mut heap, &scores);
    t.updating(2, 4, &mut heap, &scores);
    t.updating(5, 3, &mut heap, &scores);
    assert_eq!(t.to_newick(), "((c,(a,b)),d);");
}

#[test]
fn to_newick_keeps_labels_as_they_are() {
    let mut t = BinaryT::new(labels(&["", "a,b", "\u{e9}"]));
    let scores = table(&[]);
    let mut heap: MaxHeap<i64, HeapPair> = MaxHeap::new();
    t.updating(0, 1, &mut heap, &scores);
    t.updating(3, 2, &mut heap, &scores);
    assert_eq!(t.to_newick(), "((,a,b),\u{e9});");
}

#[test]
fn forest_of_one_item_has_nothing_to_merge() {
    let t = BinaryT::new(labels(&["only"]));
    assert_eq!(t.len(), 1);
    assert_eq!(t.root(), None);
    assert_eq!(t.get_unclustered_leafs(), vec![0]);
}

#[test]
fn forest_of_no_items_is_empty() {
    let t = BinaryT::new(Vec::new());
    assert_eq!(t.len(), 0);
    assert_eq!(t.item_count(), 0);
    assert_eq!(t.root(), None);
    assert!(t.get_node(0).is_none());
}
