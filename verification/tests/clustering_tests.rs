use hclust::binary_tree::{BinaryT, HeapPair};
use hclust::clustering::{clustering, load, merge_all, ClusterError, Record};
use hclust::max_heap::MaxHeap;
use std::collections::HashMap;
use ABtree::BTree;

fn rec(from: &str, to: &str, value: i64) -> Record {
    Record { from: from.to_string(), to: to.to_string(), value }
}

fn five_items() -> Vec<Record> {
    vec![
        rec("s1", "s2", -2),
        rec("s1", "s3", -5),
        rec("s1", "s4", -7),
        rec("s1", "s5", -9),
        rec("s2", "s3", -4),
        rec("s2", "s4", -6),
        rec("s2", "s5", -7),
        rec("s3", "s4", -4),
        rec("s3", "s5", -6),
        rec("s4", "s5", -3),
    ]
}

fn complete(n: usize) -> Vec<Record> {
    let mut out = Vec::new();
    let mut x: i64 = 7;
    for a in 0..n {
        for b in (a + 1)..n {
            x = (x * 1103515245 + 12345) % 2147483648;
            let (from, to) = if x % 2 == 0 { (a, b) } else { (b, a) };
            let value = (out.len() as i64) * 1000 + x % 1000;
            out.push(rec(&format!("i{}", from), &format!("i{}", to), value));
        }
    }
    out
}

fn leaves_of(text: &str) -> Vec<String> {
    text.trim_end_matches(';')
        .split(',')
        .map(|s| s.trim_matches(|c| c == '(' || c == ')').to_string())
        .collect()
}

#[test]
fn three_items_merge_the_closest_pair_first() {
    let records = vec![rec("s1", "s2", 10), rec("s1", "s3", 1), rec("s2", "s3", 1)];
    // s1 and s2 merge first; s3, the candidate, then stands left of the new cluster
    assert_eq!(clustering(&records).unwrap(), "(s3,(s1,s2));");
}

#[test]
fn three_items_step_by_step() {
    let records = vec![rec("s1", "s2", 10), rec("s1", "s3", 1), rec("s2", "s3", 1)];
    let mut p = load(&records).unwrap();
    assert_eq!(p.heap.len(), 3);
    let (score, pair) = p.heap.pop_max().unwrap();
    assert_eq!((score, pair.from_index, pair.to_index), (10, 0, 1));
    p.tree.updating(pair.from_index, pair.to_index, &mut p.heap, &p.table);
    assert_eq!(p.tree.get_node(3).unwrap().data, vec![0, 1]);
    assert_eq!(p.tree.root(), None);
    assert_eq!(p.heap.len(), 3);
    assert_eq!(merge_all(&mut p.tree, &mut p.heap, &p.table), Ok(()));
    assert_eq!(p.tree.root(), Some(4));
    let mut members = p.tree.get_node(4).unwrap().data.clone();
    members.sort();
    assert_eq!(members, vec![0, 1, 2]);
}

#[test]
fn four_items_in_two_pairs() {
    let records = vec![
        rec("s1", "s2", 10),
        rec("s3", "s4", 9),
        rec("s1", "s3", 1),
        rec("s1", "s4", 2),
        rec("s2", "s3", 3),
        rec("s2", "s4", 4),
    ];
    assert_eq!(clustering(&records).unwrap(), "((s1,s2),(s3,s4));");
}

#[test]
fn five_items_with_negative_scores() {
    // s1,s2 at -2; then s4,s5 at -3; then s3 joins {s1,s2} at (-5 - 4) / 2 = -4,
    // ahead of {s4,s5} at (-4 - 6) / 2 = -5; the last two join at -6
    assert_eq!(clustering(&five_items()).unwrap(), "((s4,s5),(s3,(s1,s2)));");
}

#[test]
fn two_items() {
    assert_eq!(clustering(&vec![rec("b", "a", 0)]).unwrap(), "(b,a);");
}

#[test]
fn load_numbers_items_by_first_occurrence() {
    let records = vec![rec("q", "p", 5), rec("r", "q", 6), rec("p", "r", 7)];
    let mut p = load(&records).unwrap();
    assert_eq!(p.tree.item_count(), 3);
    assert_eq!(p.tree.len(), 3);
    assert_eq!(p.tree.root(), None);
    assert_eq!(p.table.len(), 3);
    assert_eq!(p.table.get(&(0, 1)), Some(&5));
    assert_eq!(p.table.get(&(2, 0)), Some(&6));
    assert_eq!(p.table.get(&(1, 2)), Some(&7));
    assert_eq!(p.table.get(&(1, 0)), None);
    assert_eq!(p.heap.len(), 3);
    let (s, pair) = p.heap.pop_max().unwrap();
    assert_eq!((s, pair), (7, HeapPair { from_index: 1, to_index: 2 }));
    let (s, pair) = p.heap.pop_max().unwrap();
    assert_eq!((s, pair), (6, HeapPair { from_index: 2, to_index: 0 }));
    let (s, pair) = p.heap.pop_max().unwrap();
    assert_eq!((s, pair), (5, HeapPair { from_index: 0, to_index: 1 }));
    // item 0 is "q", item 1 is "p", item 2 is "r"
    p.tree.updating(0, 1, &mut p.heap, &p.table);
    p.tree.updating(3, 2, &mut p.heap, &p.table);
    assert_eq!(p.tree.to_newick(), "((q,p),r);");
}

#[test]
fn missing_pair_is_refused_before_clustering() {
    let records = vec![rec("s1", "s2", 10), rec("s1", "s3", 1)];
    let want = ClusterError::CombinationCountMismatch { items: 3, expected: 3, accepted: 2 };
    assert_eq!(clustering(&records).unwrap_err(), want);
    assert_eq!(load(&records).err(), Some(want));
    let mut four = five_items();
    four.retain(|r| r.to != "s5");
    four.pop();
    let want = ClusterError::CombinationCountMismatch { items: 4, expected: 6, accepted: 5 };
    assert_eq!(clustering(&four).unwrap_err(), want);
}

#[test]
fn surplus_pair_is_refused() {
    let records =
        vec![rec("a", "b", 1), rec("b", "a", 2), rec("a", "c", 3), rec("c", "b", 4)];
    let want = ClusterError::CombinationCountMismatch { items: 3, expected: 3, accepted: 4 };
    assert_eq!(clustering(&records).unwrap_err(), want);
}

#[test]
fn repeated_record_counts_once() {
    let records =
        vec![rec("a", "b", 1), rec("a", "b", 5), rec("a", "c", 3), rec("c", "b", 4)];
    let p = load(&records).unwrap();
    assert_eq!(p.table.len(), 3);
    assert_eq!(p.table.get(&(0, 1)), Some(&5));
    assert_eq!(p.heap.len(), 4);
    assert_eq!(clustering(&records).unwrap(), "(c,(a,b));");
}

#[test]
fn no_records_are_too_few_items() {
    assert_eq!(clustering(&Vec::new()).unwrap_err(), ClusterError::TooFewItems);
    assert_eq!(load(&Vec::new()).err(), Some(ClusterError::TooFewItems));
}

#[test]
fn self_pair_is_refused() {
    // three items and three scores, as needed, but one of them pairs c with itself
    let records = vec![rec("a", "b", 1), rec("a", "c", 2), rec("c", "c", 3)];
    assert_eq!(clustering(&records).unwrap_err(), ClusterError::SelfPair { record: 2 });
    // the first of several is named
    let first = vec![rec("x", "x", 1), rec("y", "x", 2), rec("z", "z", 3)];
    assert_eq!(load(&first).err(), Some(ClusterError::SelfPair { record: 0 }));
}

#[test]
fn count_mismatch_goes_before_a_self_pair() {
    let records = vec![rec("a", "b", 1), rec("c", "c", 2), rec("d", "d", 3)];
    let want = ClusterError::CombinationCountMismatch { items: 4, expected: 6, accepted: 3 };
    assert_eq!(clustering(&records).unwrap_err(), want);
    let alone = vec![rec("a", "a", 1)];
    let want = ClusterError::CombinationCountMismatch { items: 1, expected: 0, accepted: 1 };
    assert_eq!(clustering(&alone).unwrap_err(), want);
    let two = vec![rec("a", "a", 1), rec("b", "b", 2), rec("a", "b", 3), rec("a", "a", 4)];
    let want = ClusterError::CombinationCountMismatch { items: 2, expected: 1, accepted: 3 };
    assert_eq!(load(&two).err(), Some(want));
}

#[test]
fn single_item_forest_reports_an_empty_queue() {
    let mut tree = BinaryT::new(vec!["only".to_string()]);
    let mut heap: MaxHeap<i64, HeapPair> = MaxHeap::new();
    let table: BTree<(usize, usize), i64> = BTree::new(4);
    assert_eq!(merge_all(&mut tree, &mut heap, &table), Err(ClusterError::QueueExhausted));
    assert_eq!(tree.root(), None);
    assert_eq!(tree.len(), 1);
}

#[test]
fn unconnected_items_exhaust_the_queue() {
    // seven items: every ordered pair among the first five, one pair of the
    // last two, and nothing between the two groups: 21 scores as needed
    let mut records = Vec::new();
    let mut value = 100;
    for a in 0..5 {
        for b in 0..5 {
            if a != b {
                value -= 1;
                records.push(rec(&format!("g{}", a), &format!("g{}", b), value));
            }
        }
    }
    records.push(rec("h0", "h1", 500));
    assert_eq!(records.len(), 21);
    let mut p = load(&records).unwrap();
    assert_eq!(p.tree.item_count(), 7);
    assert_eq!(merge_all(&mut p.tree, &mut p.heap, &p.table), Err(ClusterError::QueueExhausted));
    assert_eq!(p.tree.root(), None);
    assert_eq!(p.heap.len(), 0);
    // five merges were made: four among the first group, one in the second
    assert_eq!(p.tree.len(), 7 + 5);
    assert_eq!(clustering(&records).unwrap_err(), ClusterError::QueueExhausted);
}

#[test]
fn merge_all_makes_one_merge_less_than_items() {
    for n in 2..12usize {
        let records = complete(n);
        let mut p = load(&records).unwrap();
        assert_eq!(p.tree.len(), n);
        assert_eq!(merge_all(&mut p.tree, &mut p.heap, &p.table), Ok(()));
        assert_eq!(p.tree.len(), 2 * n - 1);
        assert_eq!(p.tree.root(), Some(2 * n - 2));
    }
}

#[test]
fn root_holds_every_item_once() {
    let records = complete(9);
    let mut p = load(&records).unwrap();
    merge_all(&mut p.tree, &mut p.heap, &p.table).unwrap();
    let root = p.tree.get_node(p.tree.root().unwrap()).unwrap();
    assert_eq!(root.parent, None);
    let mut members = root.data.clone();
    members.sort();
    assert_eq!(members, (0..9).collect::<Vec<usize>>());
    let left = p.tree.get_node(root.left.unwrap()).unwrap();
    let right = p.tree.get_node(root.right.unwrap()).unwrap();
    let mut joined = left.data.clone();
    joined.extend(right.data.iter().cloned());
    assert_eq!(joined, root.data);
}

#[test]
fn every_label_is_one_leaf_of_the_text() {
    let records = complete(10);
    let text = clustering(&records).unwrap();
    assert!(text.ends_with(");"));
    assert_eq!(text.matches('(').count(), 9);
    assert_eq!(text.matches(')').count(), 9);
    assert_eq!(text.matches(',').count(), 9);
    let mut leaves = leaves_of(&text);
    leaves.sort();
    let mut want: Vec<String> = (0..10).map(|i| format!("i{}", i)).collect();
    want.sort();
    assert_eq!(leaves, want);
}

#[test]
fn clustering_again_gives_the_same_tree() {
    let records = complete(8);
    let first = clustering(&records).unwrap();
    let second = clustering(&records).unwrap();
    assert_eq!(first, second);
    assert_eq!(clustering(&five_items()).unwrap(), clustering(&five_items()).unwrap());
}

#[test]
fn stale_entries_in_the_queue_are_passed_over() {
    let records = vec![rec("s1", "s2", 10), rec("s1", "s3", 1), rec("s2", "s3", 1)];
    let mut p = load(&records).unwrap();
    let (_, first) = p.heap.pop_max().unwrap();
    p.tree.updating(first.from_index, first.to_index, &mut p.heap, &p.table);
    let len = p.tree.len();
    let queued = p.heap.len();
    // the entry for s1 and s3 is still queued, and s1 has been absorbed
    p.tree.updating(0, 2, &mut p.heap, &p.table);
    assert_eq!(p.tree.len(), len);
    assert_eq!(p.heap.len(), queued);
    assert_eq!(p.tree.get_node(2).unwrap().parent, None);
    assert_eq!(p.tree.get_node(0).unwrap().parent, Some(3));
    assert_eq!(p.tree.root(), None);
    assert_eq!(merge_all(&mut p.tree, &mut p.heap, &p.table), Ok(()));
    assert_eq!(p.tree.to_newick(), "(s3,(s1,s2));");
}

#[test]
fn scores_in_either_direction_are_found() {
    let forward = vec![rec("a", "b", 9), rec("a", "c", 2), rec("b", "c", 4), rec("a", "d", 1),
        rec("b", "d", 1), rec("c", "d", 1)];
    let backward = vec![rec("a", "b", 9), rec("c", "a", 2), rec("c", "b", 4), rec("a", "d", 1),
        rec("d", "b", 1), rec("c", "d", 1)];
    assert_eq!(clustering(&forward).unwrap(), "(d,(c,(a,b)));");
    assert_eq!(clustering(&backward).unwrap(), "(d,(c,(a,b)));");
}

struct Plain {
    members: Vec<Vec<usize>>,
    active: Vec<bool>,
    children: Vec<Option<(usize, usize)>>,
}

fn plain_text(p: &Plain, names: &[String], h: usize) -> String {
    match p.children[h] {
        None => names[p.members[h][0]].clone(),
        Some((l, r)) => format!("({},{})", plain_text(p, names, l), plain_text(p, names, r)),
    }
}

fn plain_clustering(records: &[Record]) -> String {
    let mut names: Vec<String> = Vec::new();
    let mut scores: HashMap<(usize, usize), i64> = HashMap::new();
    let mut queue: Vec<(i64, usize, usize)> = Vec::new();
    for r in records {
        for label in [&r.from, &r.to] {
            if !names.contains(label) {
                names.push(label.clone());
            }
        }
        let a = names.iter().position(|x| *x == r.from).unwrap();
        let b = names.iter().position(|x| *x == r.to).unwrap();
        scores.insert((a, b), r.value);
        queue.push((r.value, a, b));
    }
    let n = names.len();
    let mut p = Plain {
        members: (0..n).map(|i| vec![i]).collect(),
        active: vec![true; n],
        children: vec![None; n],
    };
    loop {
        let best = (0..queue.len()).max_by_key(|k| queue[*k].0).unwrap();
        let (_, l, r) = queue.remove(best);
        if !p.active[l] || !p.active[r] {
            continue;
        }
        let new = p.members.len();
        let mut joined = p.members[l].clone();
        joined.extend(p.members[r].iter().cloned());
        p.active[l] = false;
        p.active[r] = false;
        p.members.push(joined);
        p.active.push(true);
        p.children.push(Some((l, r)));
        if p.members[new].len() == n {
            return format!("{};", plain_text(&p, &names, new));
        }
        for c in 0..new {
            if !p.active[c] {
                continue;
            }
            let mut sum: i128 = 0;
            let mut count: i128 = 0;
            for a in &p.members[c] {
                for b in &p.members[new] {
                    let known = scores.get(&(*a, *b)).or(scores.get(&(*b, *a)));
                    if let Some(s) = known {
                        sum += *s as i128;
                        count += 1;
                    }
                }
            }
            if count > 0 {
                queue.push(((sum / count) as i64, c, new));
            }
        }
    }
}

fn scattered(n: usize, seed: u64) -> Vec<Record> {
    let mut out = Vec::new();
    let mut x: u64 = seed;
    for a in 0..n {
        for b in (a + 1)..n {
            x = x.wrapping_mul(6364136223846793005).wrapping_add(1442695040888963407);
            let value = ((x >> 20) % 2_000_000_000_000) as i64 - 1_000_000_000_000;
            let (from, to) = if (x >> 7) % 2 == 0 { (a, b) } else { (b, a) };
            out.push(rec(&format!("n{}", from), &format!("n{}", to), value));
        }
    }
    out
}

#[test]
fn agrees_with_a_plain_implementation() {
    for n in 2..16usize {
        let records = scattered(n, 99 + n as u64);
        assert_eq!(clustering(&records).unwrap(), plain_clustering(&records));
    }
    assert_eq!(clustering(&five_items()).unwrap(), plain_clustering(&five_items()));
}

#[test]
fn thirty_items() {
    let records = scattered(30, 5);
    assert_eq!(records.len(), 435);
    let mut p = load(&records).unwrap();
    assert_eq!(p.table.len(), 435);
    assert_eq!(p.heap.len(), 435);
    assert_eq!(merge_all(&mut p.tree, &mut p.heap, &p.table), Ok(()));
    assert_eq!(p.tree.len(), 59);
    let text = p.tree.to_newick();
    assert_eq!(text, plain_clustering(&records));
    let mut leaves = leaves_of(&text);
    leaves.sort();
    leaves.dedup();
    assert_eq!(leaves.len(), 30);
}
