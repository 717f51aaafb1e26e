//! The smallest case with a choice: three items, of which two have a greater
//! score with each other than either has with the third. Those two merge
//! first, and the third joins them.

use crate::binary_tree::{offers, scored_pair, step_offers, HeapPair};
use crate::clustering::{
    add_label, clusters_to, is_self_pair, item_of, labels_of, lemma_start_refers, pair_of,
    queue_of, scores_of, RecordView,
};
use crate::forest::{disjoint, lemma_fresh_is_well_formed, lemma_step_keeps_well_formed, Forest};
use crate::linkage::pair_score;
use crate::max_heap::{key_lt, pops};
use crate::pair_table::ScoreMap;
use crate::run::{
    after, is_live, is_run, is_top_live, lemma_linkage_is_defined, lemma_live_runs_agree,
    lemma_offers_are_the_defined_linkages, lemma_run_from_front, lemma_step_keeps_queue,
    never_top_ties, queue_refers, run_end, runs_to, same_live, table_covers, top_is_single, Entry,
    RunState,
};
use vstd::multiset::Multiset;
use vstd::prelude::*;
use vstd::seq_lib::to_multiset_contains;

verus! {

/// The records of three items: `a` with `b` at score `x`, `a` with `c` at
/// score `y`, and `b` with `c` at score `z`.
pub open spec fn three_records(
    a: Seq<char>,
    b: Seq<char>,
    c: Seq<char>,
    x: i64,
    y: i64,
    z: i64,
) -> Seq<RecordView> {
    seq![
        RecordView { from: a, to: b, value: x },
        RecordView { from: a, to: c, value: y },
        RecordView { from: b, to: c, value: z },
    ]
}

/// The scores of the three records in the table.
pub open spec fn three_scores(x: i64, y: i64, z: i64) -> ScoreMap {
    ScoreMap::empty().insert((0usize, 1usize), x).insert((0usize, 2usize), y).insert(
        (1usize, 2usize),
        z,
    )
}

/// The state that clustering the three records starts from.
pub open spec fn three_start(
    a: Seq<char>,
    b: Seq<char>,
    c: Seq<char>,
    x: i64,
    y: i64,
    z: i64,
) -> RunState {
    RunState {
        forest: Forest::fresh(seq![a, b, c]),
        queue: queue_of(three_records(a, b, c, x, y, z)).to_multiset(),
    }
}

/// The entry of the first record: `a` with `b`.
pub open spec fn first_entry(x: i64) -> Entry {
    (x, HeapPair { from_index: 0, to_index: 1 })
}

/// The forest after `a` and `b` were merged.
pub open spec fn pair_made(a: Seq<char>, b: Seq<char>, c: Seq<char>) -> Forest {
    Forest::fresh(seq![a, b, c]).step(0, 1)
}

/// The entry that the pair of `a` and `b` gives rise to: from `c` to the
/// pair, under their linkage.
pub open spec fn last_entry(
    a: Seq<char>,
    b: Seq<char>,
    c: Seq<char>,
    x: i64,
    y: i64,
    z: i64,
) -> Entry {
    (
        scored_pair(pair_made(a, b, c), three_scores(x, y, z), 2, 3).unwrap().0,
        HeapPair { from_index: 2, to_index: 3 },
    )
}

/// The forest after `c` has joined the pair of `a` and `b`.
pub open spec fn third_joined(a: Seq<char>, b: Seq<char>, c: Seq<char>) -> Forest {
    pair_made(a, b, c).step(2, 3)
}

/// The text of the tree in which `c` joins the pair of `a` and `b`.
pub open spec fn third_joins_pair(a: Seq<char>, b: Seq<char>, c: Seq<char>) -> Seq<char> {
    seq!['('] + c + seq![',', '('] + a + seq![','] + b + seq![')', ')', ';']
}

/// Of three items, the two with the greatest score merge first, and the
/// third then joins them as the left child of the root: whatever run
/// clustering takes, the text is that of `c` with the pair of `a` and `b`.
pub proof fn lemma_closest_pair_merges_first(
    a: Seq<char>,
    b: Seq<char>,
    c: Seq<char>,
    x: i64,
    y: i64,
    z: i64,
    text: Seq<char>,
)
    requires
        a != b,
        a != c,
        b != c,
        x > y,
        x > z,
        clusters_to(three_records(a, b, c, x, y, z), text),
    ensures
        text == third_joins_pair(a, b, c),
{
    let rs = three_records(a, b, c, x, y, z);
    lemma_three_records(a, b, c, x, y, z);
    let m = three_scores(x, y, z);
    let s0 = three_start(a, b, c, x, y, z);
    let end = choose|end: RunState| #[trigger]
        runs_to(s0, m, end) && end.forest.well_formed() && end.forest.root is Some && text
            == end.forest.newick(end.forest.root->0) + seq![';'];
    let trace = choose|trace: Seq<Entry>| #[trigger]
        is_run(s0, m, trace) && run_end(s0, m, trace) == end;
    assert(trace.len() > 0);
    lemma_run_from_front(s0, m, trace);
    lemma_first_pop(a, b, c, x, y, z, trace[0]);
    lemma_after_first_pop(a, b, c, x, y, z);
    lemma_last_pop(a, b, c, x, y, z);
    let e3 = last_entry(a, b, c, x, y, z);
    let w = RunState { forest: pair_made(a, b, c), queue: Multiset::singleton(e3) };
    lemma_live_runs_agree(w, after(s0, m, first_entry(x)), m, seq![e3], trace.drop_first());
    lemma_third_joined(a, b, c);
}

/// The three records name the items `a`, `b` and `c` in this order, and each
/// record pairs the items that it names.
proof fn lemma_three_records(a: Seq<char>, b: Seq<char>, c: Seq<char>, x: i64, y: i64, z: i64)
    requires
        a != b,
        a != c,
        b != c,
    ensures
        labels_of(three_records(a, b, c, x, y, z)) == seq![a, b, c],
        pair_of(three_records(a, b, c, x, y, z), 0) == (HeapPair { from_index: 0, to_index: 1 }),
        pair_of(three_records(a, b, c, x, y, z), 1) == (HeapPair { from_index: 0, to_index: 2 }),
        pair_of(three_records(a, b, c, x, y, z), 2) == (HeapPair { from_index: 1, to_index: 2 }),
        scores_of(three_records(a, b, c, x, y, z), 3) == three_scores(x, y, z),
        forall|j: int| 0 <= j < 3 ==> !is_self_pair(three_records(a, b, c, x, y, z), j),
{
    let rs = three_records(a, b, c, x, y, z);
    let two = rs.drop_last();
    let one = two.drop_last();
    let none = one.drop_last();
    assert(none.len() == 0);
    assert(labels_of(none) =~= Seq::<Seq<char>>::empty());
    let l0 = labels_of(none);
    assert(!l0.contains(a));
    let l1 = add_label(l0, a);
    assert(l1 =~= seq![a]);
    assert(!l1.contains(b));
    let l2 = add_label(l1, b);
    assert(l2 =~= seq![a, b]);
    assert(one.last() == rs[0]);
    assert(labels_of(one) == l2);
    assert(l2[0] == a && l2.contains(a));
    assert(!l2.contains(c));
    let l3 = add_label(add_label(l2, a), c);
    assert(l3 =~= seq![a, b, c]);
    assert(two.last() == rs[1]);
    assert(labels_of(two) == l3);
    assert(l3[1] == b && l3.contains(b));
    assert(l3[2] == c && l3.contains(c));
    assert(labels_of(rs) == l3);
    let ls = labels_of(rs);
    assert(ls[0] == a && ls.contains(a));
    assert(ls.index_of(a) == 0);
    assert(ls.index_of(b) == 1);
    assert(ls.index_of(c) == 2);
    assert(item_of(ls, a) == 0 && item_of(ls, b) == 1 && item_of(ls, c) == 2);
    assert(scores_of(rs, 0) == ScoreMap::empty());
    assert(scores_of(rs, 1) == scores_of(rs, 0).insert((0usize, 1usize), x));
    assert(scores_of(rs, 2) == scores_of(rs, 1).insert((0usize, 2usize), y));
    assert(scores_of(rs, 3) == scores_of(rs, 2).insert((1usize, 2usize), z));
}

/// The entries of the queue that clustering the three records starts from.
proof fn lemma_queue_of_three(a: Seq<char>, b: Seq<char>, c: Seq<char>, x: i64, y: i64, z: i64)
    requires
        a != b,
        a != c,
        b != c,
    ensures
        three_start(a, b, c, x, y, z).queue.contains(first_entry(x)),
        forall|p: Entry|
            three_start(a, b, c, x, y, z).queue.contains(p) ==> p == first_entry(x) || p == (
                y,
                HeapPair { from_index: 0, to_index: 2 },
            ) || p == (z, HeapPair { from_index: 1, to_index: 2 }),
        forall|p: Entry|
            three_start(a, b, c, x, y, z).queue.contains(p) && p != first_entry(x) ==> (
            #[trigger] p.1).from_index < 2 && p.1.to_index == 2,
{
    let rs = three_records(a, b, c, x, y, z);
    lemma_three_records(a, b, c, x, y, z);
    let q0 = queue_of(rs).to_multiset();
    let e0 = first_entry(x);
    let e1: Entry = (y, HeapPair { from_index: 0, to_index: 2 });
    let e2: Entry = (z, HeapPair { from_index: 1, to_index: 2 });
    assert(queue_of(rs) =~= seq![e0, e1, e2]);
    assert forall|p: Entry| q0.contains(p) <==> (p == e0 || p == e1 || p == e2) by {
        to_multiset_contains(queue_of(rs), p);
        if p == e0 {
            assert(queue_of(rs)[0] == p);
        }
        if p == e1 {
            assert(queue_of(rs)[1] == p);
        }
        if p == e2 {
            assert(queue_of(rs)[2] == p);
        }
    }
}

/// The first entry popped is that of `a` and `b`.
proof fn lemma_first_pop(
    a: Seq<char>,
    b: Seq<char>,
    c: Seq<char>,
    x: i64,
    y: i64,
    z: i64,
    e: Entry,
)
    requires
        a != b,
        a != c,
        b != c,
        x > y,
        x > z,
        pops(
            three_start(a, b, c, x, y, z).queue,
            e,
            three_start(a, b, c, x, y, z).queue.remove(e),
        ),
    ensures
        e == first_entry(x),
{
    lemma_queue_of_three(a, b, c, x, y, z);
    assert(!key_lt(e.0, first_entry(x).0));
}

/// The forest after the first merge: the pair of `a` and `b` is cluster 3,
/// and it and `c` are the active clusters.
proof fn lemma_pair_made(a: Seq<char>, b: Seq<char>, c: Seq<char>)
    ensures
        pair_made(a, b, c) == Forest::fresh(seq![a, b, c]).merge(0, 1),
        pair_made(a, b, c).well_formed(),
        pair_made(a, b, c).root is None,
        pair_made(a, b, c).labels == seq![a, b, c],
        pair_made(a, b, c).nodes.len() == 4,
        !pair_made(a, b, c).is_active(0),
        !pair_made(a, b, c).is_active(1),
        pair_made(a, b, c).is_active(2),
        pair_made(a, b, c).is_active(3),
        pair_made(a, b, c).members(2) == seq![2usize],
        pair_made(a, b, c).members(3) == seq![0usize, 1usize],
        pair_made(a, b, c).nodes[2].left is None,
        pair_made(a, b, c).nodes[3].left == Some(0usize),
        pair_made(a, b, c).nodes[3].right == Some(1usize),
        pair_made(a, b, c).nodes[0].left is None,
        pair_made(a, b, c).nodes[1].left is None,
        pair_made(a, b, c).members(0) == seq![0usize],
        pair_made(a, b, c).members(1) == seq![1usize],
{
    let f0 = Forest::fresh(seq![a, b, c]);
    let f1 = pair_made(a, b, c);
    lemma_fresh_is_well_formed(seq![a, b, c]);
    lemma_step_keeps_well_formed(f0, 0, 1);
    assert(f0.merge(0, 1).nodes[3].members =~= seq![0usize, 1usize]);
    assert(f1 == f0.merge(0, 1));
    assert(f1.nodes[0].parent == Some(3usize) && f1.nodes[1].parent == Some(3usize));
    assert(f1.nodes[2] == f0.nodes[2]);
    assert(f1.members(2) =~= seq![2usize]);
}

/// After the first pop the only live entry of the queue is the one that the
/// new pair gave rise to.
proof fn lemma_after_first_pop(
    a: Seq<char>,
    b: Seq<char>,
    c: Seq<char>,
    x: i64,
    y: i64,
    z: i64,
)
    requires
        a != b,
        a != c,
        b != c,
        x > y,
        x > z,
    ensures
        ({
            let s0 = three_start(a, b, c, x, y, z);
            let m = three_scores(x, y, z);
            let a1 = after(s0, m, first_entry(x));
            let w = RunState {
                forest: pair_made(a, b, c),
                queue: Multiset::singleton(last_entry(a, b, c, x, y, z)),
            };
            &&& a1.forest == pair_made(a, b, c)
            &&& same_live(w, a1)
            &&& queue_refers(a1.forest, a1.queue)
            &&& queue_refers(w.forest, w.queue)
        }),
{
    broadcast use vstd::multiset::group_multiset_axioms;

    let rs = three_records(a, b, c, x, y, z);
    lemma_three_records(a, b, c, x, y, z);
    lemma_pair_made(a, b, c);
    let m = three_scores(x, y, z);
    let s0 = three_start(a, b, c, x, y, z);
    let f0 = s0.forest;
    let f1 = pair_made(a, b, c);
    let e0 = first_entry(x);
    let e3 = last_entry(a, b, c, x, y, z);
    let a1 = after(s0, m, e0);
    let w = RunState { forest: f1, queue: Multiset::singleton(e3) };
    lemma_fresh_is_well_formed(seq![a, b, c]);
    lemma_start_refers(rs);
    lemma_queue_of_three(a, b, c, x, y, z);
    lemma_step_keeps_queue(s0, m, e0);
    lemma_offers_are_the_defined_linkages(f1, m, 3);
    assert(table_covers(m, 3)) by {
        assert forall|i: usize, j: usize| i < 3 && j < 3 && i != j implies (#[trigger] pair_score(
            m,
            i,
            j,
        )) is Some by {
            assert(m.contains_key((0usize, 1usize)) && m.contains_key((0usize, 2usize))
                && m.contains_key((1usize, 2usize)));
        }
    }
    assert(disjoint(f1.members(2), f1.members(3)));
    lemma_linkage_is_defined(m, 3, f1.members(2), f1.members(3));
    assert(step_offers(f0, m, 0, 1) == offers(f1, m, 3));
    let added = offers(f1, m, 3).to_multiset();
    assert(added.contains(e3));
    assert(a1.queue.contains(e3));
    assert forall|e: Entry| is_live(f1, e) implies (w.queue.contains(e) <==> a1.queue.contains(
        e,
    )) by {
        if a1.queue.contains(e) {
            if added.contains(e) {
                assert(f1.is_active(e.1.from_index));
                assert(e.1.from_index == 2);
                assert(e == e3);
            } else {
                assert(s0.queue.contains(e));
                assert(e != e0);
            }
        }
    }
}

/// From the forest with the pair, and a queue that holds the last entry
/// alone, one pop finishes the tree.
proof fn lemma_last_pop(a: Seq<char>, b: Seq<char>, c: Seq<char>, x: i64, y: i64, z: i64)
    ensures
        ({
            let m = three_scores(x, y, z);
            let e3 = last_entry(a, b, c, x, y, z);
            let w = RunState { forest: pair_made(a, b, c), queue: Multiset::singleton(e3) };
            &&& w.forest.well_formed()
            &&& is_run(w, m, seq![e3])
            &&& run_end(w, m, seq![e3]).forest == third_joined(a, b, c)
            &&& third_joined(a, b, c).root == Some(4usize)
            &&& never_top_ties(w, m, seq![e3])
        }),
{
    broadcast use vstd::multiset::group_multiset_axioms;

    lemma_pair_made(a, b, c);
    let m = three_scores(x, y, z);
    let f1 = pair_made(a, b, c);
    let e3 = last_entry(a, b, c, x, y, z);
    let w = RunState { forest: f1, queue: Multiset::singleton(e3) };
    let t = seq![e3];
    lemma_run_from_front(w, m, t);
    assert(t.drop_first().len() == 0);
    assert(is_run(after(w, m, e3), m, t.drop_first()));
    assert(run_end(after(w, m, e3), m, t.drop_first()) == after(w, m, e3));
    assert(w.queue.contains(e3));
    assert(is_run(w, m, t));
    let joined = f1.merge(2, 3);
    assert(joined.nodes[4].members =~= seq![2usize, 0usize, 1usize]);
    assert(joined.is_complete(4));
    assert forall|k: int| 0 <= k < t.len() implies top_is_single(
        #[trigger] run_end(w, m, t.take(k)),
    ) by {
        assert(t.take(0).len() == 0);
        assert(run_end(w, m, t.take(0)) == w);
        assert forall|p: Entry, q: Entry| is_top_live(w, p) && is_top_live(w, q) implies p
            == q by {
            assert(w.queue.contains(p) && w.queue.contains(q));
        }
    }
}

/// The text of the finished tree.
proof fn lemma_third_joined(a: Seq<char>, b: Seq<char>, c: Seq<char>)
    ensures
        third_joined(a, b, c).newick(4) + seq![';'] == third_joins_pair(a, b, c),
{
    lemma_pair_made(a, b, c);
    let f1 = pair_made(a, b, c);
    let f2 = third_joined(a, b, c);
    let joined = f1.merge(2, 3);
    assert(joined.nodes[4].members =~= seq![2usize, 0usize, 1usize]);
    assert(joined.is_complete(4));
    assert(f2.nodes == joined.nodes && f2.labels == seq![a, b, c]);
    assert(f2.nodes[4].left == Some(2usize) && f2.nodes[4].right == Some(3usize));
    assert(f2.nodes[3].left == Some(0usize) && f2.nodes[3].right == Some(1usize));
    assert(f2.nodes[0].left is None && f2.nodes[1].left is None && f2.nodes[2].left is None);
    assert(f2.members(0) == seq![0usize]);
    assert(f2.members(1) == seq![1usize]);
    assert(f2.members(2) == seq![2usize]);
    assert(f2.newick(0) == a);
    assert(f2.newick(1) == b);
    assert(f2.newick(2) == c);
    assert(f2.newick(3) == seq!['('] + a + seq![','] + b + seq![')']);
    assert(f2.newick(4) == seq!['('] + c + seq![','] + f2.newick(3) + seq![')']);
    assert(f2.newick(4) + seq![';'] =~= third_joins_pair(a, b, c));
}

} // verus!
