//! A run of clustering as contracts see it: the forest and the queue, and the
//! entries popped one after another, each followed by one step.

use crate::binary_tree::{
    as_entry, is_offer, offers, score_against, scored_pair, step_offers, HeapPair,
};
use crate::forest::{
    disjoint, lemma_absorbed_stays_absorbed, lemma_candidates_are_the_other_active,
    lemma_root_after_all_merges,
    lemma_root_is_alone, lemma_step_counts_merges, lemma_step_keeps_well_formed, Forest,
    NodeIndex,
};
use crate::linkage::{cross_count, linkage, pair_score, row_count};
use crate::max_heap::{key_lt, pops};
use crate::pair_table::ScoreMap;
use crate::seq_facts::{lemma_filter_membership, lemma_nothing_in_no_slots};
use vstd::multiset::Multiset;
use vstd::prelude::*;
use vstd::seq_lib::to_multiset_contains;

verus! {

/// A queue entry: a linkage score, and the two clusters it was computed for.
pub type Entry = (i64, HeapPair);

/// The forest and the entries that the queue holds.
pub struct RunState {
    pub forest: Forest,
    pub queue: Multiset<Entry>,
}

/// Entry `p` is for the clusters `a` and `b`, in either order.
pub open spec fn links(p: HeapPair, a: NodeIndex, b: NodeIndex) -> bool {
    (p.from_index == a && p.to_index == b) || (p.from_index == b && p.to_index == a)
}

/// Every queue entry names two clusters of the forest, and two different
/// ones unless it is stale.
pub open spec fn queue_refers(f: Forest, q: Multiset<Entry>) -> bool {
    forall|e: Entry|
        q.contains(e) ==> f.has((#[trigger] e.1).from_index) && f.has(e.1.to_index) && (
        e.1.from_index != e.1.to_index || f.is_stale(e.1.from_index, e.1.to_index))
}

/// The queue holds an entry for every two different active clusters.
pub open spec fn queue_covers(f: Forest, q: Multiset<Entry>) -> bool {
    forall|a: NodeIndex, b: NodeIndex|
        #![trigger f.is_active(a), f.is_active(b)]
        f.is_active(a) && f.is_active(b) && a != b ==> exists|e: Entry|
            q.contains(e) && links(e.1, a, b)
}

/// A score is known between every two different items below `n`.
pub open spec fn table_covers(m: ScoreMap, n: nat) -> bool {
    forall|i: usize, j: usize| i < n && j < n && i != j ==> (#[trigger] pair_score(m, i, j)) is Some
}

/// The state after entry `e` was popped and the step on its pair was made.
pub open spec fn after(s: RunState, m: ScoreMap, e: Entry) -> RunState {
    RunState {
        forest: s.forest.step(e.1.from_index, e.1.to_index),
        queue: s.queue.remove(e).add(
            step_offers(s.forest, m, e.1.from_index, e.1.to_index).to_multiset(),
        ),
    }
}

/// The state after the entries `trace` were popped one after another, each
/// followed by its step.
pub open spec fn run_end(s: RunState, m: ScoreMap, trace: Seq<Entry>) -> RunState
    decreases trace.len(),
{
    if trace.len() == 0 {
        s
    } else {
        after(run_end(s, m, trace.drop_last()), m, trace.last())
    }
}

/// `trace` lists the entries of a run from state `s`: each is popped while
/// the forest has no root yet, and is one that `pop_max` may hand out of the
/// queue as it then is.
pub open spec fn is_run(s: RunState, m: ScoreMap, trace: Seq<Entry>) -> bool
    decreases trace.len(),
{
    if trace.len() == 0 {
        true
    } else {
        let before = run_end(s, m, trace.drop_last());
        &&& is_run(s, m, trace.drop_last())
        &&& before.forest.root is None
        &&& pops(before.queue, trace.last(), before.queue.remove(trace.last()))
    }
}

/// Some run from state `s` ends in state `end`.
pub open spec fn runs_to(s: RunState, m: ScoreMap, end: RunState) -> bool {
    exists|trace: Seq<Entry>| #[trigger] is_run(s, m, trace) && run_end(s, m, trace) == end
}

/// The number of entries of the run `trace` whose pair was not stale when
/// it was popped: the number of merges that the run made.
pub open spec fn merges_in(s: RunState, m: ScoreMap, trace: Seq<Entry>) -> nat
    decreases trace.len(),
{
    if trace.len() == 0 {
        0
    } else {
        let before = run_end(s, m, trace.drop_last());
        merges_in(s, m, trace.drop_last()) + if before.forest.is_stale(
            trace.last().1.from_index,
            trace.last().1.to_index,
        ) {
            0nat
        } else {
            1nat
        }
    }
}

/// Entry `e` is live in the forest `f`: neither of its clusters has been
/// absorbed.
pub open spec fn is_live(f: Forest, e: Entry) -> bool {
    !f.is_stale(e.1.from_index, e.1.to_index)
}

/// No two live entries of the queue have scores of equal rank.
pub open spec fn no_live_ties(s: RunState) -> bool {
    forall|a: Entry, b: Entry|
        s.queue.contains(a) && s.queue.contains(b) && is_live(s.forest, a) && is_live(
            s.forest,
            b,
        ) && a != b ==> key_lt(a.0, b.0) || key_lt(b.0, a.0)
}

/// Entry `a` is a live entry of the queue, and no live entry of the queue has
/// a greater score.
pub open spec fn is_top_live(s: RunState, a: Entry) -> bool {
    &&& s.queue.contains(a)
    &&& is_live(s.forest, a)
    &&& forall|x: Entry|
        s.queue.contains(x) && is_live(s.forest, x) ==> !key_lt(a.0, #[trigger] x.0)
}

/// At most one live entry of the queue has the greatest score among the live
/// ones. This is so wherever no two live entries have scores of equal rank.
pub open spec fn top_is_single(s: RunState) -> bool {
    forall|a: Entry, b: Entry| is_top_live(s, a) && is_top_live(s, b) ==> a == b
}

/// Along the run `trace`, at no pop do two live entries of the queue share
/// the greatest score among the live ones.
pub open spec fn never_top_ties(s: RunState, m: ScoreMap, trace: Seq<Entry>) -> bool {
    forall|k: int| 0 <= k < trace.len() ==> top_is_single(#[trigger] run_end(s, m, trace.take(k)))
}

/// Two states have the same forest, and their queues hold the same entries
/// that are live in it, be it more than once.
pub open spec fn same_live(s1: RunState, s2: RunState) -> bool {
    &&& s1.forest == s2.forest
    &&& forall|e: Entry| is_live(s1.forest, e) ==> (s1.queue.contains(e) <==> s2.queue.contains(e))
}

/// One step keeps the queue naming clusters of the forest, and, where the
/// table knows a score between every two different items, keeps it holding
/// an entry for every two different active clusters.
pub proof fn lemma_step_keeps_queue(s: RunState, m: ScoreMap, e: Entry)
    requires
        s.forest.well_formed(),
        queue_refers(s.forest, s.queue),
        s.queue.contains(e),
    ensures
        queue_refers(after(s, m, e).forest, after(s, m, e).queue),
        table_covers(m, s.forest.item_count()) && queue_covers(s.forest, s.queue) ==> queue_covers(
            after(s, m, e).forest,
            after(s, m, e).queue,
        ),
{
    broadcast use vstd::multiset::group_multiset_axioms;

    let f = s.forest;
    let l = e.1.from_index;
    let r = e.1.to_index;
    let t = after(s, m, e);
    let g = t.forest;
    let new = f.nodes.len() as usize;
    let added = step_offers(f, m, l, r).to_multiset();
    lemma_step_keeps_well_formed(f, l, r);
    if f.is_stale(l, r) || g.root is Some {
        lemma_nothing_in_no_slots(step_offers(f, m, l, r));
    } else {
        lemma_offers_are_the_defined_linkages(g, m, new);
    }
    lemma_absorbed_stays_absorbed(f, l, r);
    assert forall|x: Entry| t.queue.contains(x) implies g.has((#[trigger] x.1).from_index) && g.has(
        x.1.to_index,
    ) && (x.1.from_index != x.1.to_index || g.is_stale(x.1.from_index, x.1.to_index)) by {
        if added.contains(x) {
        } else {
            assert(s.queue.contains(x));
        }
    }
    if table_covers(m, f.item_count()) && queue_covers(f, s.queue) {
        assert forall|a: NodeIndex, b: NodeIndex|
            #![trigger g.is_active(a), g.is_active(b)]
            g.is_active(a) && g.is_active(b) && a != b implies exists|x: Entry|
            t.queue.contains(x) && links(x.1, a, b) by {
            if f.is_stale(l, r) {
                assert(f.is_active(a) && f.is_active(b));
                let x = choose|x: Entry| s.queue.contains(x) && links(x.1, a, b);
                assert(x != e);
                assert(t.queue.contains(x));
            } else if g.root is Some {
                lemma_root_is_alone(g);
            } else if a != new && b != new {
                assert(f.is_active(a) && f.is_active(b));
                let x = choose|x: Entry| s.queue.contains(x) && links(x.1, a, b);
                assert(x != e);
                assert(t.queue.contains(x));
            } else {
                let c = if a == new {
                    b
                } else {
                    a
                };
                assert(g.is_active(c) && g.is_active(new) && c != new);
                assert(g.members_ok(c as int) && g.members_ok(new as int));
                assert(disjoint(g.members(c), g.members(new)));
                lemma_linkage_is_defined(m, g.labels.len(), g.members(c), g.members(new));
                let sc = scored_pair(g, m, c, new)->0;
                let x: Entry = (sc.0, HeapPair { from_index: c, to_index: new });
                assert(added.contains(x));
                assert(t.queue.contains(x) && links(x.1, a, b));
            }
        }
    }
}

/// A run from a well-formed forest, with a queue that names clusters of the
/// forest, ends in such a forest with such a queue.
pub proof fn lemma_run_keeps_well_formed(s: RunState, m: ScoreMap, trace: Seq<Entry>)
    requires
        s.forest.well_formed(),
        queue_refers(s.forest, s.queue),
        is_run(s, m, trace),
    ensures
        run_end(s, m, trace).forest.well_formed(),
        queue_refers(run_end(s, m, trace).forest, run_end(s, m, trace).queue),
        run_end(s, m, trace).forest.labels == s.forest.labels,
    decreases trace.len(),
{
    if trace.len() > 0 {
        lemma_run_keeps_well_formed(s, m, trace.drop_last());
        let before = run_end(s, m, trace.drop_last());
        let e = trace.last();
        lemma_step_keeps_queue(before, m, e);
        lemma_step_keeps_well_formed(before.forest, e.1.from_index, e.1.to_index);
    }
}

/// The entries that a new active cluster gives rise to are those from each
/// other active cluster with which its linkage is defined, to the new one,
/// under that linkage.
pub proof fn lemma_offers_are_the_defined_linkages(f: Forest, m: ScoreMap, new: NodeIndex)
    requires
        f.structure_ok(),
        f.is_active(new),
    ensures
        forall|e: Entry| #[trigger]
            offers(f, m, new).to_multiset().contains(e) <==> {
                &&& f.is_active(e.1.from_index)
                &&& e.1.from_index != new
                &&& e.1.to_index == new
                &&& scored_pair(f, m, e.1.from_index, new) == Some((e.0, e.1.from_index, new))
            },
{
    let cands = f.candidates(new);
    let score = score_against(f, m, new);
    let scored = cands.map_values(score);
    let kept = scored.filter(is_offer());
    let out = offers(f, m, new);
    lemma_candidates_are_the_other_active(f, new);
    assert forall|e: Entry| #[trigger]
        out.to_multiset().contains(e) <==> {
            &&& f.is_active(e.1.from_index)
            &&& e.1.from_index != new
            &&& e.1.to_index == new
            &&& scored_pair(f, m, e.1.from_index, new) == Some((e.0, e.1.from_index, new))
        } by {
        to_multiset_contains(out, e);
        if out.contains(e) {
            let j = choose|j: int| 0 <= j < out.len() && out[j] == e;
            assert(e == as_entry()(kept[j]));
            scored.lemma_filter_pred(is_offer(), j);
            assert(kept.contains(kept[j]));
            lemma_filter_membership(scored, is_offer(), kept[j]);
            let k = choose|k: int| 0 <= k < scored.len() && scored[k] == kept[j];
            assert(scored[k] == scored_pair(f, m, cands[k], new));
            assert(cands.contains(cands[k]));
        }
        if f.is_active(e.1.from_index) && e.1.from_index != new && e.1.to_index == new
            && scored_pair(f, m, e.1.from_index, new) == Some((e.0, e.1.from_index, new)) {
            let c = e.1.from_index;
            assert(cands.contains(c));
            let k = choose|k: int| 0 <= k < cands.len() && cands[k] == c;
            assert(scored[k] == Some((e.0, c, new)));
            assert(scored.contains(scored[k]));
            lemma_filter_membership(scored, is_offer(), scored[k]);
            let j = choose|j: int| 0 <= j < kept.len() && kept[j] == scored[k];
            assert(out[j] == e);
        }
    }
}

/// Where a score is known between every two different items, the linkage of
/// two clusters that share no item is defined.
pub proof fn lemma_linkage_is_defined(m: ScoreMap, n: nat, xs: Seq<usize>, bs: Seq<usize>)
    requires
        table_covers(m, n),
        xs.len() > 0,
        bs.len() > 0,
        disjoint(xs, bs),
        forall|k: int| 0 <= k < xs.len() ==> #[trigger] xs[k] < n,
        forall|k: int| 0 <= k < bs.len() ==> #[trigger] bs[k] < n,
    ensures
        linkage(m, xs, bs) is Some,
{
    assert(xs.last() != bs.last());
    assert(pair_score(m, xs.last(), bs.last()) is Some);
    assert(row_count(m, xs.last(), bs) >= 1);
    assert(cross_count(m, xs, bs) >= 1);
}

/// The merges that made the forest at the end of a run are those that made
/// the forest it started from and those that the run made.
pub proof fn lemma_run_counts_merges(s: RunState, m: ScoreMap, trace: Seq<Entry>)
    ensures
        run_end(s, m, trace).forest.merges_done() == s.forest.merges_done() + merges_in(
            s,
            m,
            trace,
        ),
    decreases trace.len(),
{
    if trace.len() > 0 {
        lemma_run_counts_merges(s, m, trace.drop_last());
        lemma_step_counts_merges(
            run_end(s, m, trace.drop_last()).forest,
            trace.last().1.from_index,
            trace.last().1.to_index,
        );
    }
}

/// A run that starts with every item in a cluster of its own and ends with a
/// root has made exactly one merge less than there are items.
pub proof fn lemma_finished_run_merges_all_but_one(s: RunState, m: ScoreMap, trace: Seq<Entry>)
    requires
        s.forest.well_formed(),
        s.forest.merges_done() == 0,
        queue_refers(s.forest, s.queue),
        is_run(s, m, trace),
        run_end(s, m, trace).forest.root is Some,
    ensures
        merges_in(s, m, trace) == s.forest.item_count() - 1,
{
    lemma_run_counts_merges(s, m, trace);
    lemma_run_keeps_well_formed(s, m, trace);
    lemma_root_after_all_merges(run_end(s, m, trace).forest);
}

/// Re-running clustering gives the same tree whenever no two competing
/// scores are equal: two runs from the same state that both end with a root
/// end with the same forest, where along one of them at no pop two live
/// entries share the greatest score. The two runs may differ in when they pop
/// stale entries.
pub proof fn lemma_finished_runs_agree(s: RunState, m: ScoreMap, t1: Seq<Entry>, t2: Seq<Entry>)
    requires
        s.forest.well_formed(),
        queue_refers(s.forest, s.queue),
        is_run(s, m, t1),
        is_run(s, m, t2),
        run_end(s, m, t1).forest.root is Some,
        run_end(s, m, t2).forest.root is Some,
        never_top_ties(s, m, t1),
    ensures
        run_end(s, m, t1).forest == run_end(s, m, t2).forest,
{
    lemma_live_runs_agree(s, s, m, t1, t2);
}

/// Two runs that both end with a root end with the same forest, where they
/// start from one forest with the same live entries in their queues and
/// along one of them at no pop two live entries share the greatest score.
/// Which stale entries the queues hold does not matter.
pub proof fn lemma_live_runs_agree(
    s1: RunState,
    s2: RunState,
    m: ScoreMap,
    t1: Seq<Entry>,
    t2: Seq<Entry>,
)
    requires
        same_live(s1, s2),
        s1.forest.well_formed(),
        queue_refers(s1.forest, s1.queue),
        queue_refers(s2.forest, s2.queue),
        is_run(s1, m, t1),
        is_run(s2, m, t2),
        run_end(s1, m, t1).forest.root is Some,
        run_end(s2, m, t2).forest.root is Some,
        never_top_ties(s1, m, t1),
    ensures
        run_end(s1, m, t1).forest == run_end(s2, m, t2).forest,
    decreases t1.len() + t2.len(),
{
    if t1.len() == 0 {
        if t2.len() > 0 {
            lemma_run_from_front(s2, m, t2);
        }
    } else if t2.len() == 0 {
        lemma_run_from_front(s1, m, t1);
    } else {
        lemma_run_from_front(s1, m, t1);
        lemma_run_from_front(s2, m, t2);
        lemma_never_top_ties_goes_on(s1, m, t1);
        let e1 = t1[0];
        let e2 = t2[0];
        let a1 = after(s1, m, e1);
        let a2 = after(s2, m, e2);
        if !is_live(s1.forest, e1) {
            lemma_stale_pop_keeps_live(s1, m, e1);
            lemma_step_keeps_queue(s1, m, e1);
            lemma_live_runs_agree(a1, s2, m, t1.drop_first(), t2);
        } else if !is_live(s2.forest, e2) {
            lemma_stale_pop_keeps_live(s2, m, e2);
            lemma_step_keeps_queue(s2, m, e2);
            lemma_live_runs_agree(s1, a2, m, t1, t2.drop_first());
        } else {
            assert(s1.queue.contains(e2));
            assert(s2.queue.contains(e1));
            assert(is_top_live(s1, e1));
            assert(is_top_live(s1, e2)) by {
                assert forall|x: Entry|
                    s1.queue.contains(x) && is_live(s1.forest, x) implies !key_lt(
                    e2.0,
                    #[trigger] x.0,
                ) by {
                    assert(s2.queue.contains(x));
                }
            }
            assert(e1 == e2);
            lemma_live_pop_keeps_same_live(s1, s2, m, e1);
            lemma_step_keeps_queue(s1, m, e1);
            lemma_step_keeps_queue(s2, m, e1);
            lemma_step_keeps_well_formed(s1.forest, e1.1.from_index, e1.1.to_index);
            lemma_live_runs_agree(a1, a2, m, t1.drop_first(), t2.drop_first());
        }
    }
}

/// Where no two live entries have scores of equal rank, at most one live
/// entry has the greatest score.
pub proof fn lemma_no_live_ties_is_enough(s: RunState)
    requires
        no_live_ties(s),
    ensures
        top_is_single(s),
{
    assert forall|a: Entry, b: Entry| is_top_live(s, a) && is_top_live(s, b) implies a == b by {
        if a != b {
            assert(key_lt(a.0, b.0) || key_lt(b.0, a.0));
        }
    }
}

/// A run with at least one entry is its first pop and step, and the run of
/// the other entries from the state after them.
pub proof fn lemma_run_from_front(s: RunState, m: ScoreMap, trace: Seq<Entry>)
    requires
        trace.len() > 0,
    ensures
        is_run(s, m, trace) <==> {
            &&& s.forest.root is None
            &&& pops(s.queue, trace[0], s.queue.remove(trace[0]))
            &&& is_run(after(s, m, trace[0]), m, trace.drop_first())
        },
        run_end(s, m, trace) == run_end(after(s, m, trace[0]), m, trace.drop_first()),
    decreases trace.len(),
{
    let next = after(s, m, trace[0]);
    let head = trace.drop_last();
    let rest = trace.drop_first();
    if trace.len() == 1 {
        assert(head.len() == 0 && rest.len() == 0);
        assert(trace.last() == trace[0]);
        assert(run_end(s, m, head) == s);
        assert(is_run(s, m, head));
        assert(is_run(next, m, rest));
        assert(run_end(next, m, rest) == next);
        assert(run_end(s, m, trace) == after(s, m, trace.last()));
    } else {
        lemma_run_from_front(s, m, head);
        assert(head[0] == trace[0]);
        assert(rest.drop_last() =~= head.drop_first());
        assert(rest.last() == trace.last());
        let before = run_end(s, m, head);
        assert(before == run_end(next, m, rest.drop_last()));
        assert(run_end(s, m, trace) == after(before, m, trace.last()));
        assert(run_end(next, m, rest) == after(before, m, rest.last()));
        assert(is_run(next, m, rest) <==> {
            &&& is_run(next, m, rest.drop_last())
            &&& before.forest.root is None
            &&& pops(before.queue, rest.last(), before.queue.remove(rest.last()))
        });
        assert(is_run(s, m, trace) <==> {
            &&& is_run(s, m, head)
            &&& before.forest.root is None
            &&& pops(before.queue, trace.last(), before.queue.remove(trace.last()))
        });
    }
}

/// What holds of every pop of a run holds of every pop after the first.
proof fn lemma_never_top_ties_goes_on(s: RunState, m: ScoreMap, trace: Seq<Entry>)
    requires
        trace.len() > 0,
        never_top_ties(s, m, trace),
    ensures
        top_is_single(s),
        never_top_ties(after(s, m, trace[0]), m, trace.drop_first()),
{
    let next = after(s, m, trace[0]);
    let rest = trace.drop_first();
    assert(trace.take(0).len() == 0);
    assert(run_end(s, m, trace.take(0)) == s);
    assert forall|k: int| 0 <= k < rest.len() implies top_is_single(
        #[trigger] run_end(next, m, rest.take(k)),
    ) by {
        let cut = trace.take(k + 1);
        lemma_run_from_front(s, m, cut);
        assert(cut[0] == trace[0]);
        assert(cut.drop_first() =~= rest.take(k));
        assert(top_is_single(run_end(s, m, trace.take(k + 1))));
    }
}

/// Popping a stale entry leaves the forest and the live entries as they were.
proof fn lemma_stale_pop_keeps_live(s: RunState, m: ScoreMap, e: Entry)
    requires
        s.queue.contains(e),
        !is_live(s.forest, e),
    ensures
        same_live(after(s, m, e), s),
        same_live(s, after(s, m, e)),
{
    broadcast use vstd::multiset::group_multiset_axioms;

    lemma_nothing_in_no_slots(step_offers(s.forest, m, e.1.from_index, e.1.to_index));
}

/// Popping the same live entry from two queues with the same live entries
/// over one forest leaves queues with the same live entries over one forest.
proof fn lemma_live_pop_keeps_same_live(s1: RunState, s2: RunState, m: ScoreMap, e: Entry)
    requires
        same_live(s1, s2),
        queue_refers(s1.forest, s1.queue),
        queue_refers(s2.forest, s2.queue),
        s1.queue.contains(e),
        s2.queue.contains(e),
        is_live(s1.forest, e),
    ensures
        same_live(after(s1, m, e), after(s2, m, e)),
{
    broadcast use vstd::multiset::group_multiset_axioms;

    let f = s1.forest;
    let l = e.1.from_index;
    let r = e.1.to_index;
    let a1 = after(s1, m, e);
    let a2 = after(s2, m, e);
    let g = a1.forest;
    lemma_absorbed_stays_absorbed(f, l, r);
    assert(!g.is_active(l)) by {
        assert(g.nodes[l as int].parent is Some);
    }
    assert forall|x: Entry| is_live(g, x) implies (a1.queue.contains(x) <==> a2.queue.contains(
        x,
    )) by {
        assert(x != e);
        if f.has(x.1.from_index) && f.has(x.1.to_index) {
            assert(is_live(f, x));
        } else {
            assert(!s1.queue.contains(x));
            assert(!s2.queue.contains(x));
        }
    }
}

} // verus!
