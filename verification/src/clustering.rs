//! Clustering from start to end: from the records of the table to the forest,
//! the table and the queue; the merge loop; and the text of the finished tree.

use crate::binary_tree::{BinaryT, HeapPair};
use crate::forest::{
    active_count, lemma_fresh_is_well_formed, lemma_two_are_active, Forest, NodeIndex, MAX_ITEMS,
};
use crate::linkage::pair_score;
use crate::max_heap::{lemma_i64_keys_are_ordered, strict_weak_order, MaxHeap};
use crate::pair_table::{table_insert, table_len, table_new, table_scores, PairTable, ScoreMap};
use crate::run::{
    after, is_run, lemma_finished_runs_agree, lemma_step_keeps_queue, links, never_top_ties,
    queue_covers, queue_refers, run_end, runs_to, table_covers, Entry, RunState,
};
use crate::seq_facts::lemma_nothing_in_no_slots;
use vstd::hash_map::StringHashMap;
use vstd::prelude::*;
use vstd::seq_lib::{to_multiset_build, to_multiset_contains, to_multiset_len};

verus! {

/// Why clustering could not be done.
#[derive(Debug, PartialEq, Eq)]
pub enum ClusterError {
    /// Line `line` of the text, counted from 0, does not have three fields.
    WrongFieldCount { line: usize },
    /// There are more than `MAX_ITEMS` items.
    TooManyItems,
    /// The table holds a score under `accepted` ordered pairs of the `items`
    /// items, where one for each of the `expected` combinations of two items
    /// is needed.
    CombinationCountMismatch { items: usize, expected: u64, accepted: u64 },
    /// There are fewer than two items, so nothing can be merged.
    TooFewItems,
    /// Record `record`, counted from 0, pairs an item with itself, and none
    /// before it does. This is reported only of a table with the number of
    /// scores that is needed.
    SelfPair { record: usize },
    /// The queue ran empty before one cluster held every item.
    QueueExhausted,
}

/// One record of the table: the labels of two items, and their score.
#[derive(Debug)]
pub struct Record {
    pub from: String,
    pub to: String,
    pub value: i64,
}

/// A record as contracts see it.
pub struct RecordView {
    pub from: Seq<char>,
    pub to: Seq<char>,
    pub value: i64,
}

impl View for Record {
    type V = RecordView;

    open spec fn view(&self) -> RecordView {
        RecordView { from: self.from@, to: self.to@, value: self.value }
    }
}

/// The records as contracts see them.
pub open spec fn views(records: Seq<Record>) -> Seq<RecordView> {
    records.map_values(|r: Record| r@)
}

/// The labels `ls`, and `l` behind them unless it is one of them.
pub open spec fn add_label(ls: Seq<Seq<char>>, l: Seq<char>) -> Seq<Seq<char>> {
    if ls.contains(l) {
        ls
    } else {
        ls.push(l)
    }
}

/// The labels that the records name, each once, in the order in which they
/// first occur; within a record the first field comes before the second.
pub open spec fn labels_of(rs: Seq<RecordView>) -> Seq<Seq<char>>
    decreases rs.len(),
{
    if rs.len() == 0 {
        Seq::empty()
    } else {
        add_label(add_label(labels_of(rs.drop_last()), rs.last().from), rs.last().to)
    }
}

/// The item that label `l` stands for: its place among the labels.
pub open spec fn item_of(ls: Seq<Seq<char>>, l: Seq<char>) -> usize {
    ls.index_of(l) as usize
}

/// The two items of record `k`.
pub open spec fn pair_of(rs: Seq<RecordView>, k: int) -> HeapPair {
    HeapPair {
        from_index: item_of(labels_of(rs), rs[k].from),
        to_index: item_of(labels_of(rs), rs[k].to),
    }
}

/// The scores that the first `k` records put into the table: each under the
/// ordered pair of its items, a later record replacing an earlier one for the
/// same ordered pair.
pub open spec fn scores_of(rs: Seq<RecordView>, k: int) -> ScoreMap
    decreases k,
{
    if k <= 0 {
        ScoreMap::empty()
    } else {
        scores_of(rs, k - 1).insert(
            (pair_of(rs, k - 1).from_index, pair_of(rs, k - 1).to_index),
            rs[k - 1].value,
        )
    }
}

/// The queue entries that the records give rise to, one for each record.
pub open spec fn queue_of(rs: Seq<RecordView>) -> Seq<Entry> {
    Seq::new(rs.len(), |k: int| (rs[k].value, pair_of(rs, k)))
}

/// Record `k` pairs an item with itself.
pub open spec fn is_self_pair(rs: Seq<RecordView>, k: int) -> bool {
    rs[k].from == rs[k].to
}

/// The number of combinations of two out of `n` items.
pub open spec fn combinations(n: int) -> int {
    n * (n - 1) / 2
}

/// The records `rs` can be clustered: none pairs an item with itself, there
/// are at least two items and not too many, and the table holds as many
/// scores as there are combinations of two items.
pub open spec fn loads(rs: Seq<RecordView>) -> bool {
    &&& forall|j: int| 0 <= j < rs.len() ==> !is_self_pair(rs, j)
    &&& 2 <= labels_of(rs).len() <= MAX_ITEMS
    &&& scores_of(rs, rs.len() as int).dom().len() == combinations(labels_of(rs).len() as int)
}

/// Why the records `rs` cannot be clustered, if they cannot: too many items;
/// else a table that does not hold as many scores as there are combinations
/// of two items; else fewer than two items; else the first record that pairs
/// an item with itself.
pub open spec fn load_error(rs: Seq<RecordView>, e: ClusterError) -> bool {
    let n = labels_of(rs).len();
    let accepted = scores_of(rs, rs.len() as int).dom().len();
    match e {
        ClusterError::TooManyItems => n > MAX_ITEMS,
        ClusterError::CombinationCountMismatch { items, expected, accepted: found } => {
            &&& n <= MAX_ITEMS
            &&& items == n
            &&& expected == combinations(n as int)
            &&& found == accepted
            &&& accepted != combinations(n as int)
        },
        ClusterError::TooFewItems => {
            &&& n < 2
            &&& accepted == combinations(n as int)
        },
        ClusterError::SelfPair { record } => {
            &&& 2 <= n <= MAX_ITEMS
            &&& accepted == combinations(n as int)
            &&& record < rs.len()
            &&& is_self_pair(rs, record as int)
            &&& forall|j: int| 0 <= j < record ==> !is_self_pair(rs, j)
        },
        _ => false,
    }
}

/// What clustering starts from: the forest, the queue and the table.
pub struct Problem {
    pub tree: BinaryT,
    pub heap: MaxHeap<i64, HeapPair>,
    pub table: PairTable,
}

impl Problem {
    /// The forest is fresh, with the labels of the records; the table holds
    /// their scores; the queue holds an entry for each record.
    pub open spec fn is_start_of(&self, rs: Seq<RecordView>) -> bool {
        &&& self.tree@ == Forest::fresh(labels_of(rs))
        &&& self.tree@.well_formed()
        &&& table_scores(self.table) == scores_of(rs, rs.len() as int)
        &&& self.heap.well_formed()
        &&& self.heap.entries() == queue_of(rs).to_multiset()
        &&& queue_refers(self.tree@, self.heap.entries())
    }
}

/// Clustering the records `rs` may give the Newick text `text`: some run
/// from the fresh forest and the queue of the records ends with a root, and
/// `text` is the text of the tree under it, followed by a semicolon.
pub open spec fn clusters_to(rs: Seq<RecordView>, text: Seq<char>) -> bool {
    exists|end: RunState| #[trigger]
        runs_to(
            RunState { forest: Forest::fresh(labels_of(rs)), queue: queue_of(rs).to_multiset() },
            scores_of(rs, rs.len() as int),
            end,
        ) && end.forest.well_formed() && end.forest.root is Some && text == end.forest.newick(
            end.forest.root->0,
        ) + seq![';']
}

/// Clustering the records `rs` may come to a halt: some run from the fresh
/// forest and the queue of the records ends with an empty queue and no root.
pub open spec fn exhausts(rs: Seq<RecordView>) -> bool {
    exists|end: RunState| #[trigger]
        runs_to(
            RunState { forest: Forest::fresh(labels_of(rs)), queue: queue_of(rs).to_multiset() },
            scores_of(rs, rs.len() as int),
            end,
        ) && end.forest.root is None && end.queue.len() == 0
}

/// At no pop of any run of clustering the records `rs` do two live entries
/// of the queue share the greatest score among the live ones. This is so in
/// particular where no two live entries ever have scores of equal rank.
pub open spec fn tie_free(rs: Seq<RecordView>) -> bool {
    forall|trace: Seq<Entry>| #[trigger]
        is_run(
            RunState { forest: Forest::fresh(labels_of(rs)), queue: queue_of(rs).to_multiset() },
            scores_of(rs, rs.len() as int),
            trace,
        ) ==> never_top_ties(
            RunState { forest: Forest::fresh(labels_of(rs)), queue: queue_of(rs).to_multiset() },
            scores_of(rs, rs.len() as int),
            trace,
        )
}

/// Clustering the same records again gives the same text whenever no two
/// competing scores are ever equal. Stale entries of the queue may have any
/// scores.
pub proof fn lemma_clustering_is_determined(rs: Seq<RecordView>, t1: Seq<char>, t2: Seq<char>)
    requires
        loads(rs),
        clusters_to(rs, t1),
        clusters_to(rs, t2),
        tie_free(rs),
    ensures
        t1 == t2,
{
    let start = RunState {
        forest: Forest::fresh(labels_of(rs)),
        queue: queue_of(rs).to_multiset(),
    };
    let m = scores_of(rs, rs.len() as int);
    let end1 = choose|end: RunState| #[trigger]
        runs_to(start, m, end) && end.forest.well_formed() && end.forest.root is Some && t1
            == end.forest.newick(end.forest.root->0) + seq![';'];
    let end2 = choose|end: RunState| #[trigger]
        runs_to(start, m, end) && end.forest.well_formed() && end.forest.root is Some && t2
            == end.forest.newick(end.forest.root->0) + seq![';'];
    let trace1 = choose|trace: Seq<Entry>| #[trigger]
        is_run(start, m, trace) && run_end(start, m, trace) == end1;
    let trace2 = choose|trace: Seq<Entry>| #[trigger]
        is_run(start, m, trace) && run_end(start, m, trace) == end2;
    lemma_fresh_is_well_formed(labels_of(rs));
    lemma_start_refers(rs);
    lemma_finished_runs_agree(start, m, trace1, trace2);
}

/// Clusters the items that `records` name and returns the tree as Newick
/// text. Records that cannot be clustered are refused before any merge; so
/// are records that name fewer than two items, since nothing can be merged
/// then. Where the records give a score for every two different items, in
/// either order, clustering succeeds.
pub fn clustering(records: &Vec<Record>) -> (r: Result<String, ClusterError>)
    ensures
        match r {
            Ok(text) => loads(views(records@)) && clusters_to(views(records@), text@),
            Err(e) => load_error(views(records@), e) || {
                &&& e == ClusterError::QueueExhausted
                &&& loads(views(records@))
                &&& exhausts(views(records@))
                &&& !table_covers(
                    scores_of(views(records@), records@.len() as int),
                    labels_of(views(records@)).len(),
                )
            },
        },
        loads(views(records@)) && table_covers(
            scores_of(views(records@), records@.len() as int),
            labels_of(views(records@)).len(),
        ) ==> r is Ok,
{
    let ghost rs = views(records@);
    match load(records) {
        Err(e) => {
            proof {
                if loads(rs) {
                    assert(load_error(rs, e));
                }
            }
            Err(e)
        },
        Ok(problem) => {
            let mut tree = problem.tree;
            let mut paired_values_heap = problem.heap;
            let paired_values_dict = problem.table;
            let ghost start = RunState { forest: tree@, queue: paired_values_heap.entries() };
            proof {
                if table_covers(scores_of(rs, rs.len() as int), labels_of(rs).len()) {
                    lemma_start_covers(rs);
                }
            }
            match merge_all(&mut tree, &mut paired_values_heap, &paired_values_dict) {
                Err(e) => {
                    proof {
                        let end = RunState {
                            forest: tree@,
                            queue: paired_values_heap.entries(),
                        };
                        to_multiset_len(paired_values_heap@);
                        assert(runs_to(start, scores_of(rs, rs.len() as int), end));
                    }
                    Err(e)
                },
                Ok(_) => {
                    let out_str = tree.to_newick();
                    proof {
                        let end = RunState {
                            forest: tree@,
                            queue: paired_values_heap.entries(),
                        };
                        assert(runs_to(start, scores_of(rs, rs.len() as int), end));
                    }
                    Ok(out_str)
                },
            }
        },
    }
}

/// Makes the forest, the table and the queue that clustering starts from:
/// an item for each label in the order of first occurrence, the score of each
/// record in the table under the ordered pair of its items, and an entry in
/// the queue for each record. Records that cannot be clustered are refused: a
/// table whose number of scores is not the number of combinations of two
/// items is reported as such, whatever else is wrong with the records but
/// that there are too many items.
pub fn load(records: &Vec<Record>) -> (r: Result<Problem, ClusterError>)
    ensures
        match r {
            Ok(p) => loads(views(records@)) && p.is_start_of(views(records@)),
            Err(e) => load_error(views(records@), e),
        },
{
    let ghost rs = views(records@);
    let count = records.len();
    let mut labels: Vec<String> = Vec::new();
    let mut ids: StringHashMap<usize> = StringHashMap::new();
    let mut first_self_pair: Option<usize> = None;
    let mut k: usize = 0;
    proof {
        assert(rs.take(0) =~= Seq::<RecordView>::empty());
        assert(label_views(labels@) =~= Seq::<Seq<char>>::empty());
    }
    while k < count
        invariant
            k <= count,
            count == records@.len(),
            rs == views(records@),
            labels_known(labels@, ids@),
            label_views(labels@) == labels_of(rs.take(k as int)),
            match first_self_pair {
                Some(record) => {
                    &&& record < k
                    &&& is_self_pair(rs, record as int)
                    &&& forall|j: int| 0 <= j < record ==> !is_self_pair(rs, j)
                },
                None => forall|j: int| 0 <= j < k ==> !is_self_pair(rs, j),
            },
        decreases count - k,
    {
        let rec = &records[k];
        assert(rs[k as int] == rec@);
        if first_self_pair.is_none() && rec.from == rec.to {
            first_self_pair = Some(k);
        }
        intern(&mut labels, &mut ids, &rec.from);
        intern(&mut labels, &mut ids, &rec.to);
        proof {
            assert(rs.take(k + 1).drop_last() =~= rs.take(k as int));
        }
        k += 1;
    }
    let ghost ls = labels_of(rs);
    proof {
        assert(rs.take(count as int) =~= rs);
        lemma_labels_of(rs, 0);
    }
    let n = labels.len();
    if n > MAX_ITEMS {
        return Err(ClusterError::TooManyItems);
    }
    let mut table = table_new();
    let mut heap: MaxHeap<i64, HeapPair> = MaxHeap::new();
    let mut k: usize = 0;
    proof {
        lemma_i64_keys_are_ordered();
        assert(queue_of(rs).take(0) =~= Seq::<Entry>::empty());
        lemma_nothing_in_no_slots(queue_of(rs).take(0));
        lemma_nothing_in_no_slots(heap@);
    }
    while k < count
        invariant
            k <= count,
            count == records@.len(),
            rs == views(records@),
            ls == labels_of(rs),
            ls == label_views(labels@),
            labels_known(labels@, ids@),
            forall|j: int|
                0 <= j < rs.len() ==> ls.contains(#[trigger] rs[j].from) && ls.contains(rs[j].to),
            strict_weak_order::<i64>(),
            table_scores(table) == scores_of(rs, k as int),
            heap.well_formed(),
            heap.entries() == queue_of(rs).take(k as int).to_multiset(),
        decreases count - k,
    {
        let rec = &records[k];
        assert(rs[k as int] == rec@);
        let from_index = item_for(&ids, &rec.from, Ghost(ls));
        let to_index = item_for(&ids, &rec.to, Ghost(ls));
        table_insert(&mut table, from_index, to_index, rec.value);
        heap.insert(rec.value, HeapPair::new(from_index, to_index));
        proof {
            let e: Entry = (rec.value, pair_of(rs, k as int));
            assert(queue_of(rs).take(k + 1) =~= queue_of(rs).take(k as int).push(e));
            to_multiset_build(queue_of(rs).take(k as int), e);
        }
        k += 1;
    }
    proof {
        assert(queue_of(rs).take(count as int) =~= queue_of(rs));
        lemma_scores_are_finite(rs, count as int);
        if n >= 1 {
            assert((n as u64) * ((n as u64) - 1) <= 0x7FFF_FFFF * 0x7FFF_FFFF)
                by (nonlinear_arith)
                requires
                    1 <= n <= 0x7FFF_FFFF,
            ;
        }
    }
    let accepted_pair_nums = table_len(&table) as u64;
    let expected_combination_nums: u64 = if n == 0 {
        0
    } else {
        (n as u64) * ((n as u64) - 1) / 2
    };
    proof {
        let items = n as int;
        let expected = expected_combination_nums as int;
        assert(items * (items - 1) / 2 == expected) by (nonlinear_arith)
            requires
                items >= 0,
                items == 0 ==> expected == 0,
                items >= 1 ==> expected == (items * (items - 1)) / 2,
        ;
    }
    if expected_combination_nums != accepted_pair_nums {
        return Err(
            ClusterError::CombinationCountMismatch {
                items: n,
                expected: expected_combination_nums,
                accepted: accepted_pair_nums,
            },
        );
    }
    if n < 2 {
        return Err(ClusterError::TooFewItems);
    }
    match first_self_pair {
        Some(record) => {
            return Err(ClusterError::SelfPair { record });
        },
        None => {},
    }
    let tree = BinaryT::new(labels);
    proof {
        assert(tree@.labels =~= ls);
        lemma_start_refers(rs);
    }
    Ok(Problem { tree, heap, table })
}

/// Pops the entry with the greatest score and makes the step on its pair,
/// again and again, until one cluster holds every item or the queue is empty.
pub fn merge_all(tree: &mut BinaryT, heap: &mut MaxHeap<i64, HeapPair>, table: &PairTable) -> (r:
    Result<(), ClusterError>)
    requires
        old(tree)@.well_formed(),
        old(heap).well_formed(),
        queue_refers(old(tree)@, old(heap).entries()),
    ensures
        final(tree)@.well_formed(),
        final(heap).well_formed(),
        runs_to(
            RunState { forest: old(tree)@, queue: old(heap).entries() },
            table_scores(*table),
            RunState { forest: final(tree)@, queue: final(heap).entries() },
        ),
        match r {
            Ok(_) => final(tree)@.root is Some,
            Err(e) => {
                &&& e == ClusterError::QueueExhausted
                &&& final(tree)@.root is None
                &&& final(heap)@.len() == 0
            },
        },
        old(tree)@.item_count() >= 2 && table_covers(
            table_scores(*table),
            old(tree)@.item_count(),
        ) && queue_covers(old(tree)@, old(heap).entries()) ==> r is Ok,
{
    let ghost m = table_scores(*table);
    let ghost start = RunState { forest: tree@, queue: heap.entries() };
    let ghost covered = tree@.item_count() >= 2 && table_covers(m, tree@.item_count())
        && queue_covers(tree@, heap.entries());
    let ghost mut trace: Seq<Entry> = Seq::empty();
    proof {
        lemma_i64_keys_are_ordered();
    }
    loop
        invariant
            m == table_scores(*table),
            tree@.well_formed(),
            heap.well_formed(),
            tree@.labels == start.forest.labels,
            start == (RunState { forest: old(tree)@, queue: old(heap).entries() }),
            covered == (start.forest.item_count() >= 2 && table_covers(
                m,
                start.forest.item_count(),
            ) && queue_covers(start.forest, start.queue)),
            queue_refers(tree@, heap.entries()),
            is_run(start, m, trace),
            run_end(start, m, trace) == (RunState { forest: tree@, queue: heap.entries() }),
            covered ==> start.forest.item_count() >= 2 && table_covers(
                m,
                start.forest.item_count(),
            ) && queue_covers(tree@, heap.entries()),
            strict_weak_order::<i64>(),
        decreases active_count(tree@.nodes), heap@.len(),
    {
        if tree.root().is_some() {
            return Ok(());
        }
        let ghost before = RunState { forest: tree@, queue: heap.entries() };
        match heap.pop_max() {
            None => {
                proof {
                    if covered {
                        let pair = lemma_two_are_active(tree@);
                        assert(tree@.is_active(pair.0) && tree@.is_active(pair.1));
                        let e = choose|e: Entry|
                            heap.entries().contains(e) && links(e.1, pair.0, pair.1);
                        to_multiset_len(heap@);
                        to_multiset_contains(heap@, e);
                    }
                }
                return Err(ClusterError::QueueExhausted);
            },
            Some(popped) => {
                let pair_info = popped.1;
                let ghost e: Entry = popped;
                proof {
                    lemma_step_keeps_queue(before, m, e);
                    assert(tree@.has(e.1.from_index));
                }
                tree.updating(pair_info.from_index, pair_info.to_index, heap, table);
                proof {
                    assert(trace.push(e).drop_last() =~= trace);
                    trace = trace.push(e);
                    assert(after(before, m, e).queue == heap.entries());
                }
            },
        }
    }
}

/// The labels as contracts see them.
spec fn label_views(labels: Seq<String>) -> Seq<Seq<char>> {
    labels.map_values(|s: String| s@)
}

/// `ids` gives each of `labels` its place among them, and knows no other
/// label; no label is there twice.
spec fn labels_known(labels: Seq<String>, ids: Map<Seq<char>, usize>) -> bool {
    let ls = label_views(labels);
    &&& ls.no_duplicates()
    &&& forall|i: int| 0 <= i < ls.len() ==> ids.contains_key(#[trigger] ls[i]) && ids[ls[i]] == i
    &&& forall|key: Seq<char>| #[trigger] ids.contains_key(key) ==> ls.contains(key)
}

/// Gives `label` the next free item unless it has one already.
fn intern(labels: &mut Vec<String>, ids: &mut StringHashMap<usize>, label: &String)
    requires
        labels_known(old(labels)@, old(ids)@),
    ensures
        labels_known(final(labels)@, final(ids)@),
        label_views(final(labels)@) == add_label(label_views(old(labels)@), label@),
{
    let ghost ls = label_views(labels@);
    if !ids.contains_key(label.as_str()) {
        let next = labels.len();
        ids.insert(label.clone(), next);
        labels.push(label.clone());
        proof {
            let ls2 = label_views(labels@);
            assert(!ls.contains(label@)) by {
                if ls.contains(label@) {
                    let i = choose|i: int| 0 <= i < ls.len() && ls[i] == label@;
                    assert(old(ids)@.contains_key(ls[i]));
                }
            }
            assert(ls2 =~= ls.push(label@));
            assert forall|i: int| 0 <= i < ls2.len() implies ids@.contains_key(#[trigger] ls2[i])
                && ids@[ls2[i]] == i by {
                if i < ls.len() {
                    assert(old(ids)@.contains_key(ls[i]));
                }
            }
            assert forall|key: Seq<char>| ids@.contains_key(key) implies ls2.contains(key) by {
                if key == label@ {
                    assert(ls2[ls.len() as int] == key);
                } else {
                    assert(old(ids)@.contains_key(key));
                    assert(ls.contains(key));
                    let i = choose|i: int| 0 <= i < ls.len() && ls[i] == key;
                    assert(ls2[i] == key);
                }
            }
        }
    } else {
        proof {
            assert(ls.contains(label@));
        }
    }
}

/// Looks up the item that a label stands for.
fn item_for(ids: &StringHashMap<usize>, label: &String, Ghost(ls): Ghost<Seq<Seq<char>>>) -> (r:
    usize)
    requires
        ls.no_duplicates(),
        ls.contains(label@),
        forall|i: int|
            0 <= i < ls.len() ==> ids@.contains_key(#[trigger] ls[i]) && ids@[ls[i]] == i,
    ensures
        r == item_of(ls, label@),
        r < ls.len(),
{
    match ids.get(label.as_str()) {
        Some(id) => *id,
        None => {
            proof {
                let i = choose|i: int| 0 <= i < ls.len() && ls[i] == label@;
                assert(ids@.contains_key(ls[i]));
            }
            0
        },
    }
}

/// Adding labels keeps those that were there, in their places, and names
/// none twice.
proof fn lemma_add_label(ls: Seq<Seq<char>>, l: Seq<char>)
    requires
        ls.no_duplicates(),
    ensures
        add_label(ls, l).no_duplicates(),
        add_label(ls, l).contains(l),
        ls.len() <= add_label(ls, l).len(),
        forall|i: int| 0 <= i < ls.len() ==> add_label(ls, l)[i] == ls[i],
{
    if !ls.contains(l) {
        assert(ls.push(l)[ls.len() as int] == l);
    }
}

/// The labels of the records are named once each, and the labels of the
/// first records come first.
proof fn lemma_labels_of(rs: Seq<RecordView>, k: int)
    requires
        0 <= k <= rs.len(),
    ensures
        labels_of(rs).no_duplicates(),
        labels_of(rs.take(k)).len() <= labels_of(rs).len(),
        forall|i: int|
            0 <= i < labels_of(rs.take(k)).len() ==> labels_of(rs)[i] == labels_of(rs.take(k))[i],
        forall|j: int|
            0 <= j < rs.len() ==> labels_of(rs).contains(#[trigger] rs[j].from) && labels_of(
                rs,
            ).contains(rs[j].to),
    decreases rs.len(),
{
    if rs.len() == 0 {
        assert(rs.take(k) =~= rs);
    } else {
        let head = rs.drop_last();
        let mid = add_label(labels_of(head), rs.last().from);
        lemma_labels_of(head, if k < rs.len() {
            k
        } else {
            k - 1
        });
        lemma_add_label(labels_of(head), rs.last().from);
        lemma_add_label(mid, rs.last().to);
        if k < rs.len() {
            assert(head.take(k) =~= rs.take(k));
        } else {
            assert(rs.take(k) =~= rs);
        }
        assert forall|j: int| 0 <= j < rs.len() implies labels_of(rs).contains(
            #[trigger] rs[j].from,
        ) && labels_of(rs).contains(rs[j].to) by {
            if j < head.len() {
                assert(head[j] == rs[j]);
                let a = choose|a: int|
                    0 <= a < labels_of(head).len() && labels_of(head)[a] == rs[j].from;
                assert(labels_of(rs)[a] == rs[j].from);
                let b = choose|b: int|
                    0 <= b < labels_of(head).len() && labels_of(head)[b] == rs[j].to;
                assert(labels_of(rs)[b] == rs[j].to);
            } else {
                let a = choose|a: int| 0 <= a < mid.len() && mid[a] == rs[j].from;
                assert(labels_of(rs)[a] == rs[j].from);
            }
        }
    }
}

/// Every pair under which the table holds a score is the pair of a record.
proof fn lemma_scores_come_from_records(rs: Seq<RecordView>, k: int, key: (usize, usize))
    requires
        0 <= k <= rs.len(),
        scores_of(rs, k).contains_key(key),
    ensures
        exists|j: int|
            0 <= j < k && (#[trigger] pair_of(rs, j)) == (HeapPair {
                from_index: key.0,
                to_index: key.1,
            }),
        scores_of(rs, k).dom().finite(),
    decreases k,
{
    lemma_scores_are_finite(rs, k);
    if k > 0 {
        if key == (pair_of(rs, k - 1).from_index, pair_of(rs, k - 1).to_index) {
            assert(pair_of(rs, k - 1) == (HeapPair { from_index: key.0, to_index: key.1 }));
        } else {
            lemma_scores_come_from_records(rs, k - 1, key);
        }
    }
}

/// The table holds finitely many scores.
proof fn lemma_scores_are_finite(rs: Seq<RecordView>, k: int)
    ensures
        scores_of(rs, k).dom().finite(),
    decreases k,
{
    if k > 0 {
        lemma_scores_are_finite(rs, k - 1);
    }
}

/// An entry of the queue that the records give rise to is the entry of a
/// record.
proof fn lemma_queue_of_records(rs: Seq<RecordView>, e: Entry)
    requires
        queue_of(rs).to_multiset().contains(e),
    ensures
        exists|j: int| 0 <= j < rs.len() && e == (rs[j].value, #[trigger] pair_of(rs, j)),
{
    to_multiset_contains(queue_of(rs), e);
    let j = choose|j: int| 0 <= j < queue_of(rs).len() && queue_of(rs)[j] == e;
    assert(e == (rs[j].value, pair_of(rs, j)));
}

/// Where no record pairs an item with itself, every entry of the queue that
/// the records give rise to names two different clusters of the fresh forest.
pub(crate) proof fn lemma_start_refers(rs: Seq<RecordView>)
    requires
        forall|j: int| 0 <= j < rs.len() ==> !is_self_pair(rs, j),
        labels_of(rs).len() <= MAX_ITEMS,
    ensures
        queue_refers(Forest::fresh(labels_of(rs)), queue_of(rs).to_multiset()),
{
    let f = Forest::fresh(labels_of(rs));
    let ls = labels_of(rs);
    lemma_labels_of(rs, 0);
    assert forall|e: Entry| queue_of(rs).to_multiset().contains(e) implies f.has(
        (#[trigger] e.1).from_index,
    ) && f.has(e.1.to_index) && e.1.from_index != e.1.to_index by {
        lemma_queue_of_records(rs, e);
        let j = choose|j: int| 0 <= j < rs.len() && e == (rs[j].value, #[trigger] pair_of(rs, j));
        assert(ls.contains(rs[j].from) && ls.contains(rs[j].to));
        assert(!is_self_pair(rs, j));
        let a = ls.index_of(rs[j].from);
        let b = ls.index_of(rs[j].to);
        assert(0 <= a < ls.len() && ls[a] == rs[j].from);
        assert(0 <= b < ls.len() && ls[b] == rs[j].to);
    }
}

/// Where the table of the records knows a score between every two different
/// items, the queue that they give rise to holds an entry for every two
/// different clusters of the fresh forest.
proof fn lemma_start_covers(rs: Seq<RecordView>)
    requires
        table_covers(scores_of(rs, rs.len() as int), labels_of(rs).len()),
    ensures
        queue_covers(Forest::fresh(labels_of(rs)), queue_of(rs).to_multiset()),
{
    let f = Forest::fresh(labels_of(rs));
    let m = scores_of(rs, rs.len() as int);
    let q = queue_of(rs);
    assert forall|a: NodeIndex, b: NodeIndex|
        #![trigger f.is_active(a), f.is_active(b)]
        f.is_active(a) && f.is_active(b) && a != b implies exists|e: Entry|
        q.to_multiset().contains(e) && links(e.1, a, b) by {
        assert(pair_score(m, a, b) is Some);
        let key = if m.contains_key((a, b)) {
            (a, b)
        } else {
            (b, a)
        };
        lemma_scores_come_from_records(rs, rs.len() as int, key);
        let j = choose|j: int|
            0 <= j < rs.len() && (#[trigger] pair_of(rs, j)) == (HeapPair {
                from_index: key.0,
                to_index: key.1,
            });
        let e = q[j];
        to_multiset_contains(q, e);
        assert(q.contains(e));
        assert(q.to_multiset().contains(e) && links(e.1, a, b));
    }
}

} // verus!
