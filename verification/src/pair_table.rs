//! The table of pairwise scores, an ordered map kept in a B-tree of the
//! `ABtree` crate. A score is recorded under an ordered pair of items.
//!
//! Nothing in this file is proved: each function states what the B-tree's
//! own documentation and source say of the method it calls.

use vstd::prelude::*;
use ABtree::BTree;

verus! {

/// Makes the B-tree type of the `ABtree` crate known. Nothing is assumed of
/// what a value of it holds but what the functions below state.
#[verifier::external_type_specification]
#[verifier::external_body]
#[verifier::reject_recursive_types(K)]
#[verifier::reject_recursive_types(V)]
pub struct ExBTree<K: Ord, V>(BTree<K, V>);

/// An ordered pair of items.
pub type PairKey = (usize, usize);

/// The recorded scores as contracts see them.
pub type ScoreMap = Map<PairKey, i64>;

/// The table of pairwise scores.
pub type PairTable = BTree<PairKey, i64>;

/// What a table holds: the score recorded under each ordered pair.
pub uninterp spec fn table_scores(t: PairTable) -> ScoreMap;

/// `BTree::new`, with four keys to a node at most: the new tree holds
/// nothing.
#[verifier::external_body]
pub(crate) fn table_new() -> (t: PairTable)
    ensures
        table_scores(t) == ScoreMap::empty(),
{
    BTree::new(4)
}

/// `BTree::insert`: the tree then holds `score` under `(from, to)`, in place
/// of what it held there, and everything else as before.
#[verifier::external_body]
pub(crate) fn table_insert(t: &mut PairTable, from: usize, to: usize, score: i64)
    ensures
        table_scores(*final(t)) == table_scores(*old(t)).insert((from, to), score),
{
    t.insert((from, to), score)
}

/// `BTree::get`: the score held under `(from, to)`, if one is.
#[verifier::external_body]
pub(crate) fn table_get(t: &PairTable, from: usize, to: usize) -> (r: Option<i64>)
    ensures
        r == (if table_scores(*t).contains_key((from, to)) {
            Some(table_scores(*t)[(from, to)])
        } else {
            None
        }),
{
    t.get(&(from, to)).copied()
}

/// `BTree::len`: the number of pairs under which the tree holds a score.
#[verifier::external_body]
pub(crate) fn table_len(t: &PairTable) -> (r: usize)
    ensures
        table_scores(*t).dom().finite() ==> r == table_scores(*t).dom().len(),
{
    t.len()
}

} // verus!
