//! Average linkage: the mean of the scores known between the items of two
//! clusters.

use crate::pair_table::ScoreMap;
use vstd::prelude::*;

verus! {

/// The score known between items `a` and `b`: the one recorded under
/// `(a, b)`, else the one recorded under `(b, a)`. Where both are recorded,
/// the first is taken.
pub open spec fn pair_score(m: ScoreMap, a: usize, b: usize) -> Option<i64> {
    if m.contains_key((a, b)) {
        Some(m[(a, b)])
    } else if m.contains_key((b, a)) {
        Some(m[(b, a)])
    } else {
        None
    }
}

/// The sum of the scores known between item `a` and the items `bs`.
pub open spec fn row_sum(m: ScoreMap, a: usize, bs: Seq<usize>) -> int
    decreases bs.len(),
{
    if bs.len() == 0 {
        0
    } else {
        row_sum(m, a, bs.drop_last()) + match pair_score(m, a, bs.last()) {
            Some(s) => s as int,
            None => 0,
        }
    }
}

/// The number of items among `bs`, counted as often as they occur, between
/// which and item `a` a score is known.
pub open spec fn row_count(m: ScoreMap, a: usize, bs: Seq<usize>) -> nat
    decreases bs.len(),
{
    if bs.len() == 0 {
        0
    } else {
        row_count(m, a, bs.drop_last()) + match pair_score(m, a, bs.last()) {
            Some(s) => 1nat,
            None => 0nat,
        }
    }
}

/// The sum of the scores known between an item of `xs` and an item of `bs`.
pub open spec fn cross_sum(m: ScoreMap, xs: Seq<usize>, bs: Seq<usize>) -> int
    decreases xs.len(),
{
    if xs.len() == 0 {
        0
    } else {
        cross_sum(m, xs.drop_last(), bs) + row_sum(m, xs.last(), bs)
    }
}

/// The number of pairs of an item of `xs` and an item of `bs` between which
/// a score is known.
pub open spec fn cross_count(m: ScoreMap, xs: Seq<usize>, bs: Seq<usize>) -> nat
    decreases xs.len(),
{
    if xs.len() == 0 {
        0
    } else {
        cross_count(m, xs.drop_last(), bs) + row_count(m, xs.last(), bs)
    }
}

/// `sum` divided by `count`, rounded towards zero.
pub open spec fn mean(sum: int, count: int) -> int {
    if sum >= 0 {
        sum / count
    } else {
        -((-sum) / count)
    }
}

/// The linkage score of two clusters with items `xs` and `bs`: the mean of
/// the scores known between an item of the one and an item of the other.
/// Pairs without a known score count neither in the sum nor in the number;
/// where no pair has one, the linkage is undefined.
pub open spec fn linkage(m: ScoreMap, xs: Seq<usize>, bs: Seq<usize>) -> Option<int> {
    if cross_count(m, xs, bs) == 0 {
        None
    } else {
        Some(mean(cross_sum(m, xs, bs), cross_count(m, xs, bs) as int))
    }
}

/// The least and the greatest score.
pub open spec fn score_min() -> int {
    -0x8000_0000_0000_0000
}

pub open spec fn score_max() -> int {
    0x7FFF_FFFF_FFFF_FFFF
}

/// A row's count is at most the number of items, and its sum lies within
/// what that many scores can add up to.
pub(crate) proof fn lemma_row_bounds(m: ScoreMap, a: usize, bs: Seq<usize>)
    ensures
        row_count(m, a, bs) <= bs.len(),
        score_min() * row_count(m, a, bs) <= row_sum(m, a, bs) <= score_max() * row_count(
            m,
            a,
            bs,
        ),
    decreases bs.len(),
{
    if bs.len() > 0 {
        lemma_row_bounds(m, a, bs.drop_last());
        let c = row_count(m, a, bs.drop_last()) as int;
        assert(score_min() * (c + 1) == score_min() * c + score_min()) by (nonlinear_arith);
        assert(score_max() * (c + 1) == score_max() * c + score_max()) by (nonlinear_arith);
    }
}

/// The same for all rows together.
pub(crate) proof fn lemma_cross_bounds(m: ScoreMap, xs: Seq<usize>, bs: Seq<usize>)
    ensures
        cross_count(m, xs, bs) <= xs.len() * bs.len(),
        score_min() * cross_count(m, xs, bs) <= cross_sum(m, xs, bs) <= score_max() * cross_count(
            m,
            xs,
            bs,
        ),
    decreases xs.len(),
{
    if xs.len() > 0 {
        lemma_cross_bounds(m, xs.drop_last(), bs);
        lemma_row_bounds(m, xs.last(), bs);
        let c = cross_count(m, xs.drop_last(), bs) as int;
        let d = row_count(m, xs.last(), bs) as int;
        assert(score_min() * (c + d) == score_min() * c + score_min() * d) by (nonlinear_arith);
        assert(score_max() * (c + d) == score_max() * c + score_max() * d) by (nonlinear_arith);
        assert((xs.len() - 1) * bs.len() + bs.len() == xs.len() * bs.len()) by (nonlinear_arith);
    } else {
        assert(xs.len() * bs.len() == 0) by (nonlinear_arith)
            requires
                xs.len() == 0,
        ;
    }
}

/// The mean of scores is a score.
pub proof fn lemma_mean_is_score(sum: int, count: int)
    requires
        count > 0,
        score_min() * count <= sum <= score_max() * count,
    ensures
        score_min() <= mean(sum, count) <= score_max(),
{
    if sum >= 0 {
        assert(0 <= sum / count <= score_max()) by (nonlinear_arith)
            requires
                count > 0,
                0 <= sum <= score_max() * count,
        ;
    } else {
        assert((-score_min()) * count == -(score_min() * count)) by (nonlinear_arith);
        assert(0 <= (-sum) / count <= -score_min()) by (nonlinear_arith)
            requires
                count > 0,
                0 <= -sum <= (-score_min()) * count,
        ;
    }
}

} // verus!
