//! Scores, and the policies that fold the cost of each amount into one score.

use crate::numbers::clip;
use vstd::prelude::*;

verus! {

/// A number of coins, or a total built from such numbers.
pub type Score = usize;

/// The score of nothing: where every fold starts.
pub const MIN_SCORE: Score = 0;

/// Stands for "no combination of coins makes this amount". It is above every
/// real number of coins, since an amount `t` never needs more than `t` coins
/// and a table of costs has at most `usize::MAX` entries. It is also the
/// ceiling of every total: a `Sum` or `Quad` score that would pass it stays
/// here.
pub const UNREACHABLE: Score = usize::MAX;

/// The choice of policy, as a caller names it.
#[derive(PartialEq, Eq, Clone, Copy, Debug, Structural)]
pub enum ScoreType {
    Sum,
    Max,
    Quad,
}

/// A scoring policy: how the cost of one more amount enters the score so far.
pub trait Scoring {
    /// The score that `fold_fn` gives.
    spec fn fold_spec(&self, a: Score, b: Score) -> Score;

    /// The score `a` so far, with the cost `b` taken in.
    fn fold_fn(&self, a: Score, b: Score) -> (r: Score)
        ensures
            r == self.fold_spec(a, b),
    ;
}

/// Scores by the total number of coins. A total beyond `UNREACHABLE` stays
/// at `UNREACHABLE`.
pub struct Sum;

/// Scores by the largest number of coins that any amount needs.
pub struct Max;

/// Scores by the total of the squared numbers of coins, which weighs the
/// amounts that take many coins more. A total beyond `UNREACHABLE` stays at
/// `UNREACHABLE`.
pub struct Quad;

impl Scoring for Sum {
    open spec fn fold_spec(&self, a: Score, b: Score) -> Score {
        clip(a + b)
    }

    #[inline]
    fn fold_fn(&self, a: Score, b: Score) -> (r: Score) {
        a.saturating_add(b)
    }
}

impl Scoring for Max {
    open spec fn fold_spec(&self, a: Score, b: Score) -> Score {
        if a >= b {
            a
        } else {
            b
        }
    }

    #[inline]
    fn fold_fn(&self, a: Score, b: Score) -> (r: Score) {
        if a >= b {
            a
        } else {
            b
        }
    }
}

impl Scoring for Quad {
    open spec fn fold_spec(&self, a: Score, b: Score) -> Score {
        clip(a + b * b)
    }

    #[inline]
    fn fold_fn(&self, a: Score, b: Score) -> (r: Score) {
        match b.checked_mul(b) {
            Some(sq) => a.saturating_add(sq),
            None => UNREACHABLE,
        }
    }
}

/// The policy takes the scores in `costs` in, one after the other, starting
/// from `MIN_SCORE`.
pub open spec fn folded<E: Scoring>(scoring: &E, costs: Seq<Score>) -> Score
    decreases costs.len(),
{
    if costs.len() == 0 {
        MIN_SCORE
    } else {
        scoring.fold_spec(folded(scoring, costs.drop_last()), costs.last())
    }
}

/// The plain sum of `costs`.
pub open spec fn total(costs: Seq<Score>) -> int
    decreases costs.len(),
{
    if costs.len() == 0 {
        0
    } else {
        total(costs.drop_last()) + costs.last()
    }
}

/// The sum of the squares of `costs`.
pub open spec fn total_of_squares(costs: Seq<Score>) -> int
    decreases costs.len(),
{
    if costs.len() == 0 {
        0
    } else {
        total_of_squares(costs.drop_last()) + costs.last() * costs.last()
    }
}

/// The largest of `costs`, 0 where there is none.
pub open spec fn largest(costs: Seq<Score>) -> int
    decreases costs.len(),
{
    if costs.len() == 0 {
        0
    } else if largest(costs.drop_last()) >= costs.last() {
        largest(costs.drop_last())
    } else {
        costs.last() as int
    }
}

/// Under `Sum` the score is the plain sum of the costs, as far as a `Score`
/// can hold it.
pub proof fn lemma_sum_is_total(costs: Seq<Score>)
    ensures
        total(costs) >= 0,
        folded(&Sum, costs) == clip(total(costs)),
    decreases costs.len(),
{
    if costs.len() > 0 {
        lemma_sum_is_total(costs.drop_last());
    }
}

/// Under `Max` the score is the largest of the costs.
pub proof fn lemma_max_is_largest(costs: Seq<Score>)
    ensures
        folded(&Max, costs) == largest(costs),
    decreases costs.len(),
{
    if costs.len() > 0 {
        lemma_max_is_largest(costs.drop_last());
    }
}

/// Under `Quad` the score is the sum of the squared costs, as far as a
/// `Score` can hold it.
pub proof fn lemma_quad_is_total_of_squares(costs: Seq<Score>)
    ensures
        total_of_squares(costs) >= 0,
        folded(&Quad, costs) == clip(total_of_squares(costs)),
    decreases costs.len(),
{
    if costs.len() > 0 {
        lemma_quad_is_total_of_squares(costs.drop_last());
        let b = costs.last();
        assert(b * b >= 0) by (nonlinear_arith);
    }
}

/// The policy keeps `UNREACHABLE` once it has come in, from either side.
pub open spec fn propagates<E: Scoring>(scoring: &E) -> bool {
    forall|a: Score, b: Score|
        #![trigger scoring.fold_spec(a, b)]
        (a == UNREACHABLE || b == UNREACHABLE) ==> scoring.fold_spec(a, b) == UNREACHABLE
}

/// `Sum`, `Max` and `Quad` each keep `UNREACHABLE`.
pub proof fn lemma_policies_propagate()
    ensures
        propagates(&Sum),
        propagates(&Max),
        propagates(&Quad),
{
    assert forall|a: Score, b: Score|
        #![trigger Quad.fold_spec(a, b)]
        (a == UNREACHABLE || b == UNREACHABLE) implies Quad.fold_spec(a, b) == UNREACHABLE by {
        assert(b * b >= b) by (nonlinear_arith);
    }
}

/// One unreachable amount makes the whole score `UNREACHABLE`, under every
/// policy that keeps it.
pub proof fn lemma_unreachable_propagates<E: Scoring>(scoring: &E, costs: Seq<Score>, i: int)
    requires
        propagates(scoring),
        0 <= i < costs.len(),
        costs[i] == UNREACHABLE,
    ensures
        folded(scoring, costs) == UNREACHABLE,
    decreases costs.len(),
{
    if i < costs.len() - 1 {
        lemma_unreachable_propagates(scoring, costs.drop_last(), i);
    }
}

} // verus!
