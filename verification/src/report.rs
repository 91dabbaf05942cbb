//! A sweep over many searches: which of them are run, and what is said of
//! each outcome.

use crate::scoring::{Score, ScoreType};
use crate::select::Bests;
use vstd::prelude::*;

verus! {

/// Searches below `top` main units are run: `top` is not 0.
pub fn runs_top(top: usize) -> (r: bool)
    ensures
        r == (top != 0),
{
    top != 0
}

/// Searches for `num` denominations below `top` main units are run: there is
/// a denomination, and fewer of them than whole amounts up to `top`.
pub fn runs_num(top: usize, num: usize) -> (r: bool)
    ensures
        r == (0 < num < top),
{
    num != 0 && num < top
}

/// The search for `num` denominations below `top` main units of `frac`
/// subunits is run. With fractions it is not where there is one denomination
/// only or one for each whole amount: fractions change nothing then.
pub fn runs_frac(top: usize, num: usize, frac: usize) -> (r: bool)
    requires
        top >= 1,
    ensures
        r == (frac <= 1 || (num != 1 && num != top - 1)),
{
    frac <= 1 || (num != 1 && num != top - 1)
}

/// The word for a score under each policy.
pub open spec fn label_text(kind: ScoreType) -> Seq<char> {
    match kind {
        ScoreType::Sum => "need"@,
        ScoreType::Max => "max"@,
        ScoreType::Quad => "score"@,
    }
}

/// The word for a score under the policy `kind`.
pub fn label(kind: ScoreType) -> (r: &'static str)
    ensures
        r@ == label_text(kind),
{
    match kind {
        ScoreType::Sum => "need",
        ScoreType::Max => "max",
        ScoreType::Quad => "score",
    }
}

/// The scores of the searches for one number of denominations, as far as
/// later ones are held against them.
#[derive(Debug)]
pub struct Sweep {
    /// The best score without fractions, 0 until there is one.
    pub first: Score,
}

impl Sweep {
    /// No search has been run yet.
    pub fn new() -> (r: Sweep)
        ensures
            r.first == 0,
    {
        Sweep { first: 0 }
    }

    /// Takes in the best score `score` of the search with `frac` subunits to
    /// the main unit, and tells whether it is marked: it is where fractions
    /// do at least as well as the search without them did. The score of a
    /// search without fractions is kept for those that follow.
    pub fn mark(&mut self, frac: usize, score: Score) -> (marked: bool)
        ensures
            final(self).first == if frac == 1 {
                score
            } else {
                old(self).first
            },
            marked == (frac > 1 && score <= old(self).first),
    {
        if frac == 1 {
            self.first = score;
        }
        frac > 1 && score <= self.first
    }
}

impl Bests {
    /// How many of the sets with the lowest score are not in the list.
    pub fn omitted(&self) -> (n: usize)
        ensures
            n == if self.ties >= self.bests@.len() {
                self.ties - self.bests@.len()
            } else {
                0
            },
    {
        self.ties.saturating_sub(self.bests.len())
    }
}

} // verus!
