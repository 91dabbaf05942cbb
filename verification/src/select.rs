//! Scoring a set of denominations, and picking the best of the candidates.

use crate::change::{cost, mk_needs};
use crate::enumerate::{candidates, enumerate, Candidates, Spec};
use crate::numbers::{clip, nats, rows};
use crate::scoring::{
    folded, lemma_unreachable_propagates, propagates, Max, Quad, Score, ScoreType, Scoring, Sum,
    MIN_SCORE, UNREACHABLE,
};
use vstd::prelude::*;

verus! {

/// A table of `len` costs has an entry for each whole number of main units
/// from 1 up to `top - 1`.
pub open spec fn covers(top: nat, frac: nat, len: nat) -> bool {
    top >= 2 ==> (top - 1) * frac < len
}

/// The costs that count for the score: those of 1, 2, ... up to `top - 1`
/// main units, which stand at the multiples of `frac` in the table `nd`.
pub open spec fn boundary_costs(top: nat, frac: nat, nd: Seq<Score>) -> Seq<Score> {
    Seq::new(
        if top >= 1 {
            (top - 1) as nat
        } else {
            0
        },
        |i: int| nd[(i + 1) * frac],
    )
}

/// The score of the table `nd` under a policy.
pub open spec fn score_of<E: Scoring>(scoring: &E, top: nat, frac: nat, nd: Seq<Score>) -> Score {
    folded(scoring, boundary_costs(top, frac, nd))
}

/// The score of the table of costs `nd` in the search `spec`: the policy
/// `scoring` folds the costs of the whole numbers of main units below
/// `spec.top`.
pub fn score<E: Scoring>(scoring: &E, spec: &Spec, nd: &Vec<usize>) -> (r: Score)
    requires
        covers(spec.top as nat, spec.frac as nat, nd@.len()),
    ensures
        r == score_of(scoring, spec.top as nat, spec.frac as nat, nd@),
{
    let ghost costs = boundary_costs(spec.top as nat, spec.frac as nat, nd@);
    let mut r: Score = MIN_SCORE;
    let mut i: usize = 1;
    while i < spec.top
        invariant
            1 <= i,
            i <= spec.top || i == 1,
            covers(spec.top as nat, spec.frac as nat, nd@.len()),
            costs == boundary_costs(spec.top as nat, spec.frac as nat, nd@),
            r == folded(scoring, costs.take(i - 1)),
        decreases spec.top - i,
    {
        proof {
            assert(0 <= i * spec.frac <= (spec.top - 1) * spec.frac) by (nonlinear_arith)
                requires
                    0 <= i <= spec.top - 1,
            ;
            assert(i * spec.frac < nd@.len() == nd.len());
            assert(costs.take(i as int).drop_last() =~= costs.take(i - 1));
            assert(costs.take(i as int).last() == nd@[i * spec.frac]);
        }
        r = scoring.fold_fn(r, nd[i * spec.frac]);
        i += 1;
    }
    proof {
        assert(costs.len() == i - 1);
        assert(costs.take(costs.len() as int) =~= costs);
    }
    r
}

/// One whole number of main units that cannot be paid makes the score
/// `UNREACHABLE`, under every policy that keeps it.
pub proof fn lemma_score_unreachable<E: Scoring>(
    scoring: &E,
    top: nat,
    frac: nat,
    nd: Seq<Score>,
    i: int,
)
    requires
        propagates(scoring),
        1 <= i < top,
        nd[i * frac] == UNREACHABLE,
    ensures
        score_of(scoring, top, frac, nd) == UNREACHABLE,
{
    let costs = boundary_costs(top, frac, nd);
    assert(costs[i - 1] == nd[(i - 1 + 1) * frac]);
    lemma_unreachable_propagates(scoring, costs, i - 1);
}

/// The table of costs of `coins` for the amounts below `size`.
pub open spec fn table(coins: Seq<nat>, size: nat) -> Seq<Score> {
    Seq::new(size, |t: int| cost(coins, t as nat))
}

/// The score of the set of denominations `c` in a search.
pub open spec fn candidate_score<E: Scoring>(scoring: &E, top: nat, frac: nat, c: Seq<nat>) -> Score {
    score_of(scoring, top, frac, table(c, top * frac))
}

/// The lowest score among `cands`, `UNREACHABLE` where there is none.
pub open spec fn best_score<E: Scoring>(scoring: &E, top: nat, frac: nat, cands: Seq<Seq<nat>>) -> Score
    decreases cands.len(),
{
    if cands.len() == 0 {
        UNREACHABLE
    } else {
        let before = best_score(scoring, top, frac, cands.drop_last());
        let here = candidate_score(scoring, top, frac, cands.last());
        if here < before {
            here
        } else {
            before
        }
    }
}

/// Those of `cands` whose score is `s`, in order.
pub open spec fn scoring_exactly<E: Scoring>(
    scoring: &E,
    top: nat,
    frac: nat,
    cands: Seq<Seq<nat>>,
    s: Score,
) -> Seq<Seq<nat>>
    decreases cands.len(),
{
    if cands.len() == 0 {
        Seq::<Seq<nat>>::empty()
    } else if candidate_score(scoring, top, frac, cands.last()) == s {
        scoring_exactly(scoring, top, frac, cands.drop_last(), s).push(cands.last())
    } else {
        scoring_exactly(scoring, top, frac, cands.drop_last(), s)
    }
}

/// The first `show` of `ties`, or all of them where `show` is 0.
pub open spec fn shown(ties: Seq<Seq<nat>>, show: nat) -> Seq<Seq<nat>> {
    if show == 0 || show >= ties.len() {
        ties
    } else {
        ties.take(show as int)
    }
}

/// The outcome of a search.
#[derive(Debug)]
pub struct Bests {
    /// The sets of denominations with the lowest score, in the order in which
    /// they were found, up to the number asked for.
    pub bests: Vec<Vec<usize>>,
    /// The lowest score.
    pub score: Score,
    /// How many sets have that score, shown or not.
    pub ties: usize,
}

impl Bests {
    /// This is the outcome of a search among `cands` that shows up to `show`
    /// of the best (all where `show` is 0): the lowest score, the
    /// candidates that have it, and their number as far as a `usize` can
    /// hold it.
    pub open spec fn is_best_of<E: Scoring>(
        &self,
        scoring: &E,
        top: nat,
        frac: nat,
        cands: Seq<Seq<nat>>,
        show: nat,
    ) -> bool {
        let ties = scoring_exactly(scoring, top, frac, cands, self.score);
        &&& self.score == best_score(scoring, top, frac, cands)
        &&& self.ties == clip(ties.len() as int)
        &&& rows(self.bests@) == shown(ties, show)
    }
}

/// No candidate scores below the lowest score, and where there is a
/// candidate, one has the lowest score.
pub proof fn lemma_best_score_is_least<E: Scoring>(
    scoring: &E,
    top: nat,
    frac: nat,
    cands: Seq<Seq<nat>>,
)
    ensures
        forall|i: int|
            0 <= i < cands.len() ==> best_score(scoring, top, frac, cands) <= candidate_score(
                scoring,
                top,
                frac,
                #[trigger] cands[i],
            ),
        cands.len() > 0 ==> exists|i: int|
            0 <= i < cands.len() && best_score(scoring, top, frac, cands) == candidate_score(
                scoring,
                top,
                frac,
                #[trigger] cands[i],
            ),
    decreases cands.len(),
{
    if cands.len() > 0 {
        let rest = cands.drop_last();
        lemma_best_score_is_least(scoring, top, frac, rest);
        assert forall|i: int| 0 <= i < cands.len() implies best_score(scoring, top, frac, cands)
            <= candidate_score(scoring, top, frac, #[trigger] cands[i]) by {
            if i < rest.len() {
                assert(rest[i] == cands[i]);
            }
        }
        let here = candidate_score(scoring, top, frac, cands.last());
        if rest.len() > 0 && !(here < best_score(scoring, top, frac, rest)) {
            let i = choose|i: int|
                0 <= i < rest.len() && best_score(scoring, top, frac, rest) == candidate_score(
                    scoring,
                    top,
                    frac,
                    #[trigger] rest[i],
                );
            assert(rest[i] == cands[i]);
        } else {
            assert(cands[cands.len() - 1] == cands.last());
        }
    }
}

/// Those that score exactly `s` are the candidates whose score is `s`, no
/// others and all of them.
pub proof fn lemma_scoring_exactly_are<E: Scoring>(
    scoring: &E,
    top: nat,
    frac: nat,
    cands: Seq<Seq<nat>>,
    s: Score,
    c: Seq<nat>,
)
    ensures
        scoring_exactly(scoring, top, frac, cands, s).contains(c) <==> cands.contains(c)
            && candidate_score(scoring, top, frac, c) == s,
    decreases cands.len(),
{
    let found = scoring_exactly(scoring, top, frac, cands, s);
    if cands.len() > 0 {
        let rest = cands.drop_last();
        let before = scoring_exactly(scoring, top, frac, rest, s);
        lemma_scoring_exactly_are(scoring, top, frac, rest, s, c);
        if found.contains(c) {
            let i = choose|i: int| 0 <= i < found.len() && found[i] == c;
            if i < before.len() {
                assert(before[i] == c);
                let j = choose|j: int| 0 <= j < rest.len() && rest[j] == c;
                assert(cands[j] == c);
            } else {
                assert(cands[cands.len() - 1] == c);
            }
        }
        if cands.contains(c) && candidate_score(scoring, top, frac, c) == s {
            let j = choose|j: int| 0 <= j < cands.len() && cands[j] == c;
            if j < rest.len() {
                assert(rest[j] == c);
                let i = choose|i: int| 0 <= i < before.len() && before[i] == c;
                assert(found[i] == c);
            } else {
                assert(found[found.len() - 1] == c);
            }
        }
    }
}

/// No candidate has a score below the lowest.
pub proof fn lemma_none_below<E: Scoring>(
    scoring: &E,
    top: nat,
    frac: nat,
    cands: Seq<Seq<nat>>,
    s: Score,
)
    requires
        s < best_score(scoring, top, frac, cands),
    ensures
        scoring_exactly(scoring, top, frac, cands, s).len() == 0,
    decreases cands.len(),
{
    if cands.len() > 0 {
        lemma_none_below(scoring, top, frac, cands.drop_last(), s);
    }
}

/// The list of the best holds no more sets than have the lowest score: as
/// many as were asked for where there are that many, else all of them.
pub proof fn lemma_shown_len<E: Scoring>(
    r: Bests,
    scoring: &E,
    top: nat,
    frac: nat,
    cands: Seq<Seq<nat>>,
    show: usize,
)
    requires
        r.is_best_of(scoring, top, frac, cands, show as nat),
    ensures
        r.bests@.len() <= r.ties,
        show > 0 ==> r.bests@.len() == if r.ties < show {
            r.ties
        } else {
            show
        },
        show == 0 ==> r.bests@.len() == r.ties,
{
    assert(rows(r.bests@).len() == r.bests@.len());
    assert(r.bests.len() == r.bests@.len());
}

/// The best of the candidates that `it` still holds, in the search `spec`
/// under the policy `scoring`: the lowest score, the sets of denominations
/// that have it, up to `show` of them (all where `show` is 0), and how many
/// have it.
pub fn find_bests<E: Scoring>(scoring: &E, spec: &Spec, it: Candidates, show: usize) -> (r: Bests)
    requires
        it.wf(),
        spec.top * spec.frac <= usize::MAX,
        it.remaining().len() > 0 ==> covers(
            spec.top as nat,
            spec.frac as nat,
            (spec.top * spec.frac) as nat,
        ),
    ensures
        r.is_best_of(scoring, spec.top as nat, spec.frac as nat, it.remaining(), show as nat),
        r.bests@.len() <= r.ties,
        show > 0 ==> r.bests@.len() == if r.ties < show {
            r.ties
        } else {
            show
        },
        show == 0 ==> r.bests@.len() == r.ties,
{
    let ghost top = spec.top as nat;
    let ghost frac = spec.frac as nat;
    let ghost all = it.remaining();
    let ghost done = Seq::<Seq<nat>>::empty();
    let mut left = it;
    let mut best: Score = UNREACHABLE;
    let mut bests: Vec<Vec<usize>> = Vec::new();
    let mut ties: usize = 0;
    loop
        invariant
            left.wf(),
            all == it.remaining(),
            top == spec.top,
            frac == spec.frac,
            spec.top * spec.frac <= usize::MAX,
            all.len() > 0 ==> covers(top, frac, top * frac),
            done + left.remaining() == all,
            best == best_score(scoring, top, frac, done),
            ties == clip(scoring_exactly(scoring, top, frac, done, best).len() as int),
            rows(bests@) == shown(scoring_exactly(scoring, top, frac, done, best), show as nat),
        decreases left.remaining().len(),
    {
        let ghost rest = left.remaining();
        match left.next() {
            None => {
                proof {
                    assert(done + rest =~= done);
                }
                let r = Bests { bests, score: best, ties };
                proof {
                    lemma_shown_len(r, scoring, top, frac, all, show);
                }
                return r;
            },
            Some(cs) => {
                let ghost c = nats(cs@);
                let nd = mk_needs(spec, &cs);
                proof {
                    assert(nd@ =~= table(c, top * frac));
                    assert((done + rest).len() > 0);
                    assert(done.push(c).drop_last() =~= done);
                    assert(done.push(c) + rest.drop_first() =~= done + rest);
                }
                let sc = score(scoring, spec, &nd);
                if sc < best {
                    proof {
                        lemma_none_below(scoring, top, frac, done, sc);
                    }
                    bests = Vec::new();
                    ties = 0;
                    best = sc;
                }
                if sc == best {
                    let ghost ties_before = scoring_exactly(scoring, top, frac, done, best);
                    ties = ties.saturating_add(1);
                    if show == 0 || bests.len() < show {
                        proof {
                            assert(rows(bests@.push(cs)) =~= rows(bests@).push(c));
                        }
                        bests.push(cs);
                    } else {
                        proof {
                            assert(ties_before.push(c).take(show as int) =~= ties_before.take(
                                show as int,
                            ));
                        }
                    }
                }
                proof {
                    done = done.push(c);
                }
            },
        }
    }
}

/// The best sets of denominations of the search `spec` under the policy
/// `scoring`.
pub fn best_wrapper<E: Scoring>(scoring: E, spec: &Spec, show: usize) -> (r: Bests)
    requires
        spec.top * spec.frac <= usize::MAX,
    ensures
        r.is_best_of(
            &scoring,
            spec.top as nat,
            spec.frac as nat,
            candidates(spec.top as nat, spec.frac as nat, spec.num as nat),
            show as nat,
        ),
{
    proof {
        if spec.frac >= 1 && spec.top >= 2 {
            assert((spec.top - 1) * spec.frac < spec.top * spec.frac) by (nonlinear_arith)
                requires
                    spec.frac >= 1,
                    spec.top >= 2,
            ;
        }
    }
    find_bests(&scoring, spec, enumerate(spec), show)
}

/// The best sets of denominations of the search `spec` under the policy that
/// `kind` names.
pub fn search(kind: ScoreType, spec: &Spec, show: usize) -> (r: Bests)
    requires
        spec.top * spec.frac <= usize::MAX,
    ensures
        ({
            let top = spec.top as nat;
            let frac = spec.frac as nat;
            let cands = candidates(top, frac, spec.num as nat);
            match kind {
                ScoreType::Sum => r.is_best_of(&Sum, top, frac, cands, show as nat),
                ScoreType::Max => r.is_best_of(&Max, top, frac, cands, show as nat),
                ScoreType::Quad => r.is_best_of(&Quad, top, frac, cands, show as nat),
            }
        }),
{
    match kind {
        ScoreType::Sum => best_wrapper(Sum, spec, show),
        ScoreType::Max => best_wrapper(Max, spec, show),
        ScoreType::Quad => best_wrapper(Quad, spec, show),
    }
}

} // verus!
