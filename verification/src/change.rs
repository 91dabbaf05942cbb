//! Making change: the fewest coins that pay each amount exactly.

use crate::enumerate::Spec;
use crate::numbers::{clip, nats};
use crate::scoring::{Score, UNREACHABLE};
use vstd::prelude::*;

verus! {

/// The sum of `picks`.
pub open spec fn sum_of(picks: Seq<nat>) -> nat
    decreases picks.len(),
{
    if picks.len() == 0 {
        0
    } else {
        sum_of(picks.drop_last()) + picks.last()
    }
}

/// `c` is a coin that can be paid with: a denomination of `coins` that is not
/// 0.
pub open spec fn is_coin(coins: Seq<nat>, c: nat) -> bool {
    c > 0 && coins.contains(c)
}

/// `picks` is a way to pay `t`: coins of `coins`, each as often as it comes,
/// that sum to `t`.
pub open spec fn pays(coins: Seq<nat>, picks: Seq<nat>, t: nat) -> bool {
    &&& sum_of(picks) == t
    &&& forall|i: int| 0 <= i < picks.len() ==> is_coin(coins, #[trigger] picks[i])
}

/// `t` can be paid with exactly `n` coins.
pub open spec fn makes(coins: Seq<nat>, t: nat, n: nat) -> bool {
    exists|picks: Seq<nat>| picks.len() == n && #[trigger] pays(coins, picks, t)
}

/// `t` can be paid.
pub open spec fn reachable(coins: Seq<nat>, t: nat) -> bool {
    exists|n: nat| makes(coins, t, n)
}

/// `t` can be paid with `n` coins and with no fewer.
pub open spec fn is_fewest(coins: Seq<nat>, t: nat, n: nat) -> bool {
    makes(coins, t, n) && forall|m: nat| m < n ==> !makes(coins, t, m)
}

/// The fewest coins that pay `t`, or `None` where `t` cannot be paid.
pub open spec fn fewest(coins: Seq<nat>, t: nat) -> Option<nat> {
    if reachable(coins, t) {
        Some(choose|n: nat| is_fewest(coins, t, n))
    } else {
        None
    }
}

/// A number of coins as an entry of a table of costs.
pub open spec fn as_score(n: Option<nat>) -> Score {
    match n {
        Some(n) => clip(n as int),
        None => UNREACHABLE,
    }
}

/// The entry for `t` in the table of costs of `coins`.
pub open spec fn cost(coins: Seq<nat>, t: nat) -> Score {
    as_score(fewest(coins, t))
}

/// Among the numbers of coins that pay `t`, one is the smallest.
proof fn lemma_least(coins: Seq<nat>, t: nat, n: nat)
    requires
        makes(coins, t, n),
    ensures
        exists|k: nat| is_fewest(coins, t, k),
    decreases n,
{
    if exists|m: nat| m < n && makes(coins, t, m) {
        let m = choose|m: nat| m < n && makes(coins, t, m);
        lemma_least(coins, t, m);
    } else {
        assert(is_fewest(coins, t, n));
    }
}

/// A way to pay holds no more coins than the amount it pays.
proof fn lemma_pays_len(coins: Seq<nat>, picks: Seq<nat>, t: nat)
    requires
        pays(coins, picks, t),
    ensures
        picks.len() <= t,
    decreases picks.len(),
{
    if picks.len() > 0 {
        let rest = picks.drop_last();
        assert(is_coin(coins, picks[picks.len() - 1]));
        assert forall|i: int| 0 <= i < rest.len() implies is_coin(coins, #[trigger] rest[i]) by {
            assert(rest[i] == picks[i]);
        }
        lemma_pays_len(coins, rest, sum_of(rest));
    }
}

/// What `fewest` gives is the smallest number of coins that pays `t`; it is
/// at most `t`. It gives `None` exactly where no number of coins pays `t`.
pub proof fn lemma_fewest(coins: Seq<nat>, t: nat)
    ensures
        match fewest(coins, t) {
            Some(n) => is_fewest(coins, t, n) && n <= t,
            None => forall|n: nat| !makes(coins, t, n),
        },
{
    if reachable(coins, t) {
        let n0 = choose|n: nat| makes(coins, t, n);
        lemma_least(coins, t, n0);
        let n = choose|n: nat| is_fewest(coins, t, n);
        let picks = choose|picks: Seq<nat>| picks.len() == n && #[trigger] pays(coins, picks, t);
        lemma_pays_len(coins, picks, t);
    }
}

/// With one more coin `c`, what paid `t` pays `t + c`.
pub proof fn lemma_makes_more(coins: Seq<nat>, t: nat, n: nat, c: nat)
    requires
        makes(coins, t, n),
        is_coin(coins, c),
    ensures
        makes(coins, t + c, n + 1),
{
    let picks = choose|picks: Seq<nat>| picks.len() == n && #[trigger] pays(coins, picks, t);
    let more = picks.push(c);
    assert(more.drop_last() =~= picks);
    assert(pays(coins, more, t + c));
}

/// A way to pay an amount above 0 holds a last coin `c`, which is returned:
/// without it, one coin fewer pays `t - c`.
pub proof fn lemma_makes_less(coins: Seq<nat>, t: nat, n: nat) -> (c: nat)
    requires
        makes(coins, t, n),
        t > 0,
    ensures
        n > 0,
        is_coin(coins, c),
        c <= t,
        makes(coins, (t - c) as nat, (n - 1) as nat),
{
    let picks = choose|picks: Seq<nat>| picks.len() == n && #[trigger] pays(coins, picks, t);
    let rest = picks.drop_last();
    let c = picks.last();
    assert(is_coin(coins, picks[picks.len() - 1]));
    assert forall|i: int| 0 <= i < rest.len() implies is_coin(coins, #[trigger] rest[i]) by {
        assert(rest[i] == picks[i]);
    }
    assert(pays(coins, rest, (t - c) as nat));
    c
}

/// The recurrence of making change. The amount 0 is paid with no coin at
/// all. An
/// amount `t` above 0 can be paid exactly if `t - c` can for some coin `c` up
/// to `t`, and then the fewest coins for `t` are one more than the fewest for
/// `t - c`, for the coin `c` for which those are fewest.
pub proof fn lemma_fewest_recurrence(coins: Seq<nat>, t: nat)
    ensures
        t == 0 ==> fewest(coins, t) == Some(0nat),
        t > 0 ==> match fewest(coins, t) {
            Some(n) => {
                &&& n >= 1
                &&& exists|c: nat|
                    is_coin(coins, c) && c <= t && #[trigger] fewest(coins, (t - c) as nat) == Some(
                        (n - 1) as nat,
                    )
                &&& forall|c: nat|
                    is_coin(coins, c) && c <= t ==> match #[trigger] fewest(coins, (t - c) as nat) {
                        Some(m) => n <= m + 1,
                        None => true,
                    }
            },
            None => forall|c: nat|
                is_coin(coins, c) && c <= t ==> #[trigger] fewest(coins, (t - c) as nat) is None,
        },
{
    lemma_fewest(coins, t);
    if t == 0 {
        let none = Seq::<nat>::empty();
        assert(pays(coins, none, 0));
        assert(makes(coins, 0, 0));
    } else {
        assert forall|c: nat| is_coin(coins, c) && c <= t implies match #[trigger] fewest(
            coins,
            (t - c) as nat,
        ) {
            Some(m) => makes(coins, t, m + 1),
            None => true,
        } by {
            lemma_fewest(coins, (t - c) as nat);
            if let Some(m) = fewest(coins, (t - c) as nat) {
                lemma_makes_more(coins, (t - c) as nat, m, c);
            }
        }
        if let Some(n) = fewest(coins, t) {
            let c = lemma_makes_less(coins, t, n);
            lemma_fewest(coins, (t - c) as nat);
            let m = fewest(coins, (t - c) as nat)->0;
            assert(makes(coins, t, m + 1));
            assert(fewest(coins, (t - c) as nat) == Some((n - 1) as nat));
        }
    }
}

/// The table of costs for the amounts below `top * frac` of `spec`: for each
/// the fewest of the coins `coins` that pay it, each coin as often as needed,
/// or `UNREACHABLE` where none do.
pub fn mk_needs(spec: &Spec, coins: &Vec<usize>) -> (nd: Vec<usize>)
    requires
        spec.top * spec.frac <= usize::MAX,
    ensures
        nd@.len() == spec.top * spec.frac,
        nd@.len() > 0 ==> nd@[0] == 0,
        forall|t: int| 0 <= t < nd@.len() ==> #[trigger] nd@[t] == cost(nats(coins@), t as nat),
{
    let size: usize = spec.top * spec.frac;
    let ghost all = nats(coins@);
    let mut nd: Vec<usize> = Vec::new();
    if size == 0 {
        return nd;
    }
    proof {
        lemma_fewest_recurrence(all, 0);
    }
    nd.push(0);
    let mut t: usize = 1;
    while t < size
        invariant
            all == nats(coins@),
            1 <= t <= size,
            nd@.len() == t,
            forall|s: int| 0 <= s < t ==> #[trigger] nd@[s] == cost(all, s as nat),
        decreases size - t,
    {
        let mut best: usize = UNREACHABLE;
        let mut k: usize = 0;
        while k < coins.len()
            invariant
                all == nats(coins@),
                1 <= t < size,
                nd@.len() == t,
                0 <= k <= coins.len(),
                best >= 1,
                forall|s: int| 0 <= s < t ==> #[trigger] nd@[s] == cost(all, s as nat),
                forall|j: int|
                    0 <= j < k && 0 < #[trigger] all[j] <= t ==> match fewest(all, (t - all[j]) as nat) {
                        Some(m) => best <= m + 1,
                        None => true,
                    },
                best != UNREACHABLE ==> exists|j: int|
                    0 <= j < k && 0 < #[trigger] all[j] <= t && fewest(all, (t - all[j]) as nat) == Some(
                        (best - 1) as nat,
                    ),
            decreases coins.len() - k,
        {
            let c: usize = coins[k];
            if 0 < c && c <= t {
                let sub: usize = nd[t - c];
                proof {
                    assert(all[k as int] == c);
                    lemma_fewest(all, (t - c) as nat);
                }
                if sub < best {
                    best = sub + 1;
                }
            }
            k += 1;
        }
        proof {
            lemma_fewest(all, t as nat);
            lemma_fewest_recurrence(all, t as nat);
            match fewest(all, t as nat) {
                Some(n) => {
                    let c = choose|c: nat|
                        is_coin(all, c) && c <= t && #[trigger] fewest(all, (t - c) as nat) == Some(
                            (n - 1) as nat,
                        );
                    let j = choose|j: int| 0 <= j < all.len() && all[j] == c;
                    assert(0 < all[j] <= t);
                    assert(best <= n);
                    let j2 = choose|j: int|
                        0 <= j < k && 0 < #[trigger] all[j] <= t && fewest(all, (t - all[j]) as nat) == Some(
                            (best - 1) as nat,
                        );
                    assert(is_coin(all, all[j2]));
                },
                None => {
                    if best != UNREACHABLE {
                        let j2 = choose|j: int|
                            0 <= j < k && 0 < #[trigger] all[j] <= t && fewest(all, (t - all[j]) as nat)
                                == Some((best - 1) as nat);
                        assert(is_coin(all, all[j2]));
                    }
                },
            }
        }
        nd.push(best);
        t += 1;
    }
    nd
}

} // verus!
