//! The filter on sets of denominations: whether a set uses the fraction of
//! the main unit in full.

use crate::numbers::{
    divides, gcd, gcd_of, lemma_divides_transitive, lemma_gcd_of_is_gcd, lemma_gcd_of_positive, nats,
};
use vstd::prelude::*;

verus! {

/// `c` is no whole number of main units, where a main unit is `frac`
/// subunits.
pub open spec fn is_fractional(frac: nat, c: nat) -> bool {
    c % frac != 0
}

/// `c` is a fractional denomination other than `except`.
pub open spec fn is_counted(frac: nat, except: Option<nat>, c: nat) -> bool {
    is_fractional(frac, c) && except != Some(c)
}

/// The number of fractional denominations in `cs`.
pub open spec fn count_fractional(frac: nat, cs: Seq<nat>) -> nat
    decreases cs.len(),
{
    if cs.len() == 0 {
        0
    } else if is_fractional(frac, cs.last()) {
        count_fractional(frac, cs.drop_last()) + 1
    } else {
        count_fractional(frac, cs.drop_last())
    }
}

/// The greatest common divisor of `frac` and the fractional denominations in
/// `cs`, but for those equal to `except`.
pub open spec fn fractional_gcd(frac: nat, cs: Seq<nat>, except: Option<nat>) -> nat
    decreases cs.len(),
{
    if cs.len() == 0 {
        frac
    } else if is_counted(frac, except, cs.last()) {
        gcd_of(fractional_gcd(frac, cs.drop_last(), except), cs.last())
    } else {
        fractional_gcd(frac, cs.drop_last(), except)
    }
}

/// The denominations `cs` use the fraction `frac` in full: there are no
/// fractions at all (`frac` is 1), or at least two fractional denominations
/// that have with `frac` no common divisor but 1, each of them a multiple of
/// what divides `frac` and all the other fractional ones.
pub open spec fn nontrivial(frac: nat, cs: Seq<nat>) -> bool {
    frac == 1 || {
        &&& count_fractional(frac, cs) >= 2
        &&& fractional_gcd(frac, cs, None) == 1
        &&& forall|i: int|
            0 <= i < cs.len() && is_fractional(frac, cs[i]) ==> divides(
                fractional_gcd(frac, cs, Some(#[trigger] cs[i])),
                cs[i],
            )
    }
}

/// `d` divides `frac` and every fractional denomination in `cs` other than
/// `except`.
pub open spec fn divides_fractionals(d: nat, frac: nat, cs: Seq<nat>, except: Option<nat>) -> bool {
    &&& divides(d, frac)
    &&& forall|i: int|
        0 <= i < cs.len() && is_counted(frac, except, #[trigger] cs[i]) ==> divides(d, cs[i])
}

/// `fractional_gcd` is what its name says: it divides `frac` and each
/// fractional denomination that counts, and whatever divides all of them
/// divides it.
pub proof fn lemma_fractional_gcd_is_greatest(frac: nat, cs: Seq<nat>, except: Option<nat>)
    requires
        frac >= 1,
    ensures
        fractional_gcd(frac, cs, except) >= 1,
        divides_fractionals(fractional_gcd(frac, cs, except), frac, cs, except),
        forall|d: nat| #[trigger]
            divides_fractionals(d, frac, cs, except) ==> divides(d, fractional_gcd(frac, cs, except)),
    decreases cs.len(),
{
    let g = fractional_gcd(frac, cs, except);
    if cs.len() == 0 {
        vstd::arithmetic::div_mod::lemma_mod_self_0(frac as int);
    } else {
        let rest = cs.drop_last();
        let h = fractional_gcd(frac, rest, except);
        lemma_fractional_gcd_is_greatest(frac, rest, except);
        if is_counted(frac, except, cs.last()) {
            lemma_gcd_of_is_gcd(h, cs.last());
            lemma_gcd_of_positive(h, cs.last());
            lemma_divides_transitive(g, h, frac);
            assert forall|i: int| 0 <= i < cs.len() && is_counted(frac, except, #[trigger] cs[i])
                implies divides(g, cs[i]) by {
                if i < cs.len() - 1 {
                    assert(rest[i] == cs[i]);
                    lemma_divides_transitive(g, h, cs[i]);
                }
            }
            assert forall|d: nat| #[trigger]
                divides_fractionals(d, frac, cs, except) implies divides(d, g) by {
                assert forall|i: int| 0 <= i < rest.len() && is_counted(frac, except, #[trigger] rest[i])
                    implies divides(d, rest[i]) by {
                    assert(rest[i] == cs[i]);
                }
                assert(divides_fractionals(d, frac, rest, except));
                assert(divides(d, cs[cs.len() - 1]));
            }
        } else {
            assert forall|i: int| 0 <= i < cs.len() && is_counted(frac, except, #[trigger] cs[i])
                implies divides(g, cs[i]) by {
                assert(rest[i] == cs[i]);
            }
            assert forall|d: nat| #[trigger]
                divides_fractionals(d, frac, cs, except) implies divides(d, g) by {
                assert forall|i: int| 0 <= i < rest.len() && is_counted(frac, except, #[trigger] rest[i])
                    implies divides(d, rest[i]) by {
                    assert(rest[i] == cs[i]);
                }
                assert(divides_fractionals(d, frac, rest, except));
            }
        }
    }
}

/// With no fractions, every set of denominations passes.
pub proof fn lemma_whole_units_nontrivial(cs: Seq<nat>)
    ensures
        nontrivial(1, cs),
{
}

/// With fractions, a set with fewer than two fractional denominations does
/// not pass.
pub proof fn lemma_lone_fraction_trivial(frac: nat, cs: Seq<nat>)
    requires
        frac > 1,
        count_fractional(frac, cs) < 2,
    ensures
        !nontrivial(frac, cs),
{
}

/// With fractions, a set does not pass where one fractional denomination is
/// no multiple of the greatest common divisor of `frac` and the other
/// fractional ones.
pub proof fn lemma_reducible_fraction_trivial(frac: nat, cs: Seq<nat>, i: int)
    requires
        frac > 1,
        0 <= i < cs.len(),
        is_fractional(frac, cs[i]),
        !divides(fractional_gcd(frac, cs, Some(cs[i])), cs[i]),
    ensures
        !nontrivial(frac, cs),
{
}

/// A longer prefix of `cs` holds at least as many fractional denominations.
pub proof fn lemma_count_fractional_rises(frac: nat, cs: Seq<nat>, n: int)
    requires
        0 <= n <= cs.len(),
    ensures
        count_fractional(frac, cs.take(n)) <= count_fractional(frac, cs),
    decreases cs.len() - n,
{
    if n < cs.len() {
        lemma_count_fractional_rises(frac, cs, n + 1);
        assert(cs.take(n + 1).drop_last() =~= cs.take(n));
    } else {
        assert(cs.take(n) =~= cs);
    }
}

/// The greatest common divisor of `frac` and the fractional denominations in
/// `cs` other than `except`.
fn gcd_of_fractionals(frac: usize, cs: &Vec<usize>, except: Option<usize>) -> (g: usize)
    requires
        frac >= 1,
    ensures
        g >= 1,
        g == fractional_gcd(
            frac as nat,
            nats(cs@),
            match except {
                Some(c) => Some(c as nat),
                None => None,
            },
        ),
{
    let ghost skip: Option<nat> = match except {
        Some(c) => Some(c as nat),
        None => None,
    };
    let mut g: usize = frac;
    let mut i: usize = 0;
    while i < cs.len()
        invariant
            frac >= 1,
            0 <= i <= cs.len(),
            skip == match except {
                Some(c) => Some(c as nat),
                None => None,
            },
            g >= 1,
            g == fractional_gcd(frac as nat, nats(cs@).take(i as int), skip),
        decreases cs.len() - i,
    {
        let c: usize = cs[i];
        proof {
            let next = nats(cs@).take(i + 1);
            assert(next.drop_last() =~= nats(cs@).take(i as int));
            assert(next.last() == c as nat);
        }
        let counted = c % frac != 0 && match except {
            Some(e) => e != c,
            None => true,
        };
        if counted {
            proof {
                lemma_gcd_of_positive(g as nat, c as nat);
            }
            g = gcd(g, c);
        }
        i += 1;
    }
    proof {
        assert(nats(cs@).take(cs.len() as int) =~= nats(cs@));
    }
    g
}

/// Whether the denominations `cs` use the fraction `frac` in full.
pub fn is_nontrivial(frac: usize, cs: &Vec<usize>) -> (r: bool)
    requires
        frac >= 1,
    ensures
        r == nontrivial(frac as nat, nats(cs@)),
{
    if frac == 1 {
        return true;
    }
    let ghost all = nats(cs@);
    let mut count: usize = 0;
    let mut i: usize = 0;
    while i < cs.len() && count < 2
        invariant
            frac > 1,
            all == nats(cs@),
            0 <= i <= cs.len(),
            count <= 2,
            count == count_fractional(frac as nat, all.take(i as int)),
        decreases cs.len() - i,
    {
        proof {
            let next = all.take(i + 1);
            assert(next.drop_last() =~= all.take(i as int));
            assert(next.last() == cs[i as int] as nat);
        }
        if cs[i] % frac != 0 {
            count += 1;
        }
        i += 1;
    }
    proof {
        lemma_count_fractional_rises(frac as nat, all, i as int);
    }
    if count < 2 {
        proof {
            assert(all.take(cs.len() as int) =~= all);
        }
        return false;
    }
    if gcd_of_fractionals(frac, cs, None) != 1 {
        return false;
    }
    let mut j: usize = 0;
    while j < cs.len()
        invariant
            frac > 1,
            all == nats(cs@),
            0 <= j <= cs.len(),
            forall|i: int|
                0 <= i < j && is_fractional(frac as nat, all[i]) ==> divides(
                    fractional_gcd(frac as nat, all, Some(#[trigger] all[i])),
                    all[i],
                ),
        decreases cs.len() - j,
    {
        let c: usize = cs[j];
        if c % frac != 0 {
            let others: usize = gcd_of_fractionals(frac, cs, Some(c));
            if c % others != 0 {
                proof {
                    assert(all[j as int] == c as nat);
                }
                return false;
            }
        }
        j += 1;
    }
    true
}

} // verus!
