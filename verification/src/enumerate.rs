//! The candidates of a search: every set of denominations worth scoring, in
//! lexicographic order, handed out one at a time.

use crate::combos::{
    binomial, combos, is_combo, lemma_binomial_none, lemma_combo_bounds, lemma_combos_complete,
    lemma_combos_len, lemma_combos_members, lemma_combos_order, lemma_combos_sorted,
    lemma_lex_asymmetric, lemma_lex_not_below, lex_lt, prepend_all, rises_at,
};
use crate::fractions::{is_nontrivial, nontrivial};
use crate::numbers::{clip, nats, rows};
use vstd::prelude::*;

verus! {

/// One search: `num` denominations for the amounts below `top` main units,
/// where a main unit is `frac` subunits.
#[derive(Debug, PartialEq, Eq, Clone, Copy, Structural)]
pub struct Spec {
    pub top: usize,
    pub frac: usize,
    pub num: usize,
}

/// The smallest denomination `d` can make one subunit together with larger
/// ones: it is at most half a main unit, or the main unit itself.
pub open spec fn first_allowed(frac: nat, d: nat) -> bool {
    d <= frac / 2 || d == frac
}

/// The set of denominations `c` is worth scoring: its smallest member is
/// allowed and it uses the fraction in full.
pub open spec fn keeps(frac: nat, c: Seq<nat>) -> bool {
    c.len() > 0 && first_allowed(frac, c[0]) && nontrivial(frac, c)
}

/// The members of `s` that are worth scoring, in the order of `s`.
pub open spec fn kept(frac: nat, s: Seq<Seq<nat>>) -> Seq<Seq<nat>>
    decreases s.len(),
{
    if s.len() == 0 {
        Seq::<Seq<nat>>::empty()
    } else if keeps(frac, s[0]) {
        seq![s[0]] + kept(frac, s.drop_first())
    } else {
        kept(frac, s.drop_first())
    }
}

/// The candidates of a search, in lexicographic order: the sets of `num`
/// denominations from 1 up to `top * frac - 1` that are worth scoring. There
/// are none where `top`, `frac` or `num` is 0 or `num` is above `top * frac`.
pub open spec fn candidates(top: nat, frac: nat, num: nat) -> Seq<Seq<nat>> {
    if num == 0 || top == 0 || frac == 0 || num > top * frac {
        Seq::<Seq<nat>>::empty()
    } else {
        kept(frac, combos(1, top * frac, num))
    }
}

/// From position `a` of `s` on, what is kept is what is kept from `b` on,
/// where nothing between the two is kept.
pub proof fn lemma_kept_skips(frac: nat, s: Seq<Seq<nat>>, a: int, b: int)
    requires
        0 <= a <= b <= s.len(),
        forall|i: int| a <= i < b ==> !keeps(frac, #[trigger] s[i]),
    ensures
        kept(frac, s.skip(a)) == kept(frac, s.skip(b)),
    decreases b - a,
{
    if a < b {
        assert(s.skip(a)[0] == s[a]);
        assert(s.skip(a).drop_first() =~= s.skip(a + 1));
        lemma_kept_skips(frac, s, a + 1, b);
    }
}

/// What is kept from position `a` of `s` on is `s[a]`, if that is kept, and
/// then what is kept from `a + 1` on.
pub proof fn lemma_kept_step(frac: nat, s: Seq<Seq<nat>>, a: int)
    requires
        0 <= a < s.len(),
    ensures
        kept(frac, s.skip(a)) == if keeps(frac, s[a]) {
            seq![s[a]] + kept(frac, s.skip(a + 1))
        } else {
            kept(frac, s.skip(a + 1))
        },
{
    assert(s.skip(a)[0] == s[a]);
    assert(s.skip(a).drop_first() =~= s.skip(a + 1));
}

/// Every member of what is kept of `s` is a member of `s` that is worth
/// scoring.
pub proof fn lemma_kept_members(frac: nat, s: Seq<Seq<nat>>, i: int) -> (j: int)
    requires
        0 <= i < kept(frac, s).len(),
    ensures
        0 <= j < s.len(),
        s[j] == kept(frac, s)[i],
        keeps(frac, s[j]),
    decreases s.len(),
{
    if keeps(frac, s[0]) {
        if i == 0 {
            0
        } else {
            lemma_kept_members(frac, s.drop_first(), i - 1) + 1
        }
    } else {
        lemma_kept_members(frac, s.drop_first(), i) + 1
    }
}

/// Of two members of what is kept of `s`, the earlier one stands earlier in
/// `s` too. The places in `s` are returned.
pub proof fn lemma_kept_order(frac: nat, s: Seq<Seq<nat>>, i: int, j: int) -> (at: (int, int))
    requires
        0 <= i < j < kept(frac, s).len(),
    ensures
        0 <= at.0 < at.1 < s.len(),
        s[at.0] == kept(frac, s)[i],
        s[at.1] == kept(frac, s)[j],
    decreases s.len(),
{
    if keeps(frac, s[0]) {
        if i == 0 {
            let b = lemma_kept_members(frac, s.drop_first(), j - 1);
            (0, b + 1)
        } else {
            let (a, b) = lemma_kept_order(frac, s.drop_first(), i - 1, j - 1);
            (a + 1, b + 1)
        }
    } else {
        let (a, b) = lemma_kept_order(frac, s.drop_first(), i, j);
        (a + 1, b + 1)
    }
}

/// A member of `s` that is worth scoring is a member of what is kept of `s`,
/// at the place that is returned.
pub proof fn lemma_kept_complete(frac: nat, s: Seq<Seq<nat>>, j: int) -> (i: int)
    requires
        0 <= j < s.len(),
        keeps(frac, s[j]),
    ensures
        0 <= i < kept(frac, s).len(),
        kept(frac, s)[i] == s[j],
    decreases s.len(),
{
    if j == 0 {
        0
    } else {
        let i = lemma_kept_complete(frac, s.drop_first(), j - 1);
        if keeps(frac, s[0]) {
            i + 1
        } else {
            i
        }
    }
}

/// What is kept of two lists, one after the other, is what is kept of the
/// first and then what is kept of the second.
pub proof fn lemma_kept_concat(frac: nat, a: Seq<Seq<nat>>, b: Seq<Seq<nat>>)
    ensures
        kept(frac, a + b) == kept(frac, a) + kept(frac, b),
    decreases a.len(),
{
    if a.len() == 0 {
        assert(a + b =~= b);
    } else {
        assert((a + b).drop_first() =~= a.drop_first() + b);
        lemma_kept_concat(frac, a.drop_first(), b);
    }
}

/// Where every member of `s` is worth scoring, all of `s` is kept.
pub proof fn lemma_kept_all(frac: nat, s: Seq<Seq<nat>>)
    requires
        forall|i: int| 0 <= i < s.len() ==> keeps(frac, #[trigger] s[i]),
    ensures
        kept(frac, s) == s,
    decreases s.len(),
{
    if s.len() > 0 {
        assert forall|i: int| 0 <= i < s.drop_first().len() implies keeps(
            frac,
            #[trigger] s.drop_first()[i],
        ) by {
            assert(s.drop_first()[i] == s[i + 1]);
        }
        lemma_kept_all(frac, s.drop_first());
        assert(seq![s[0]] + s.drop_first() =~= s);
    }
}

/// In a rising sequence, the number at `j` is above the number at `i` by at
/// least `j - i`.
pub proof fn lemma_rising_gap(c: Seq<nat>, i: int, j: int)
    requires
        forall|a: int, b: int| 0 <= a < b < c.len() ==> c[a] < c[b],
        0 <= i <= j < c.len(),
    ensures
        c[j] >= c[i] + (j - i),
    decreases j - i,
{
    if i < j {
        lemma_rising_gap(c, i, j - 1);
    }
}

/// Where every number of `cur` after position `u` is as large as a
/// combination allows, a combination that comes after `cur` rises above it at
/// `u` or before.
pub proof fn lemma_rise_position(cur: Seq<nat>, x: Seq<nat>, limit: nat, num: nat, u: int) -> (d: int)
    requires
        cur.len() == num,
        -1 <= u < num,
        is_combo(x, 1, limit, num),
        forall|j: int| u < j < num ==> #[trigger] cur[j] >= limit - num + j,
        lex_lt(cur, x),
    ensures
        0 <= d <= u,
        rises_at(cur, x, d),
{
    let d = choose|d: int| rises_at(cur, x, d);
    lemma_combo_bounds(x, 1, limit, num, d);
    d
}

/// The step of the odometer passes over nothing but what it means to pass
/// over. `cur` is the state before, with every number after position `u` as
/// large as a combination allows; `nxt` is the state after, which keeps the
/// numbers before `u`, raises the one at `u` to `w`, and counts up from there.
/// A combination between the two agrees with `cur` before `u` and has at `u` a
/// number between the old one and `w`.
pub proof fn lemma_between(
    cur: Seq<nat>,
    nxt: Seq<nat>,
    x: Seq<nat>,
    limit: nat,
    num: nat,
    u: int,
    w: nat,
)
    requires
        cur.len() == num,
        nxt.len() == num,
        0 <= u < num,
        is_combo(x, 1, limit, num),
        forall|j: int| u < j < num ==> #[trigger] cur[j] >= limit - num + j,
        forall|i: int| 0 <= i < u ==> nxt[i] == cur[i],
        forall|i: int| u <= i < num ==> #[trigger] nxt[i] == w + (i - u),
        lex_lt(cur, x),
        lex_lt(x, nxt),
    ensures
        forall|i: int| 0 <= i < u ==> x[i] == cur[i],
        cur[u] < x[u] < w,
{
    let d = lemma_rise_position(cur, x, limit, num, u);
    if d < u {
        assert(rises_at(nxt, x, d));
        lemma_lex_asymmetric(nxt, x);
    } else if x[u] >= w {
        assert forall|i: int| u <= i < num implies x[i] >= nxt[i] by {
            lemma_rising_gap(x, u, i);
        }
        lemma_lex_not_below(x, nxt, u);
    }
}

/// What makes a candidate: a set of denominations is among the candidates of
/// a search exactly if it holds `num` numbers from 1 up to `top * frac - 1`
/// that rise strictly, its smallest member is allowed, and it uses the
/// fraction in full.
pub proof fn lemma_candidates_are(top: nat, frac: nat, num: nat, c: Seq<nat>)
    ensures
        candidates(top, frac, num).contains(c) <==> {
            &&& num >= 1
            &&& is_combo(c, 1, top * frac, num)
            &&& keeps(frac, c)
        },
{
    let all = combos(1, top * frac, num);
    let list = candidates(top, frac, num);
    if list.contains(c) {
        let i = choose|i: int| 0 <= i < list.len() && list[i] == c;
        let j = lemma_kept_members(frac, all, i);
        lemma_combos_members(1, top * frac, num, j);
    }
    if num >= 1 && is_combo(c, 1, top * frac, num) && keeps(frac, c) {
        assert(1 <= c[0] < top * frac);
        lemma_combo_bounds(c, 1, top * frac, num, 0);
        assert(top != 0 && frac != 0) by (nonlinear_arith)
            requires
                top * frac > 0,
        ;
        let j = lemma_combos_complete(c, 1, top * frac, num);
        let i = lemma_kept_complete(frac, all, j);
        assert(list[i] == c);
    }
}

/// The candidates of a search stand in strictly rising lexicographic order,
/// so none comes twice.
pub proof fn lemma_candidates_sorted(top: nat, frac: nat, num: nat, i: int, j: int)
    requires
        0 <= i < j < candidates(top, frac, num).len(),
    ensures
        lex_lt(candidates(top, frac, num)[i], candidates(top, frac, num)[j]),
{
    let all = combos(1, top * frac, num);
    let (a, b) = lemma_kept_order(frac, all, i, j);
    lemma_combos_sorted(1, top * frac, num, a, b);
}

/// Without fractions, a search for `num` denominations below `top` has
/// `binomial(top - 2, num - 1)` candidates: the smallest denomination is 1,
/// and the others are any `num - 1` of the `top - 2` numbers from 2 up to
/// `top - 1`. There is none where `top` is at most 1 or `num` is 0.
pub proof fn lemma_whole_units_count(top: nat, num: nat)
    ensures
        candidates(top, 1, num).len() == if top > 1 && num >= 1 {
            binomial((top - 2) as nat, (num - 1) as nat)
        } else {
            0
        },
{
    if num == 0 || top == 0 {
    } else if top == 1 {
        assert(top * 1 == 1) by (nonlinear_arith)
            requires
                top == 1,
        ;
        if num == 1 {
            assert(combos(1, 1, 1).len() == 0);
        }
    } else {
        assert(top * 1 == top) by (nonlinear_arith);
        lemma_combos_len(2, top, (num - 1) as nat);
        if num > top {
            lemma_binomial_none((top - 2) as nat, (num - 1) as nat);
        } else {
            let heads = prepend_all(1, combos(2, top, (num - 1) as nat));
            let tails = combos(2, top, num);
            assert(combos(1, top, num) == heads + tails);
            lemma_kept_concat(1, heads, tails);
            assert forall|i: int| 0 <= i < heads.len() implies keeps(1, #[trigger] heads[i]) by {
                assert(heads[i][0] == 1);
            }
            lemma_kept_all(1, heads);
            assert forall|i: int| 0 <= i < tails.len() implies !keeps(1, #[trigger] tails[i]) by {
                lemma_combos_members(2, top, num, i);
                assert(tails[i][0] >= 2);
            }
            lemma_kept_skips(1, tails, 0, tails.len() as int);
            assert(tails.skip(0) =~= tails);
        }
    }
}

/// Enumerating a search again gives the same sets of denominations in the
/// same order: two lists that each hold the candidates of `spec` are equal,
/// set by set.
pub proof fn lemma_enumerate_again(spec: Spec, a: Seq<Vec<usize>>, b: Seq<Vec<usize>>)
    requires
        rows(a) == candidates(spec.top as nat, spec.frac as nat, spec.num as nat),
        rows(b) == candidates(spec.top as nat, spec.frac as nat, spec.num as nat),
    ensures
        a.len() == b.len(),
        forall|i: int| 0 <= i < a.len() ==> (#[trigger] a[i])@ == b[i]@,
{
    assert(rows(a).len() == a.len());
    assert(rows(b).len() == b.len());
    assert forall|i: int| 0 <= i < a.len() implies (#[trigger] a[i])@ == b[i]@ by {
        let x = a[i]@;
        let y = b[i]@;
        assert(nats(x) == rows(a)[i]);
        assert(nats(y) == rows(b)[i]);
        assert(x.len() == nats(x).len() == y.len());
        assert forall|j: int| 0 <= j < x.len() implies x[j] == y[j] by {
            assert(nats(x)[j] == x[j] as nat);
            assert(nats(y)[j] == y[j] as nat);
        }
        assert(x =~= y);
    }
}

/// A place in the list of candidates of one search. `next` hands out the
/// candidate at that place and moves on.
#[derive(Debug)]
pub struct Candidates {
    frac: usize,
    limit: usize,
    num: usize,
    /// The combination handed out last: the odometer. Before the first one
    /// its first number is 0 and the others are as large as they can be.
    cs: Vec<usize>,
    /// Whether anything may be left.
    live: bool,
}

impl Candidates {
    /// The state is one that `enumerate` and `next` produce.
    pub closed spec fn wf(&self) -> bool {
        self.live ==> {
            &&& self.frac >= 1
            &&& 1 <= self.num <= self.limit
            &&& self.cs@.len() == self.num
            &&& forall|i: int, j: int| 0 <= i < j < self.num ==> self.cs@[i] < self.cs@[j]
            &&& forall|i: int| 0 <= i < self.num ==> #[trigger] self.cs@[i] <= self.limit - self.num + i
            &&& self.cs@[0] == 0 ==> forall|i: int|
                1 <= i < self.num ==> #[trigger] self.cs@[i] == self.limit - self.num + i
            &&& self.cs@[0] != 0 ==> first_allowed(self.frac as nat, self.cs@[0] as nat)
        }
    }

    /// All combinations that the odometer runs through.
    closed spec fn all(&self) -> Seq<Seq<nat>> {
        combos(1, self.limit as nat, self.num as nat)
    }

    /// How many members of `all` the odometer has behind it.
    closed spec fn behind(&self) -> int {
        if self.cs@[0] == 0 {
            0
        } else {
            (choose|i: int| 0 <= i < self.all().len() && self.all()[i] == nats(self.cs@)) + 1
        }
    }

    /// The candidates that are still to come, in the order in which `next`
    /// hands them out.
    pub closed spec fn remaining(&self) -> Seq<Seq<nat>> {
        if self.live {
            kept(self.frac as nat, self.all().skip(self.behind()))
        } else {
            Seq::<Seq<nat>>::empty()
        }
    }

    /// Where the odometer stands on a combination, `behind` is one more than
    /// that combination's place in `all`.
    proof fn lemma_behind(&self)
        requires
            self.wf(),
            self.live,
        ensures
            0 <= self.behind() <= self.all().len(),
            self.cs@[0] != 0 ==> self.behind() >= 1 && self.all()[self.behind() - 1] == nats(self.cs@),
            forall|i: int|
                self.behind() <= i < self.all().len() ==> lex_lt(
                    nats(self.cs@),
                    #[trigger] self.all()[i],
                ),
    {
        let cur = nats(self.cs@);
        let limit = self.limit as nat;
        let num = self.num as nat;
        if self.cs@[0] != 0 {
            assert forall|i: int| 0 <= i < cur.len() implies 1 <= #[trigger] cur[i] < limit by {
                assert(self.cs@[i] <= self.limit - self.num + i);
                if i > 0 {
                    assert(self.cs@[0] < self.cs@[i]);
                }
            }
            let at = lemma_combos_complete(cur, 1, limit, num);
            let b = self.behind() - 1;
            assert(0 <= b < self.all().len() && self.all()[b] == cur);
            assert forall|i: int| self.behind() <= i < self.all().len() implies lex_lt(
                cur,
                #[trigger] self.all()[i],
            ) by {
                lemma_combos_sorted(1, limit, num, b, i);
            }
        } else {
            assert forall|i: int| 0 <= i < self.all().len() implies lex_lt(
                cur,
                #[trigger] self.all()[i],
            ) by {
                lemma_combos_members(1, limit, num, i);
                assert(rises_at(cur, self.all()[i], 0));
            }
        }
    }

    /// Nothing is left where no member of `all` that is still ahead is worth
    /// scoring.
    proof fn lemma_nothing_left(&self)
        requires
            self.wf(),
            self.live,
            forall|i: int|
                self.behind() <= i < self.all().len() ==> !keeps(
                    self.frac as nat,
                    #[trigger] self.all()[i],
                ),
        ensures
            self.remaining().len() == 0,
    {
        self.lemma_behind();
        lemma_kept_skips(self.frac as nat, self.all(), self.behind(), self.all().len() as int);
    }

    /// The next candidate, or `None` when there is none left.
    pub fn next(&mut self) -> (r: Option<Vec<usize>>)
        requires
            old(self).wf(),
        ensures
            final(self).wf(),
            match r {
                Some(c) => {
                    &&& old(self).remaining().len() > 0
                    &&& nats(c@) == old(self).remaining()[0]
                    &&& final(self).remaining() == old(self).remaining().drop_first()
                },
                None => old(self).remaining().len() == 0 && final(self).remaining().len() == 0,
            },
    {
        loop
            invariant
                self.wf(),
                self.remaining() == old(self).remaining(),
                self.frac == old(self).frac,
                self.limit == old(self).limit,
                self.num == old(self).num,
            decreases
                if self.live {
                    self.all().len() - self.behind() + 1
                } else {
                    0
                },
        {
            if !self.live {
                return None;
            }
            proof {
                self.lemma_behind();
            }
            let ghost before = *self;
            let ghost cur = nats(self.cs@);
            let ghost limit = self.limit as nat;
            let ghost num = self.num as nat;
            let ghost frac = self.frac as nat;
            let room: usize = self.limit - self.num;
            // The rightmost number that can still be raised.
            let mut upi: usize = self.num - 1;
            let mut found: bool = false;
            loop
                invariant_except_break
                    !found,
                invariant
                    *self == before,
                    self.wf(),
                    self.live,
                    room == self.limit - self.num,
                    0 <= upi < self.num,
                    forall|j: int| upi < j < self.num ==> #[trigger] self.cs@[j] >= room + j,
                ensures
                    found ==> self.cs@[upi as int] < room + upi,
                    !found ==> upi == 0 && self.cs@[0] >= room,
                decreases upi,
            {
                if self.cs[upi] < room + upi {
                    found = true;
                    break;
                }
                if upi == 0 {
                    break;
                }
                upi -= 1;
            }
            if !found {
                proof {
                    assert forall|i: int| self.behind() <= i < self.all().len() implies !keeps(
                        frac,
                        #[trigger] self.all()[i],
                    ) by {
                        lemma_combos_members(1, limit, num, i);
                        lemma_rise_position(cur, self.all()[i], limit, num, -1);
                    }
                    self.lemma_nothing_left();
                }
                self.live = false;
                return None;
            }
            let v: usize = self.cs[upi] + 1;
            let mut w: usize = v;
            if upi == 0 {
                // The smallest denomination must be able to make one subunit
                // with the others: above half a main unit it can only as the
                // main unit itself, which must leave room for the others.
                if v > self.frac || (v > self.frac / 2 && self.frac > room) {
                    proof {
                        assert forall|i: int| self.behind() <= i < self.all().len() implies !keeps(
                            frac,
                            #[trigger] self.all()[i],
                        ) by {
                            let x = self.all()[i];
                            lemma_combos_members(1, limit, num, i);
                            lemma_rise_position(cur, x, limit, num, 0);
                            lemma_combo_bounds(x, 1, limit, num, 0);
                        }
                        self.lemma_nothing_left();
                    }
                    self.live = false;
                    return None;
                }
                if v > self.frac / 2 {
                    w = self.frac;
                }
            }
            self.cs.set(upi, w);
            let mut i: usize = upi + 1;
            while i < self.num
                invariant
                    self.frac == before.frac,
                    self.limit == before.limit,
                    self.num == before.num,
                    self.live,
                    before.wf(),
                    before.live,
                    room == self.limit - self.num,
                    0 <= upi < i <= self.num,
                    self.cs@.len() == self.num,
                    w <= room + upi,
                    forall|j: int| 0 <= j < upi ==> self.cs@[j] == before.cs@[j],
                    forall|j: int| upi <= j < i ==> #[trigger] self.cs@[j] == w + (j - upi),
                decreases self.num - i,
            {
                let p: usize = self.cs[i - 1];
                self.cs.set(i, p + 1);
                i += 1;
            }
            proof {
                let nxt = nats(self.cs@);
                assert(before.cs@[upi as int] < w);
                assert forall|a: int, b: int| 0 <= a < b < self.num implies self.cs@[a]
                    < self.cs@[b] by {
                    if b < upi {
                        assert(before.cs@[a] < before.cs@[b]);
                    } else if a < upi {
                        assert(before.cs@[a] < before.cs@[upi as int]);
                    }
                }
                assert(self.cs@[0] != 0) by {
                    if upi > 0 {
                        if before.cs@[0] == 0 {
                            assert(before.cs@[upi as int] == room + upi);
                        }
                    }
                }
                assert(first_allowed(frac, self.cs@[0] as nat));
                assert forall|a: int| 0 <= a < self.num implies #[trigger] self.cs@[a] <= self.limit
                    - self.num + a by {
                    if a < upi {
                        assert(before.cs@[a] <= before.limit - before.num + a);
                    } else {
                        assert(self.cs@[a] == w + (a - upi));
                    }
                }
                assert(self.wf());
                assert forall|a: int| 0 <= a < nxt.len() implies 1 <= #[trigger] nxt[a] < limit by {
                    assert(self.cs@[a] <= self.limit - self.num + a);
                    if a > 0 {
                        assert(self.cs@[0] < self.cs@[a]);
                    }
                }
                let at = lemma_combos_complete(nxt, 1, limit, num);
                self.lemma_behind();
                assert(self.all() == before.all());
                assert(rises_at(cur, nxt, upi as int));
                if before.cs@[0] != 0 {
                    lemma_combos_order(1, limit, num, before.behind() - 1, at);
                }
                lemma_lex_asymmetric(nxt, nxt);
                if self.behind() - 1 < at {
                    lemma_combos_sorted(1, limit, num, self.behind() - 1, at);
                } else if at < self.behind() - 1 {
                    lemma_combos_sorted(1, limit, num, at, self.behind() - 1);
                }
                assert(self.behind() == at + 1);
                assert forall|k: int| before.behind() <= k < at implies !keeps(
                    frac,
                    #[trigger] self.all()[k],
                ) by {
                    let x = self.all()[k];
                    lemma_combos_members(1, limit, num, k);
                    lemma_combos_sorted(1, limit, num, k, at);
                    lemma_between(cur, nxt, x, limit, num, upi as int, w as nat);
                }
                lemma_kept_skips(frac, self.all(), before.behind(), at);
                lemma_kept_step(frac, self.all(), at);
            }
            if is_nontrivial(self.frac, &self.cs) {
                let c = self.cs.clone();
                proof {
                    assert(nats(c@) =~= nats(self.cs@));
                    assert(before.remaining() =~= seq![nats(self.cs@)] + self.remaining());
                    assert(self.remaining() =~= before.remaining().drop_first());
                }
                return Some(c);
            }
        }
    }

    /// The number of candidates that are left, as far as a `usize` can hold
    /// it.
    pub fn count(self) -> (n: usize)
        requires
            self.wf(),
        ensures
            n == clip(self.remaining().len() as int),
    {
        let mut it = self;
        let mut n: usize = 0;
        loop
            invariant
                it.wf(),
                it.remaining().len() <= self.remaining().len(),
                n == clip(self.remaining().len() - it.remaining().len()),
            decreases it.remaining().len(),
        {
            match it.next() {
                Some(_) => {
                    n = n.saturating_add(1);
                },
                None => {
                    return n;
                },
            }
        }
    }

    /// The candidates that are left, in order.
    pub fn into_vec(self) -> (v: Vec<Vec<usize>>)
        requires
            self.wf(),
        ensures
            rows(v@) == self.remaining(),
    {
        let mut it = self;
        let mut v: Vec<Vec<usize>> = Vec::new();
        loop
            invariant
                it.wf(),
                rows(v@) + it.remaining() == self.remaining(),
            decreases it.remaining().len(),
        {
            let ghost rest = it.remaining();
            match it.next() {
                Some(c) => {
                    proof {
                        assert(rows(v@.push(c)) =~= rows(v@).push(nats(c@)));
                        assert(rows(v@).push(rest[0]) + rest.drop_first() =~= rows(v@) + rest);
                    }
                    v.push(c);
                },
                None => {
                    proof {
                        assert(rows(v@) + rest =~= rows(v@));
                    }
                    return v;
                },
            }
        }
    }
}

/// The candidates of the search `spec`, from the first one on.
pub fn enumerate(spec: &Spec) -> (it: Candidates)
    requires
        spec.top * spec.frac <= usize::MAX,
    ensures
        it.wf(),
        it.remaining() == candidates(spec.top as nat, spec.frac as nat, spec.num as nat),
{
    let num: usize = spec.num;
    let frac: usize = spec.frac;
    let limit: usize = spec.top * spec.frac;
    let bad = num == 0 || spec.top == 0 || frac == 0 || num > limit;
    let mut cs: Vec<usize> = Vec::new();
    if !bad {
        cs.push(0);
        let mut i: usize = 1;
        while i < num
            invariant
                1 <= i <= num <= limit,
                cs@.len() == i,
                cs@[0] == 0,
                forall|j: int| 1 <= j < i ==> #[trigger] cs@[j] == limit - num + j,
            decreases num - i,
        {
            cs.push(limit - num + i);
            i += 1;
        }
    }
    let it = Candidates { frac, limit, num, cs, live: !bad };
    proof {
        if !bad {
            assert(it.all().skip(0) =~= it.all());
        }
    }
    it
}

} // verus!
