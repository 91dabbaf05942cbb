//! Strictly rising sequences of a given length over a range of numbers, and
//! the list of all of them in lexicographic order.

use vstd::prelude::*;

verus! {

/// `c` holds `k` numbers from `lo..hi`, each larger than the one before it.
pub open spec fn is_combo(c: Seq<nat>, lo: nat, hi: nat, k: nat) -> bool {
    &&& c.len() == k
    &&& forall|i: int| 0 <= i < c.len() ==> lo <= #[trigger] c[i] < hi
    &&& forall|i: int, j: int| 0 <= i < j < c.len() ==> c[i] < c[j]
}

/// `a` and `b` agree before position `k`, where `a` is smaller.
pub open spec fn rises_at(a: Seq<nat>, b: Seq<nat>, k: int) -> bool {
    &&& 0 <= k < a.len()
    &&& k < b.len()
    &&& a[k] < b[k]
    &&& forall|i: int| 0 <= i < k ==> a[i] == b[i]
}

/// `a` comes before `b` in lexicographic order, by a position where they
/// differ.
pub open spec fn lex_lt(a: Seq<nat>, b: Seq<nat>) -> bool {
    exists|k: int| rises_at(a, b, k)
}

/// Each sequence of `s` with `d` put in front of it.
pub open spec fn prepend_all(d: nat, s: Seq<Seq<nat>>) -> Seq<Seq<nat>> {
    Seq::new(s.len(), |i: int| seq![d] + s[i])
}

/// All strictly rising sequences of `k` numbers from `lo..hi`, in
/// lexicographic order: first those that start with `lo`, then the others.
pub open spec fn combos(lo: nat, hi: nat, k: nat) -> Seq<Seq<nat>>
    decreases k, hi - lo,
{
    if k == 0 {
        seq![Seq::<nat>::empty()]
    } else if lo >= hi {
        Seq::<Seq<nat>>::empty()
    } else {
        prepend_all(lo, combos(lo + 1, hi, (k - 1) as nat)) + combos(lo + 1, hi, k)
    }
}

/// The number of ways to pick `k` things out of `n`, by Pascal's rule.
pub open spec fn binomial(n: nat, k: nat) -> nat
    decreases n,
{
    if k == 0 {
        1
    } else if n == 0 {
        0
    } else {
        binomial((n - 1) as nat, (k - 1) as nat) + binomial((n - 1) as nat, k)
    }
}

/// No sequence comes before itself, and of two sequences at most one comes
/// before the other.
pub proof fn lemma_lex_asymmetric(a: Seq<nat>, b: Seq<nat>)
    ensures
        !(lex_lt(a, b) && lex_lt(b, a)),
        !lex_lt(a, a),
{
    if lex_lt(a, b) && lex_lt(b, a) {
        let k1 = choose|k: int| rises_at(a, b, k);
        let k2 = choose|k: int| rises_at(b, a, k);
        assert(k1 != k2);
        if k1 < k2 {
            assert(b[k1] == a[k1]);
        } else {
            assert(a[k2] == b[k2]);
        }
    }
    if lex_lt(a, a) {
        let k = choose|k: int| rises_at(a, a, k);
        assert(a[k] < a[k]);
    }
}

/// A sequence that agrees with `b` before position `u` and is nowhere smaller
/// from there on does not come before `b`.
pub proof fn lemma_lex_not_below(a: Seq<nat>, b: Seq<nat>, u: int)
    requires
        a.len() == b.len(),
        0 <= u <= a.len(),
        forall|i: int| 0 <= i < u ==> a[i] == b[i],
        forall|i: int| u <= i < a.len() ==> a[i] >= b[i],
    ensures
        !lex_lt(a, b),
{
    if lex_lt(a, b) {
        let k = choose|k: int| rises_at(a, b, k);
        assert(a[k] < b[k]);
    }
}

/// The `j`-th number of a combination is at least `lo + j` and at most
/// `hi - k + j`.
pub proof fn lemma_combo_bounds(c: Seq<nat>, lo: nat, hi: nat, k: nat, j: int)
    requires
        is_combo(c, lo, hi, k),
        0 <= j < k,
    ensures
        lo + j <= c[j] <= hi - k + j,
    decreases k - j, j,
{
    if j > 0 {
        lemma_combo_lower(c, lo, hi, k, j);
    }
    if j < k - 1 {
        lemma_combo_bounds(c, lo, hi, k, j + 1);
    }
}

/// The `j`-th number of a combination is at least `lo + j`.
pub proof fn lemma_combo_lower(c: Seq<nat>, lo: nat, hi: nat, k: nat, j: int)
    requires
        is_combo(c, lo, hi, k),
        0 <= j < k,
    ensures
        lo + j <= c[j],
    decreases j,
{
    if j > 0 {
        lemma_combo_lower(c, lo, hi, k, j - 1);
    }
}

/// Every member of `combos(lo, hi, k)` is a combination of `k` numbers from
/// `lo..hi`.
pub proof fn lemma_combos_members(lo: nat, hi: nat, k: nat, i: int)
    requires
        0 <= i < combos(lo, hi, k).len(),
    ensures
        is_combo(combos(lo, hi, k)[i], lo, hi, k),
    decreases k, hi - lo,
{
    if k == 0 {
    } else if lo >= hi {
    } else {
        let heads = combos(lo + 1, hi, (k - 1) as nat);
        let tails = combos(lo + 1, hi, k);
        let c = combos(lo, hi, k)[i];
        if i < heads.len() {
            lemma_combos_members(lo + 1, hi, (k - 1) as nat, i);
            let t = heads[i];
            assert(c == seq![lo] + t);
            assert forall|a: int| 0 <= a < c.len() implies lo <= #[trigger] c[a] < hi by {
                if a > 0 {
                    assert(c[a] == t[a - 1]);
                }
            }
            assert forall|a: int, b: int| 0 <= a < b < c.len() implies c[a] < c[b] by {
                assert(c[b] == t[b - 1]);
                if a > 0 {
                    assert(c[a] == t[a - 1]);
                }
            }
        } else {
            lemma_combos_members(lo + 1, hi, k, i - heads.len());
            assert(c == tails[i - heads.len()]);
        }
    }
}

/// Every combination of `k` numbers from `lo..hi` is a member of
/// `combos(lo, hi, k)`, at the position that is returned.
pub proof fn lemma_combos_complete(c: Seq<nat>, lo: nat, hi: nat, k: nat) -> (i: int)
    requires
        is_combo(c, lo, hi, k),
    ensures
        0 <= i < combos(lo, hi, k).len(),
        combos(lo, hi, k)[i] == c,
    decreases k, hi - lo,
{
    if k == 0 {
        assert(c =~= Seq::<nat>::empty());
        0
    } else {
        assert(lo <= c[0] < hi);
        let heads = combos(lo + 1, hi, (k - 1) as nat);
        if c[0] == lo {
            let t = c.drop_first();
            assert forall|a: int| 0 <= a < t.len() implies lo + 1 <= #[trigger] t[a] < hi by {
                assert(t[a] == c[a + 1]);
                assert(c[0] < c[a + 1]);
            }
            assert forall|a: int, b: int| 0 <= a < b < t.len() implies t[a] < t[b] by {
                assert(t[a] == c[a + 1] && t[b] == c[b + 1]);
            }
            let i = lemma_combos_complete(t, lo + 1, hi, (k - 1) as nat);
            assert(seq![lo] + t =~= c);
            i
        } else {
            assert forall|a: int| 0 <= a < c.len() implies lo + 1 <= #[trigger] c[a] < hi by {
                if a > 0 {
                    assert(c[0] < c[a]);
                }
            }
            let i = lemma_combos_complete(c, lo + 1, hi, k);
            heads.len() + i
        }
    }
}

/// `combos(lo, hi, k)` is in strictly rising lexicographic order.
pub proof fn lemma_combos_sorted(lo: nat, hi: nat, k: nat, i: int, j: int)
    requires
        0 <= i < j < combos(lo, hi, k).len(),
    ensures
        lex_lt(combos(lo, hi, k)[i], combos(lo, hi, k)[j]),
    decreases k, hi - lo,
{
    if k == 0 {
    } else if lo >= hi {
    } else {
        let heads = combos(lo + 1, hi, (k - 1) as nat);
        let tails = combos(lo + 1, hi, k);
        let a = combos(lo, hi, k)[i];
        let b = combos(lo, hi, k)[j];
        if j < heads.len() {
            lemma_combos_sorted(lo + 1, hi, (k - 1) as nat, i, j);
            let d = choose|d: int| rises_at(heads[i], heads[j], d);
            assert(a == seq![lo] + heads[i]);
            assert(b == seq![lo] + heads[j]);
            assert(rises_at(a, b, d + 1)) by {
                assert(a[d + 1] == heads[i][d]);
                assert(b[d + 1] == heads[j][d]);
                assert forall|x: int| 0 <= x < d + 1 implies a[x] == b[x] by {
                    if x > 0 {
                        assert(a[x] == heads[i][x - 1]);
                        assert(b[x] == heads[j][x - 1]);
                    }
                }
            }
        } else if i >= heads.len() {
            lemma_combos_sorted(lo + 1, hi, k, i - heads.len(), j - heads.len());
        } else {
            lemma_combos_members(lo + 1, hi, k, j - heads.len());
            assert(a == seq![lo] + heads[i]);
            assert(b == tails[j - heads.len()]);
            assert(lo + 1 <= b[0]);
            assert(rises_at(a, b, 0));
        }
    }
}

/// In `combos(lo, hi, k)` a member that comes before another in
/// lexicographic order stands before it.
pub proof fn lemma_combos_order(lo: nat, hi: nat, k: nat, i: int, j: int)
    requires
        0 <= i < combos(lo, hi, k).len(),
        0 <= j < combos(lo, hi, k).len(),
        lex_lt(combos(lo, hi, k)[i], combos(lo, hi, k)[j]),
    ensures
        i < j,
{
    let a = combos(lo, hi, k)[i];
    let b = combos(lo, hi, k)[j];
    lemma_lex_asymmetric(a, b);
    if j < i {
        lemma_combos_sorted(lo, hi, k, j, i);
    }
}

/// There is no way to pick more than `n` things out of `n`.
pub proof fn lemma_binomial_none(n: nat, k: nat)
    requires
        k > n,
    ensures
        binomial(n, k) == 0,
    decreases n,
{
    if n > 0 {
        lemma_binomial_none((n - 1) as nat, (k - 1) as nat);
        lemma_binomial_none((n - 1) as nat, k);
    }
}

/// There are `binomial(hi - lo, k)` combinations of `k` numbers from
/// `lo..hi`.
pub proof fn lemma_combos_len(lo: nat, hi: nat, k: nat)
    requires
        lo <= hi,
    ensures
        combos(lo, hi, k).len() == binomial((hi - lo) as nat, k),
    decreases k, hi - lo,
{
    if k == 0 {
    } else if lo >= hi {
    } else {
        lemma_combos_len(lo + 1, hi, (k - 1) as nat);
        lemma_combos_len(lo + 1, hi, k);
    }
}

} // verus!
