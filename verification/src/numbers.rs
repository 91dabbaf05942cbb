//! Divisibility and greatest common divisors, and how the numbers of the
//! machine stand for natural numbers.

use vstd::prelude::*;

verus! {

/// `d` divides `n`. Zero divides only zero.
pub open spec fn divides(d: nat, n: nat) -> bool {
    if d == 0 {
        n == 0
    } else {
        n % d == 0
    }
}

/// `g` is the greatest common divisor of `a` and `b`: it divides both, and
/// every number that divides both divides `g`.
pub open spec fn is_gcd(g: nat, a: nat, b: nat) -> bool {
    &&& divides(g, a)
    &&& divides(g, b)
    &&& forall|d: nat| divides(d, a) && divides(d, b) ==> #[trigger] divides(d, g)
}

/// The greatest common divisor of `a` and `b`, by Euclid's recurrence.
/// `gcd_of(0, 0)` is 0.
pub open spec fn gcd_of(a: nat, b: nat) -> nat
    decreases b,
{
    if b == 0 {
        a
    } else {
        gcd_of(b, a % b)
    }
}

/// A common divisor of `b` and `a % b` divides `a`, and a common divisor of
/// `a` and `b` divides `a % b`.
pub proof fn lemma_divides_remainder(d: nat, a: nat, b: nat)
    requires
        b > 0,
        divides(d, b),
    ensures
        divides(d, a) <==> divides(d, a % b),
{
    if d > 0 {
        let q = a / b;
        let r = a % b;
        let k = b / d;
        assert(a == b * q + r) by {
            vstd::arithmetic::div_mod::lemma_fundamental_div_mod(a as int, b as int);
        }
        assert(b == d * k) by {
            vstd::arithmetic::div_mod::lemma_fundamental_div_mod(b as int, d as int);
        }
        assert(b * q == d * (k * q)) by (nonlinear_arith)
            requires
                b == d * k,
        ;
        assert((d * (k * q)) % d == 0) by {
            vstd::arithmetic::div_mod::lemma_mod_multiples_basic((k * q) as int, d as int);
            assert(d * (k * q) == (k * q) * d) by (nonlinear_arith);
        }
        if r % d == 0 {
            vstd::arithmetic::div_mod::lemma_add_mod_noop((b * q) as int, r as int, d as int);
        }
        if a % d == 0 {
            vstd::arithmetic::div_mod::lemma_sub_mod_noop(a as int, (b * q) as int, d as int);
            assert(a - b * q == r);
        }
    } else {
        assert(b == 0);
    }
}

/// Euclid's recurrence computes the greatest common divisor.
pub proof fn lemma_gcd_of_is_gcd(a: nat, b: nat)
    ensures
        is_gcd(gcd_of(a, b), a, b),
    decreases b,
{
    let g = gcd_of(a, b);
    if b == 0 {
        assert(divides(g, b));
        if a > 0 {
            assert(a % a == 0) by {
                vstd::arithmetic::div_mod::lemma_mod_self_0(a as int);
            }
        }
    } else {
        lemma_gcd_of_is_gcd(b, a % b);
        lemma_divides_remainder(g, a, b);
        assert forall|d: nat| divides(d, a) && divides(d, b) implies #[trigger] divides(d, g) by {
            lemma_divides_remainder(d, a, b);
        }
    }
}

/// The greatest common divisor of two numbers that are not both 0 is not 0.
pub proof fn lemma_gcd_of_positive(a: nat, b: nat)
    requires
        a > 0 || b > 0,
    ensures
        gcd_of(a, b) > 0,
    decreases b,
{
    if b > 0 {
        lemma_gcd_of_positive(b, a % b);
    }
}

/// What divides a divisor of `n` divides `n`.
pub proof fn lemma_divides_transitive(a: nat, b: nat, n: nat)
    requires
        divides(a, b),
        divides(b, n),
    ensures
        divides(a, n),
{
    if a > 0 && b > 0 {
        let k = b / a;
        let m = n / b;
        vstd::arithmetic::div_mod::lemma_fundamental_div_mod(b as int, a as int);
        vstd::arithmetic::div_mod::lemma_fundamental_div_mod(n as int, b as int);
        assert(n == (k * m) * a) by (nonlinear_arith)
            requires
                b == a * k,
                n == b * m,
        ;
        vstd::arithmetic::div_mod::lemma_mod_multiples_basic((k * m) as int, a as int);
    }
}

/// A divisor of a number that is not 0 is at most that number.
pub proof fn lemma_divisor_at_most(d: nat, n: nat)
    requires
        divides(d, n),
        n > 0,
    ensures
        1 <= d <= n,
{
    if d > n {
        vstd::arithmetic::div_mod::lemma_small_mod(n, d);
    }
}

/// Two numbers have one greatest common divisor only.
pub proof fn lemma_gcd_unique(g: nat, h: nat, a: nat, b: nat)
    requires
        is_gcd(g, a, b),
        is_gcd(h, a, b),
    ensures
        g == h,
{
    assert(divides(g, h));
    assert(divides(h, g));
    if g > 0 {
        lemma_divisor_at_most(h, g);
        lemma_divisor_at_most(g, h);
    }
}

/// The greatest common divisor of `a` and `b`.
pub fn gcd(a: usize, b: usize) -> (g: usize)
    ensures
        g == gcd_of(a as nat, b as nat),
        is_gcd(g as nat, a as nat, b as nat),
{
    let mut x: usize = a;
    let mut y: usize = b;
    while y != 0
        invariant
            gcd_of(x as nat, y as nat) == gcd_of(a as nat, b as nat),
        decreases y,
    {
        let r: usize = x % y;
        x = y;
        y = r;
    }
    proof {
        lemma_gcd_of_is_gcd(a as nat, b as nat);
    }
    x
}

/// `x` as far as a `usize` can hold it: `usize::MAX` where `x` is larger.
pub open spec fn clip(x: int) -> usize {
    if x >= usize::MAX {
        usize::MAX
    } else if x < 0 {
        0
    } else {
        x as usize
    }
}

/// The numbers of `s` as natural numbers.
pub open spec fn nats(s: Seq<usize>) -> Seq<nat> {
    Seq::new(s.len(), |i: int| s[i] as nat)
}

/// Each row of `v` as natural numbers.
pub open spec fn rows(v: Seq<Vec<usize>>) -> Seq<Seq<nat>> {
    Seq::new(v.len(), |i: int| nats(v[i]@))
}

} // verus!
