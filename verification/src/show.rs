//! Denominations as text: main units and fractions, each with its mark.

use crate::numbers::nats;
use vstd::prelude::*;
use vstd::string::*;

verus! {

/// The mark after a number of main units.
pub const MAIN_MARK: char = '¢';

/// The mark after a number of subunits.
pub const FRACTION_MARK: char = 'ᵼ';

/// The decimal digit for `d`, which is below 10.
pub open spec fn digit(d: nat) -> char {
    if d == 0 {
        '0'
    } else if d == 1 {
        '1'
    } else if d == 2 {
        '2'
    } else if d == 3 {
        '3'
    } else if d == 4 {
        '4'
    } else if d == 5 {
        '5'
    } else if d == 6 {
        '6'
    } else if d == 7 {
        '7'
    } else if d == 8 {
        '8'
    } else {
        '9'
    }
}

/// `n` in decimal, without leading zeros.
pub open spec fn decimal(n: nat) -> Seq<char>
    decreases n,
{
    if n < 10 {
        seq![digit(n)]
    } else {
        decimal(n / 10).push(digit(n % 10))
    }
}

/// The denomination `c` as text, where a main unit is `frac` subunits: the
/// whole main units with their mark, if there are any or `c` is 0, then the
/// subunits beyond them with theirs, if there are any.
pub open spec fn coin_text(frac: nat, c: nat) -> Seq<char> {
    let main = if c >= frac || c == 0 {
        decimal(c / frac).push(MAIN_MARK)
    } else {
        Seq::<char>::empty()
    };
    let part = if c % frac > 0 {
        decimal(c % frac).push(FRACTION_MARK)
    } else {
        Seq::<char>::empty()
    };
    main + part
}

/// The denominations `cs` as text, with a blank between each two.
pub open spec fn coins_text(frac: nat, cs: Seq<nat>) -> Seq<char>
    decreases cs.len(),
{
    if cs.len() == 0 {
        Seq::<char>::empty()
    } else if cs.len() == 1 {
        coin_text(frac, cs[0])
    } else {
        coins_text(frac, cs.drop_last()).push(' ') + coin_text(frac, cs.last())
    }
}

/// Nothing is shown as no main units, whatever the fraction: a 0 and the
/// mark of the main unit.
pub proof fn lemma_nothing_is_no_main_units(frac: nat)
    requires
        frac >= 1,
    ensures
        coin_text(frac, 0) == seq!['0', MAIN_MARK],
{
    assert(0nat / frac == 0 && 0nat % frac == 0) by (nonlinear_arith)
        requires
            frac >= 1,
    ;
    assert(coin_text(frac, 0) =~= seq!['0', MAIN_MARK]);
}

/// The digit `d` as text.
fn digit_text(d: usize) -> (s: &'static str)
    requires
        d < 10,
    ensures
        s@ == seq![digit(d as nat)],
{
    proof {
        reveal_strlit("0");
        reveal_strlit("1");
        reveal_strlit("2");
        reveal_strlit("3");
        reveal_strlit("4");
        reveal_strlit("5");
        reveal_strlit("6");
        reveal_strlit("7");
        reveal_strlit("8");
        reveal_strlit("9");
    }
    let s = if d == 0 {
        "0"
    } else if d == 1 {
        "1"
    } else if d == 2 {
        "2"
    } else if d == 3 {
        "3"
    } else if d == 4 {
        "4"
    } else if d == 5 {
        "5"
    } else if d == 6 {
        "6"
    } else if d == 7 {
        "7"
    } else if d == 8 {
        "8"
    } else {
        "9"
    };
    assert(s@ =~= seq![digit(d as nat)]);
    s
}

/// Appends `n` in decimal to `s`.
fn push_decimal(s: &mut String, n: usize)
    ensures
        final(s)@ == old(s)@ + decimal(n as nat),
{
    // The digits of `n`, the last one first.
    let mut digits: Vec<usize> = Vec::new();
    let mut rest: usize = n;
    while rest >= 10
        invariant
            forall|i: int| 0 <= i < digits@.len() ==> #[trigger] digits@[i] < 10,
            decimal(n as nat) == decimal(rest as nat) + Seq::new(
                digits@.len(),
                |i: int| digit(digits@[digits@.len() - 1 - i] as nat),
            ),
        decreases rest,
    {
        let ghost before = digits@;
        digits.push(rest % 10);
        proof {
            let tail_before = Seq::new(before.len(), |i: int| digit(before[before.len() - 1 - i] as nat));
            let tail = Seq::new(digits@.len(), |i: int| digit(digits@[digits@.len() - 1 - i] as nat));
            assert(tail =~= seq![digit((rest % 10) as nat)] + tail_before);
            assert(decimal(rest as nat) + tail_before =~= decimal((rest / 10) as nat) + tail);
        }
        rest = rest / 10;
    }
    let ghost tail = Seq::new(digits@.len(), |i: int| digit(digits@[digits@.len() - 1 - i] as nat));
    s.append(digit_text(rest));
    let mut k: usize = digits.len();
    while k > 0
        invariant
            0 <= k <= digits@.len(),
            forall|i: int| 0 <= i < digits@.len() ==> #[trigger] digits@[i] < 10,
            tail == Seq::new(digits@.len(), |i: int| digit(digits@[digits@.len() - 1 - i] as nat)),
            s@ == old(s)@ + decimal(rest as nat) + tail.take(digits@.len() - k),
        decreases k,
    {
        k -= 1;
        proof {
            assert(tail.take(digits@.len() - k) =~= tail.take(digits@.len() - k - 1).push(
                digit(digits@[k as int] as nat),
            ));
        }
        s.append(digit_text(digits[k]));
    }
    proof {
        assert(tail.take(digits@.len() as int) =~= tail);
        assert(old(s)@ + decimal(rest as nat) + tail =~= old(s)@ + (decimal(rest as nat) + tail));
    }
}

/// The denomination `c` as text, where a main unit is `frac` subunits.
pub fn show_coin(frac: usize, c: usize) -> (s: String)
    requires
        frac > 0,
    ensures
        s@ == coin_text(frac as nat, c as nat),
{
    let mut s = String::new();
    if c >= frac || c == 0 {
        push_decimal(&mut s, c / frac);
        proof {
            reveal_strlit("¢");
        }
        s.append("¢");
    }
    let r: usize = c % frac;
    if r > 0 {
        push_decimal(&mut s, r);
        proof {
            reveal_strlit("ᵼ");
        }
        s.append("ᵼ");
    }
    proof {
        assert(s@ =~= coin_text(frac as nat, c as nat));
    }
    s
}

/// The denominations `cs` as text, with a blank between each two.
pub fn show_coins(frac: usize, cs: &[usize]) -> (s: String)
    requires
        frac > 0,
    ensures
        s@ == coins_text(frac as nat, nats(cs@)),
{
    let ghost all = nats(cs@);
    let mut s = String::new();
    let mut i: usize = 0;
    while i < cs.len()
        invariant
            frac > 0,
            all == nats(cs@),
            0 <= i <= cs.len(),
            s@ == coins_text(frac as nat, all.take(i as int)),
        decreases cs.len() - i,
    {
        if i > 0 {
            proof {
                reveal_strlit(" ");
            }
            s.append(" ");
        }
        let one = show_coin(frac, cs[i]);
        proof {
            assert(all.take(i + 1).drop_last() =~= all.take(i as int));
            assert(all.take(i + 1).last() == cs@[i as int] as nat);
            assert(Seq::<char>::empty() + one@ =~= one@);
        }
        s.append(one.as_str());
        i += 1;
    }
    proof {
        assert(all.take(cs.len() as int) =~= all);
    }
    s
}

} // verus!
