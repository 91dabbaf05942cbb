//! Ranges of numbers as a caller writes them: one number, or two with a
//! hyphen between them.

use crate::show::{decimal, digit};
use vstd::prelude::*;
use vstd::std_specs::iter::IteratorSpec;

verus! {

/// Why a text is no number.
#[derive(PartialEq, Eq, Clone, Copy, Debug, Structural)]
pub enum NumberError {
    /// There is no text.
    Empty,
    /// A character is no decimal digit.
    InvalidDigit,
    /// The number is too large for a `usize`.
    PosOverflow,
}

/// The value of the decimal digit `c`, or `None` where `c` is no digit.
pub open spec fn digit_value(c: char) -> Option<nat> {
    if '0' <= c <= '9' {
        Some((c as u32 - '0' as u32) as nat)
    } else {
        None
    }
}

/// The number that the digits `s` spell, read from the left. The first
/// character that is no digit, or with which the number passes `usize::MAX`,
/// ends the reading with its error.
pub open spec fn digits_value(s: Seq<char>) -> Result<nat, NumberError>
    decreases s.len(),
{
    if s.len() == 0 {
        Ok(0)
    } else {
        match digits_value(s.drop_last()) {
            Err(e) => Err(e),
            Ok(v) => match digit_value(s.last()) {
                None => Err(NumberError::InvalidDigit),
                Some(d) => if v * 10 + d > usize::MAX {
                    Err(NumberError::PosOverflow)
                } else {
                    Ok(v * 10 + d)
                },
            },
        }
    }
}

/// The number that `s` spells: decimal digits, with or without a `+` before
/// them.
pub open spec fn number_value(s: Seq<char>) -> Result<nat, NumberError> {
    if s.len() == 0 {
        Err(NumberError::Empty)
    } else if s.len() == 1 && (s[0] == '+' || s[0] == '-') {
        Err(NumberError::InvalidDigit)
    } else if s[0] == '+' {
        digits_value(s.skip(1))
    } else {
        digits_value(s)
    }
}

/// The place of the first hyphen in `s`, if there is one.
pub open spec fn first_hyphen(s: Seq<char>) -> Option<int>
    decreases s.len(),
{
    if s.len() == 0 {
        None
    } else if s[0] == '-' {
        Some(0)
    } else {
        match first_hyphen(s.drop_first()) {
            Some(i) => Some(i + 1),
            None => None,
        }
    }
}

/// The range that `s` spells, as its first and its last number. With a
/// hyphen, the numbers are what stands before the first hyphen and what
/// stands after it, and the error of the one before goes first. Without, `s`
/// is one number, which is both the first and the last.
pub open spec fn range_value(s: Seq<char>) -> Result<(nat, nat), NumberError> {
    match first_hyphen(s) {
        Some(i) => match (number_value(s.take(i)), number_value(s.skip(i + 1))) {
            (Ok(m), Ok(n)) => Ok((m, n)),
            (Err(e), _) => Err(e),
            (_, Err(e)) => Err(e),
        },
        None => match number_value(s) {
            Ok(n) => Ok((n, n)),
            Err(e) => Err(e),
        },
    }
}

/// The first hyphen of `s` is at `i` where there is one at `i` and none
/// before; there is no first hyphen where there is none.
pub proof fn lemma_first_hyphen(s: Seq<char>, i: int)
    requires
        0 <= i <= s.len(),
        forall|j: int| 0 <= j < i ==> s[j] != '-',
        i < s.len() ==> s[i] == '-',
    ensures
        first_hyphen(s) == if i < s.len() {
            Some(i)
        } else {
            None::<int>
        },
    decreases i,
{
    if i > 0 {
        let rest = s.drop_first();
        assert forall|j: int| 0 <= j < i - 1 implies rest[j] != '-' by {
            assert(rest[j] == s[j + 1]);
        }
        lemma_first_hyphen(rest, i - 1);
    }
}

/// Every character of a number in decimal is a digit, and the digits spell
/// the number.
pub proof fn lemma_decimal_digits(n: nat)
    requires
        n <= usize::MAX,
    ensures
        decimal(n).len() >= 1,
        forall|i: int| 0 <= i < decimal(n).len() ==> digit_value(#[trigger] decimal(n)[i]) is Some,
        digits_value(decimal(n)) == Ok::<nat, NumberError>(n),
    decreases n,
{
    let s = decimal(n);
    if n < 10 {
        assert(s.drop_last() =~= Seq::<char>::empty());
        assert(s.last() == digit(n));
        assert(digit_value(digit(n)) == Some(n));
        assert(digits_value(s.drop_last()) == Ok::<nat, NumberError>(0nat));
    } else {
        lemma_decimal_digits(n / 10);
        assert(s.drop_last() =~= decimal(n / 10));
        assert(s.last() == digit(n % 10));
        assert(digit_value(digit(n % 10)) == Some(n % 10));
        assert((n / 10) * 10 + n % 10 == n);
    }
}

/// A number that is written in decimal reads back as itself, as a number and
/// as a range of that one number.
pub proof fn lemma_decimal_reads_back(n: nat)
    requires
        n <= usize::MAX,
    ensures
        number_value(decimal(n)) == Ok::<nat, NumberError>(n),
        range_value(decimal(n)) == Ok::<(nat, nat), NumberError>((n, n)),
{
    let s = decimal(n);
    lemma_decimal_digits(n);
    assert(digit_value(s[0]) is Some);
    assert forall|j: int| 0 <= j < s.len() implies s[j] != '-' by {
        assert(digit_value(s[j]) is Some);
    }
    lemma_first_hyphen(s, s.len() as int);
}

/// The characters of `s`.
fn chars_of(s: &str) -> (v: Vec<char>)
    ensures
        v@ == s@,
{
    broadcast use vstd::string::group_string_axioms;

    let mut v: Vec<char> = Vec::new();
    let mut it = s.chars();
    loop
        invariant
            it.obeys_prophetic_iter_laws(),
            it.decrease() is Some,
            v@ + it.remaining() == s@,
        decreases it.decrease()->0,
    {
        let ghost rest = it.remaining();
        match it.next() {
            Some(c) => {
                proof {
                    assert(v@.push(c) + rest.drop_first() =~= v@ + rest);
                }
                v.push(c);
            },
            None => {
                proof {
                    assert(v@ + rest =~= v@);
                }
                return v;
            },
        }
    }
}

/// The number that the characters of `s` from `from` up to `to` spell.
fn parse_number(s: &Vec<char>, from: usize, to: usize) -> (r: Result<usize, NumberError>)
    requires
        from <= to <= s@.len(),
    ensures
        match number_value(s@.subrange(from as int, to as int)) {
            Ok(n) => r == Ok::<usize, NumberError>(n as usize) && n <= usize::MAX,
            Err(e) => r == Err::<usize, NumberError>(e),
        },
{
    let ghost text = s@.subrange(from as int, to as int);
    if from == to {
        return Err(NumberError::Empty);
    }
    let first: char = s[from];
    proof {
        assert(text[0] == first);
    }
    if to - from == 1 && (first == '+' || first == '-') {
        return Err(NumberError::InvalidDigit);
    }
    let start: usize = if first == '+' {
        from + 1
    } else {
        from
    };
    let ghost digits = s@.subrange(start as int, to as int);
    proof {
        if first == '+' {
            assert(text.skip(1) =~= digits);
        } else {
            assert(text =~= digits);
        }
        assert(number_value(text) == digits_value(digits));
    }
    let mut v: usize = 0;
    let mut i: usize = start;
    while i < to
        invariant
            start <= i <= to <= s@.len(),
            digits == s@.subrange(start as int, to as int),
            text == s@.subrange(from as int, to as int),
            number_value(text) == digits_value(digits),
            digits_value(digits.take(i - start)) == Ok::<nat, NumberError>(v as nat),
        decreases to - i,
    {
        let c: char = s[i];
        proof {
            assert(digits.take(i - start + 1).drop_last() =~= digits.take(i - start));
            assert(digits.take(i - start + 1).last() == c);
        }
        if !('0' <= c && c <= '9') {
            proof {
                lemma_digits_error_stays(digits, i - start + 1);
            }
            return Err(NumberError::InvalidDigit);
        }
        let d: usize = (c as u32 - '0' as u32) as usize;
        if v > (usize::MAX - d) / 10 {
            proof {
                assert(v * 10 + d > usize::MAX);
                lemma_digits_error_stays(digits, i - start + 1);
            }
            return Err(NumberError::PosOverflow);
        }
        v = v * 10 + d;
        i += 1;
    }
    proof {
        assert(digits.take(to - start) =~= digits);
    }
    Ok(v)
}

/// Once reading has met an error, the error stays, whatever follows.
pub proof fn lemma_digits_error_stays(s: Seq<char>, n: int)
    requires
        0 <= n <= s.len(),
        digits_value(s.take(n)) is Err,
    ensures
        digits_value(s) == digits_value(s.take(n)),
    decreases s.len() - n,
{
    if n < s.len() {
        assert(s.take(n + 1).drop_last() =~= s.take(n));
        lemma_digits_error_stays(s, n + 1);
    } else {
        assert(s.take(n) =~= s);
    }
}

/// The range that `s` spells: one number, or two with a hyphen between
/// them.
pub fn parse_range(s: &str) -> (r: Result<(usize, usize), NumberError>)
    ensures
        match range_value(s@) {
            Ok((m, n)) => r == Ok::<(usize, usize), NumberError>((m as usize, n as usize)) && m
                <= usize::MAX && n <= usize::MAX,
            Err(e) => r == Err::<(usize, usize), NumberError>(e),
        },
{
    let text = chars_of(s);
    let len: usize = text.len();
    let mut i: usize = 0;
    while i < len && text[i] != '-'
        invariant
            len == text@.len(),
            0 <= i <= len,
            forall|j: int| 0 <= j < i ==> text@[j] != '-',
        decreases len - i,
    {
        i += 1;
    }
    proof {
        lemma_first_hyphen(text@, i as int);
        assert(text@.subrange(0, i as int) =~= text@.take(i as int));
        assert(text@.subrange(0, len as int) =~= text@);
    }
    if i < len {
        proof {
            assert(text@.subrange(i + 1, len as int) =~= text@.skip(i + 1));
        }
        let first = parse_number(&text, 0, i);
        let last = parse_number(&text, i + 1, len);
        match first {
            Err(e) => Err(e),
            Ok(m) => match last {
                Err(e) => Err(e),
                Ok(n) => Ok((m, n)),
            },
        }
    } else {
        match parse_number(&text, 0, len) {
            Ok(n) => Ok((n, n)),
            Err(e) => Err(e),
        }
    }
}

} // verus!
