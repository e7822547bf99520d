//! Decimal numerals and their binary64 values.

use vstd::prelude::*;
use vstd::arithmetic::power2::pow2;
use crate::rounding::{round_quotient, round_ratio};
use crate::natural::Natural;

verus! {

pub open spec fn is_digit(c: char) -> bool {
    '0' <= c && c <= '9'
}

/// The number that a digit stands for.
pub open spec fn digit_value(c: char) -> nat {
    (c as int - '0' as int) as nat
}

/// A numeral is made of digits and at most one point, and has a digit.
pub open spec fn numeral_valid(s: Seq<char>) -> bool {
    &&& forall|i: int| 0 <= i < s.len() ==> is_digit(#[trigger] s[i]) || s[i] == '.'
    &&& forall|i: int, j: int|
        0 <= i < j < s.len() ==> !(#[trigger] s[i] == '.' && #[trigger] s[j] == '.')
    &&& exists|i: int| 0 <= i < s.len() && is_digit(#[trigger] s[i])
}

/// The whole number that the digits of a numeral write, the point left out.
pub open spec fn mantissa(s: Seq<char>) -> nat
    decreases s.len(),
{
    if s.len() == 0 {
        0
    } else if is_digit(s.last()) {
        10 * mantissa(s.drop_last()) + digit_value(s.last())
    } else {
        mantissa(s.drop_last())
    }
}

/// How many characters follow the point.
pub open spec fn fraction_digits(s: Seq<char>) -> nat {
    if s.contains('.') {
        (s.len() - 1 - s.index_of('.')) as nat
    } else {
        0
    }
}

pub open spec fn pow10(k: nat) -> nat
    decreases k,
{
    if k == 0 {
        1
    } else {
        10 * pow10((k - 1) as nat)
    }
}

/// The binary64 magnitude nearest to the number that a numeral writes.
pub open spec fn decimal_spec(s: Seq<char>) -> u64 {
    round_ratio(mantissa(s) * pow2(1074), pow10(fraction_digits(s)))
}

pub proof fn lemma_pow10_positive(k: nat)
    ensures
        pow10(k) > 0,
    decreases k,
{
    if k > 0 {
        lemma_pow10_positive((k - 1) as nat);
    }
}

pub fn digit(c: char) -> (r: Option<u8>)
    ensures
        r is Some == is_digit(c),
        r matches Some(d) ==> d == digit_value(c),
{
    match c {
        '0' => Some(0),
        '1' => Some(1),
        '2' => Some(2),
        '3' => Some(3),
        '4' => Some(4),
        '5' => Some(5),
        '6' => Some(6),
        '7' => Some(7),
        '8' => Some(8),
        '9' => Some(9),
        _ => None,
    }
}

/// Converts a decimal numeral to the nearest binary64 value, or tells that
/// the text is no numeral.
pub fn from_decimal(text: &Vec<char>) -> (r: Option<u64>)
    ensures
        r == if numeral_valid(text@) { Some(decimal_spec(text@)) } else { None },
{
    let n = text.len();
    let mut mant = Natural::zero();
    let mut point: Option<usize> = None;
    let mut any_digit = false;
    let ghost mut witness: int = 0;
    let mut i: usize = 0;
    proof {
        assert(text@.subrange(0, 0) =~= Seq::<char>::empty());
    }
    while i < n
        invariant
            i <= n,
            n == text@.len(),
            mant.wf(),
            mant@ == mantissa(text@.subrange(0, i as int)),
            forall|k: int| 0 <= k < i ==> is_digit(#[trigger] text@[k]) || text@[k] == '.',
            match point {
                Some(d) => d < i && text@[d as int] == '.' && forall|k: int|
                    0 <= k < i && #[trigger] text@[k] == '.' ==> k == d,
                None => forall|k: int| 0 <= k < i ==> #[trigger] text@[k] != '.',
            },
            any_digit ==> 0 <= witness < i && is_digit(text@[witness]),
            !any_digit ==> forall|k: int| 0 <= k < i ==> !is_digit(#[trigger] text@[k]),
        decreases n - i,
    {
        let c = text[i];
        proof {
            assert(text@.subrange(0, i + 1).drop_last() =~= text@.subrange(0, i as int));
        }
        if c == '.' {
            match point {
                Some(d) => {
                    assert(text@[d as int] == '.' && text@[i as int] == '.');
                    return None;
                },
                None => {},
            }
            point = Some(i);
        } else {
            match digit(c) {
                Some(d) => {
                    mant = mant.times_ten_plus(d);
                    any_digit = true;
                    proof {
                        witness = i as int;
                    }
                },
                None => {
                    assert(!(is_digit(text@[i as int]) || text@[i as int] == '.'));
                    return None;
                },
            }
        }
        i += 1;
    }
    if !any_digit {
        return None;
    }
    assert(is_digit(text@[witness]));
    assert(numeral_valid(text@));
    let places: usize = match point {
        Some(d) => n - 1 - d,
        None => 0,
    };
    proof {
        assert(text@.subrange(0, n as int) =~= text@);
        match point {
            Some(d) => {
                assert(text@[d as int] == '.');
                assert(text@.contains('.'));
                let at = text@.index_of('.');
                assert(text@[at] == '.');
            },
            None => {
                assert(!text@.contains('.'));
            },
        }
        assert(places == fraction_digits(text@));
    }
    let mut den = Natural::from_u128(1);
    let mut t: usize = 0;
    while t < places
        invariant
            t <= places,
            den.wf(),
            den@ == pow10(t as nat),
        decreases places - t,
    {
        den = den.times_ten_plus(0);
        t += 1;
    }
    proof {
        lemma_pow10_positive(places as nat);
    }
    mant.shift_left(1074);
    Some(round_quotient(&mant, &den))
}

} // verus!
