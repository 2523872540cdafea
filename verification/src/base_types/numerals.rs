//! Numbers written in decimal digits.
use super::numbers::{fits, same_result, signed_magnitude, CheckedOperations, NumberType};
use vstd::prelude::*;
use vstd::string::StringExecFns;

verus! {

/// The digit that stands for `d`.
pub open spec fn digit_char(d: int) -> char {
    if d == 0 {
        '0'
    } else if d == 1 {
        '1'
    } else if d == 2 {
        '2'
    } else if d == 3 {
        '3'
    } else if d == 4 {
        '4'
    } else if d == 5 {
        '5'
    } else if d == 6 {
        '6'
    } else if d == 7 {
        '7'
    } else if d == 8 {
        '8'
    } else {
        '9'
    }
}

/// The decimal digits of `n`, without leading zeros.
pub open spec fn decimal(n: nat) -> Seq<char>
    decreases n,
{
    if n < 10 {
        seq![digit_char(n as int)]
    } else {
        decimal(n / 10).push(digit_char((n % 10) as int))
    }
}

/// The integer written in decimal digits, with a minus sign before them
/// where it is below zero.
pub open spec fn numeral(v: int) -> Seq<char> {
    if v < 0 {
        seq!['-'] + decimal((-v) as nat)
    } else {
        decimal(v as nat)
    }
}

/// The digit that stands for `d`, as text.
pub fn digit_text(d: u8) -> (text: &'static str)
    requires
        d < 10,
    ensures
        text@ == seq![digit_char(d as int)],
{
    proof {
        reveal_strlit("0");
        reveal_strlit("1");
        reveal_strlit("2");
        reveal_strlit("3");
        reveal_strlit("4");
        reveal_strlit("5");
        reveal_strlit("6");
        reveal_strlit("7");
        reveal_strlit("8");
        reveal_strlit("9");
    }
    let text = if d == 0 {
        "0"
    } else if d == 1 {
        "1"
    } else if d == 2 {
        "2"
    } else if d == 3 {
        "3"
    } else if d == 4 {
        "4"
    } else if d == 5 {
        "5"
    } else if d == 6 {
        "6"
    } else if d == 7 {
        "7"
    } else if d == 8 {
        "8"
    } else {
        "9"
    };
    assert(text@ =~= seq![digit_char(d as int)]);
    text
}

/// The digits that are yet to be written before the ones collected: the
/// decimal digits of `n`, or none once `n` is zero.
pub open spec fn leading(n: nat) -> Seq<char> {
    if n == 0 {
        Seq::empty()
    } else {
        decimal(n)
    }
}

/// The digits for each of the numbers, last number first.
pub open spec fn trailing(digits: Seq<u8>) -> Seq<char> {
    Seq::new(digits.len(), |k: int| digit_char(digits[digits.len() - 1 - k] as int))
}

/// The number written in decimal digits.
pub fn write_decimal(n: u128) -> (text: String)
    ensures
        text@ == decimal(n as nat),
{
    let mut digits: Vec<u8> = Vec::new();
    digits.push((n % 10) as u8);
    let mut rest = n / 10;
    proof {
        assert(leading(rest as nat) + trailing(digits@) =~= decimal(n as nat));
    }
    while rest > 0
        invariant
            digits@.len() > 0,
            forall|k: int| 0 <= k < digits@.len() ==> #[trigger] digits@[k] < 10,
            leading(rest as nat) + trailing(digits@) == decimal(n as nat),
        decreases rest,
    {
        let ghost before = digits@;
        digits.push((rest % 10) as u8);
        proof {
            let next = (rest / 10) as nat;
            assert(leading(rest as nat) =~= leading(next).push(digit_char((rest % 10) as int)));
            assert(leading(next) + trailing(digits@) =~= leading(rest as nat) + trailing(before));
        }
        rest = rest / 10;
    }
    let mut text = String::new();
    let mut k: usize = digits.len();
    proof {
        assert(trailing(digits@) =~= decimal(n as nat));
    }
    while k > 0
        invariant
            k <= digits@.len(),
            forall|k: int| 0 <= k < digits@.len() ==> #[trigger] digits@[k] < 10,
            text@ == trailing(digits@).take(digits@.len() - k),
        decreases k,
    {
        k = k - 1;
        text.append(digit_text(digits[k]));
        proof {
            assert(text@ =~= trailing(digits@).take(digits@.len() - k));
        }
    }
    proof {
        assert(trailing(digits@).take(digits@.len() as int) =~= trailing(digits@));
    }
    text
}

/// The number written in decimal digits, with a minus sign before them where
/// it is below zero.
pub fn write_numeral<T: NumberType>(t: T) -> (text: String)
    ensures
        text@ == numeral(t.value()),
{
    let (negative, magnitude) = t.magnitude();
    let digits = write_decimal(magnitude);
    if negative {
        proof {
            reveal_strlit("-");
        }
        let mut text = String::new();
        text.append("-");
        text.append(digits.as_str());
        proof {
            assert(text@ =~= numeral(t.value()));
        }
        text
    } else {
        digits
    }
}

/// The number that the digit stands for, if the character is a digit.
pub open spec fn digit_value(c: char) -> Option<int> {
    if c == '0' {
        Some(0)
    } else if c == '1' {
        Some(1)
    } else if c == '2' {
        Some(2)
    } else if c == '3' {
        Some(3)
    } else if c == '4' {
        Some(4)
    } else if c == '5' {
        Some(5)
    } else if c == '6' {
        Some(6)
    } else if c == '7' {
        Some(7)
    } else if c == '8' {
        Some(8)
    } else if c == '9' {
        Some(9)
    } else {
        None
    }
}

/// The number that the decimal digits stand for, if all the characters are
/// digits.
pub open spec fn digits_value(digits: Seq<char>) -> Option<nat>
    decreases digits.len(),
{
    if digits.len() == 0 {
        Some(0)
    } else {
        match (digits_value(digits.drop_last()), digit_value(digits.last())) {
            (Some(v), Some(d)) => Some((v * 10 + d) as nat),
            _ => None,
        }
    }
}

/// Whether the text starts with a sign: a plus, or a minus where the type
/// holds numbers below zero.
pub open spec fn has_sign<T: CheckedOperations>(text: Seq<char>) -> bool {
    text.len() > 0 && (text[0] == '+' || (text[0] == '-' && T::min_value() < 0))
}

/// The integer that the text stands for as a number of the type: digits,
/// with a sign before them or none. Nothing where there is no digit, where a
/// character is not a digit, or where the type does not hold the integer.
pub open spec fn numeral_value<T: CheckedOperations>(text: Seq<char>) -> Option<int> {
    let digits = if has_sign::<T>(text) {
        text.skip(1)
    } else {
        text
    };
    if digits.len() == 0 {
        None
    } else {
        match digits_value(digits) {
            Some(v) => {
                let r = signed_magnitude(has_sign::<T>(text) && text[0] == '-', v as int);
                if fits::<T>(r) {
                    Some(r)
                } else {
                    None
                }
            },
            None => None,
        }
    }
}

/// The number that the digit stands for, if the character is a digit.
pub fn read_digit(c: char) -> (d: Option<u8>)
    ensures
        match d {
            Some(d) => digit_value(c) == Some(d as int) && d < 10,
            None => digit_value(c) is None,
        },
{
    if c == '0' {
        Some(0)
    } else if c == '1' {
        Some(1)
    } else if c == '2' {
        Some(2)
    } else if c == '3' {
        Some(3)
    } else if c == '4' {
        Some(4)
    } else if c == '5' {
        Some(5)
    } else if c == '6' {
        Some(6)
    } else if c == '7' {
        Some(7)
    } else if c == '8' {
        Some(8)
    } else if c == '9' {
        Some(9)
    } else {
        None
    }
}

/// Reads a number of the type from text: digits, with a sign before them or
/// none.
#[verifier::rlimit(30)]
pub fn read_numeral<T: NumberType>(text: &str) -> (r: Option<T>)
    ensures
        same_result(r, numeral_value::<T>(text@)),
{
    let zero = T::zero();
    let signed = zero.checked_sub(T::one()).is_some();
    let mut started = false;
    let mut negative = false;
    let mut any_digit = false;
    let mut invalid = false;
    let mut magnitude: u128 = 0;
    let ghost mut seen: Seq<char> = Seq::empty();
    let ghost mut digits: Seq<char> = Seq::empty();
    proof {
        T::holds_zero_and_one();
        zero.value_bounds();
    }
    for c in chars: text.chars()
        invariant
            chars.seq() == text@,
            seen == chars.seq().take(chars.index() as int),
            signed == (T::min_value() < 0),
            started == (seen.len() > 0),
            digits == if has_sign::<T>(seen) {
                seen.skip(1)
            } else {
                seen
            },
            negative == (has_sign::<T>(seen) && seen[0] == '-'),
            any_digit == (digits.len() > 0),
            invalid == !(digits_value(digits) is Some && digits_value(digits).unwrap()
                <= u128::MAX),
            !invalid ==> digits_value(digits) == Some(magnitude as nat),
    {
        let ghost before = digits;
        proof {
            assert(seen.push(c) =~= chars.seq().take(chars.index() + 1));
        }
        if !started && (c == '+' || (c == '-' && signed)) {
            negative = c == '-';
            proof {
                seen = seen.push(c);
                digits = Seq::empty();
                assert(seen.skip(1) =~= digits);
            }
        } else {
            proof {
                seen = seen.push(c);
                digits = digits.push(c);
                assert(digits.drop_last() =~= before);
                assert(digits =~= if has_sign::<T>(seen) {
                    seen.skip(1)
                } else {
                    seen
                });
            }
            any_digit = true;
            if !invalid {
                match read_digit(c) {
                    Some(d) => {
                        match magnitude.checked_mul(10) {
                            Some(tenfold) => {
                                match tenfold.checked_add(d as u128) {
                                    Some(sum) => {
                                        magnitude = sum;
                                    },
                                    None => {
                                        invalid = true;
                                    },
                                }
                            },
                            None => {
                                invalid = true;
                            },
                        }
                    },
                    None => {
                        invalid = true;
                    },
                }
            }
        }
        started = true;
    }
    proof {
        assert(seen =~= text@);
        T::holds_no_wider();
    }
    if !any_digit || invalid {
        return None;
    }
    let r = T::from_magnitude(negative, magnitude);
    proof {
        if r is Some {
            r.unwrap().value_bounds();
        }
    }
    r
}

} // verus!
