use vstd::prelude::*;

verus! {

/// The character for one decimal digit.
pub open spec fn digit_char(d: int) -> char {
    if d == 0 {
        '0'
    } else if d == 1 {
        '1'
    } else if d == 2 {
        '2'
    } else if d == 3 {
        '3'
    } else if d == 4 {
        '4'
    } else if d == 5 {
        '5'
    } else if d == 6 {
        '6'
    } else if d == 7 {
        '7'
    } else if d == 8 {
        '8'
    } else {
        '9'
    }
}

/// The decimal digits of a nonnegative number, most significant first.
pub open spec fn dec_digits(n: nat) -> Seq<char>
    decreases n,
{
    if n < 10 {
        seq![digit_char(n as int)]
    } else {
        dec_digits(n / 10).push(digit_char((n % 10) as int))
    }
}

/// The decimal rendering of an integer: the digits of its magnitude,
/// with a leading '-' when it is negative.
pub open spec fn dec_of(x: int) -> Seq<char> {
    if x < 0 {
        seq!['-'] + dec_digits((-x) as nat)
    } else {
        dec_digits(x as nat)
    }
}

/// Relies on std's Display for i64: the plain decimal rendering of the value.
#[verifier::external_body]
pub(crate) fn i64_to_string(x: i64) -> (r: String)
    ensures
        r@ == dec_of(x as int),
{
    format!("{}", x)
}

/// Relies on std's Display for usize: the plain decimal rendering of the value.
#[verifier::external_body]
pub(crate) fn usize_to_string(x: usize) -> (r: String)
    ensures
        r@ == dec_of(x as int),
{
    format!("{}", x)
}

} // verus!
