//! Text facts that inference relies on: RFC 3339 timestamps and the decimal
//! names of array positions.
use vstd::prelude::*;

verus! {

/// Whether a string is an RFC 3339 date-time, as chrono decides it.
pub uninterp spec fn is_rfc3339(s: Seq<char>) -> bool;

/// Relies on chrono's `DateTime::parse_from_rfc3339`: it succeeds exactly on the
/// strings that are RFC 3339 date-times, and its answer depends on the text alone.
#[verifier::external_body]
pub(crate) fn parses_as_rfc3339(s: &str) -> (r: bool)
    ensures
        r == is_rfc3339(s@),
{
    chrono::DateTime::parse_from_rfc3339(s).is_ok()
}

pub open spec fn digit(d: nat) -> char {
    if d == 0 {
        '0'
    } else if d == 1 {
        '1'
    } else if d == 2 {
        '2'
    } else if d == 3 {
        '3'
    } else if d == 4 {
        '4'
    } else if d == 5 {
        '5'
    } else if d == 6 {
        '6'
    } else if d == 7 {
        '7'
    } else if d == 8 {
        '8'
    } else {
        '9'
    }
}

/// The decimal digits of `n`, most significant first, with no leading zero.
pub open spec fn decimal(n: nat) -> Seq<char>
    decreases n,
{
    if n < 10 {
        seq![digit(n)]
    } else {
        decimal(n / 10).push(digit(n % 10))
    }
}

/// Relies on `usize`'s `to_string` (its `Display`): plain decimal digits.
#[verifier::external_body]
pub(crate) fn index_key(i: usize) -> (r: String)
    ensures
        r@ == decimal(i as nat),
{
    i.to_string()
}

} // verus!
