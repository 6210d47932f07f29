//! Text for numbers and identifiers.

use vstd::prelude::*;

verus! {

pub open spec fn digit_char(d: nat) -> char {
    if d == 0 {
        '0'
    } else if d == 1 {
        '1'
    } else if d == 2 {
        '2'
    } else if d == 3 {
        '3'
    } else if d == 4 {
        '4'
    } else if d == 5 {
        '5'
    } else if d == 6 {
        '6'
    } else if d == 7 {
        '7'
    } else if d == 8 {
        '8'
    } else {
        '9'
    }
}

/// The decimal digits of `n`, without leading zeros.
pub open spec fn decimal(n: nat) -> Seq<char>
    decreases n,
{
    if n < 10 {
        seq![digit_char(n)]
    } else {
        decimal(n / 10).push(digit_char(n % 10))
    }
}

/// The text `format!("{:?}", s)` gives a string: the string quoted, with escapes.
pub uninterp spec fn rust_debug_text(s: Seq<char>) -> Seq<char>;

/// Calls `usize::to_string`. Claims, as `Display` for integers is documented, that the result
/// is the decimal representation of `n`.
#[verifier::external_body]
pub(crate) fn usize_text(n: usize) -> (r: String)
    ensures
        r@ == decimal(n as nat),
{
    n.to_string()
}

/// Calls `format!("{:?}", s)` on a string slice. Claims only that the result is the named value
/// `rust_debug_text`.
#[verifier::external_body]
pub(crate) fn debug_text(s: &str) -> (r: String)
    ensures
        r@ == rust_debug_text(s@),
{
    format!("{:?}", s)
}

} // verus!
