//! Integers written out in decimal, for the messages and descriptions that
//! the library hands to its callers.

use vstd::prelude::*;
use vstd::string::*;

verus! {

/// The digit `d` as text.
pub open spec fn digit_text(d: int) -> Seq<char> {
    if d == 0 {
        "0"@
    } else if d == 1 {
        "1"@
    } else if d == 2 {
        "2"@
    } else if d == 3 {
        "3"@
    } else if d == 4 {
        "4"@
    } else if d == 5 {
        "5"@
    } else if d == 6 {
        "6"@
    } else if d == 7 {
        "7"@
    } else if d == 8 {
        "8"@
    } else {
        "9"@
    }
}

/// The decimal digits of `n`, most significant first, without leading zeros.
pub open spec fn decimal_digits(n: nat) -> Seq<char>
    decreases n,
{
    if n < 10 {
        digit_text(n as int)
    } else {
        decimal_digits(n / 10) + digit_text((n % 10) as int)
    }
}

/// `n` in decimal, with a minus sign in front when it is negative.
pub open spec fn decimal(n: int) -> Seq<char> {
    if n < 0 {
        "-"@ + decimal_digits((-n) as nat)
    } else {
        decimal_digits(n as nat)
    }
}

fn digit_str(d: u64) -> (s: &'static str)
    requires
        d < 10,
    ensures
        s@ == digit_text(d as int),
{
    if d == 0 {
        "0"
    } else if d == 1 {
        "1"
    } else if d == 2 {
        "2"
    } else if d == 3 {
        "3"
    } else if d == 4 {
        "4"
    } else if d == 5 {
        "5"
    } else if d == 6 {
        "6"
    } else if d == 7 {
        "7"
    } else if d == 8 {
        "8"
    } else {
        "9"
    }
}

/// Appends the decimal digits of `n` to `out`.
pub fn push_decimal_digits(out: &mut String, n: u64)
    ensures
        final(out)@ == old(out)@ + decimal_digits(n as nat),
    decreases n,
{
    if n >= 10 {
        push_decimal_digits(out, n / 10);
    }
    out.append(digit_str(n % 10));
}

/// Appends `n` in decimal to `out`.
pub fn push_decimal(out: &mut String, n: i32)
    ensures
        final(out)@ == old(out)@ + decimal(n as int),
{
    if n < 0 {
        out.append("-");
        push_decimal_digits(out, (-(n as i64)) as u64);
    } else {
        push_decimal_digits(out, n as u64);
    }
}

/// `n` as a term of a sum: `+ 5` or `- 3`, the sign apart from the digits.
pub open spec fn signed_term(n: int) -> Seq<char> {
    if n < 0 {
        "- "@ + decimal_digits((-n) as nat)
    } else {
        "+ "@ + decimal_digits(n as nat)
    }
}

/// Appends `n` as a term of a sum to `out`.
pub fn push_signed_term(out: &mut String, n: i32)
    ensures
        final(out)@ == old(out)@ + signed_term(n as int),
{
    if n < 0 {
        out.append("- ");
        push_decimal_digits(out, (-(n as i64)) as u64);
    } else {
        out.append("+ ");
        push_decimal_digits(out, n as u64);
    }
}

} // verus!
