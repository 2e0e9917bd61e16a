//! The decimal rendering of an unsigned balance, used as the right-hand
//! input of a leaf digest.

use vstd::prelude::*;

verus! {

use vstd::string::StringExecFns;

/// The decimal digit character for a value below ten.
pub open spec fn dec_digit(n: u64) -> char
    recommends
        n < 10,
{
    ((n + 48) as u8) as char
}

/// The decimal rendering of `n`: most significant digit first, no sign, no
/// leading zeros except for the single digit of zero itself.
pub open spec fn dec_of(n: u64) -> Seq<char>
    decreases n,
{
    if n < 10 {
        seq![dec_digit(n)]
    } else {
        dec_of(n / 10).push(dec_digit(n % 10))
    }
}

/// A one-character string for a single decimal digit.
fn digit_str(d: u64) -> (r: &'static str)
    requires
        d < 10,
    ensures
        r@ =~= seq![dec_digit(d)],
{
    proof {
        reveal_strlit("0");
        reveal_strlit("1");
        reveal_strlit("2");
        reveal_strlit("3");
        reveal_strlit("4");
        reveal_strlit("5");
        reveal_strlit("6");
        reveal_strlit("7");
        reveal_strlit("8");
        reveal_strlit("9");
    }
    if d == 0 {
        "0"
    } else if d == 1 {
        "1"
    } else if d == 2 {
        "2"
    } else if d == 3 {
        "3"
    } else if d == 4 {
        "4"
    } else if d == 5 {
        "5"
    } else if d == 6 {
        "6"
    } else if d == 7 {
        "7"
    } else if d == 8 {
        "8"
    } else {
        "9"
    }
}

/// Renders `n` in decimal, proved equal to `dec_of(n)`.
pub fn decimal_string(n: u64) -> (r: String)
    ensures
        r@ == dec_of(n),
    decreases n,
{
    if n < 10 {
        String::from_str(digit_str(n))
    } else {
        let mut s = decimal_string(n / 10);
        s.append(digit_str(n % 10));
        proof {
            assert(s@ =~= dec_of(n));
        }
        s
    }
}

} // verus!
