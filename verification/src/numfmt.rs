//! Decimal rendering of the small integers the display helpers print.

use vstd::prelude::*;
use vstd::string::StringExecFns;

verus! {

/// The character for one decimal digit.
pub open spec fn digit_char(d: int) -> char {
    if d == 0 {
        '0'
    } else if d == 1 {
        '1'
    } else if d == 2 {
        '2'
    } else if d == 3 {
        '3'
    } else if d == 4 {
        '4'
    } else if d == 5 {
        '5'
    } else if d == 6 {
        '6'
    } else if d == 7 {
        '7'
    } else if d == 8 {
        '8'
    } else {
        '9'
    }
}

/// The decimal digits of a non-negative number, most significant first.
pub open spec fn dec_digits(n: int) -> Seq<char>
    decreases n,
{
    if n < 10 {
        seq![digit_char(n)]
    } else {
        dec_digits(n / 10).push(digit_char(n % 10))
    }
}

/// The decimal rendering of an integer, with a minus sign when negative.
pub open spec fn int_dec(v: int) -> Seq<char> {
    if v < 0 {
        seq!['-'] + dec_digits(-v)
    } else {
        dec_digits(v)
    }
}

/// The decimal rendering of an integer with its sign always written, as a
/// percentage modifier is displayed.
pub open spec fn signed_dec(v: int) -> Seq<char> {
    if v < 0 {
        seq!['-'] + dec_digits(-v)
    } else {
        seq!['+'] + dec_digits(v)
    }
}

fn digit_str(d: u64) -> (r: &'static str)
    requires
        d <= 9,
    ensures
        r@ == seq![digit_char(d as int)],
    {
    let r = match d {
        0 => "0",
        1 => "1",
        2 => "2",
        3 => "3",
        4 => "4",
        5 => "5",
        6 => "6",
        7 => "7",
        8 => "8",
        _ => "9",
    };
    proof {
        reveal_strlit("0");
        reveal_strlit("1");
        reveal_strlit("2");
        reveal_strlit("3");
        reveal_strlit("4");
        reveal_strlit("5");
        reveal_strlit("6");
        reveal_strlit("7");
        reveal_strlit("8");
        reveal_strlit("9");
        assert(r@ =~= seq![digit_char(d as int)]);
    }
    r
}

/// Appends the decimal digits of `n` to `s`.
pub fn push_u64_dec(s: &mut String, n: u64)
    ensures
        final(s)@ == old(s)@ + dec_digits(n as int),
    decreases n,
{
    if n < 10 {
        s.append(digit_str(n));
        proof {
            assert(s@ =~= old(s)@ + dec_digits(n as int));
        }
    } else {
        push_u64_dec(s, n / 10);
        s.append(digit_str(n % 10));
        proof {
            assert(s@ =~= old(s)@ + dec_digits(n as int));
        }
    }
}

/// The decimal rendering of `v`, with a minus sign when negative.
pub fn i64_to_string(v: i64) -> (r: String)
    ensures
        r@ == int_dec(v as int),
{
    let mut s = String::new();
    if v < 0 {
        s.append("-");
        let mag: u64 = if v == i64::MIN {
            9223372036854775808u64
        } else {
            (-v) as u64
        };
        push_u64_dec(&mut s, mag);
        proof {
            reveal_strlit("-");
            assert(s@ =~= int_dec(v as int));
        }
    } else {
        push_u64_dec(&mut s, v as u64);
        proof {
            assert(s@ =~= int_dec(v as int));
        }
    }
    s
}

/// The decimal rendering of `v` with its sign always written.
pub fn i64_to_signed_string(v: i64) -> (r: String)
    ensures
        r@ == signed_dec(v as int),
{
    let mut s = String::new();
    if v < 0 {
        s.append("-");
        let mag: u64 = if v == i64::MIN {
            9223372036854775808u64
        } else {
            (-v) as u64
        };
        push_u64_dec(&mut s, mag);
        proof {
            reveal_strlit("-");
            assert(s@ =~= signed_dec(v as int));
        }
    } else {
        s.append("+");
        push_u64_dec(&mut s, v as u64);
        proof {
            reveal_strlit("+");
            assert(s@ =~= signed_dec(v as int));
        }
    }
    s
}

} // verus!
