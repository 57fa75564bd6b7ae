use vstd::prelude::*;

use crate::log::string_of;

verus! {

/// The character of a decimal digit.
pub open spec fn digit_char(d: int) -> char {
    if d == 0 {
        '0'
    } else if d == 1 {
        '1'
    } else if d == 2 {
        '2'
    } else if d == 3 {
        '3'
    } else if d == 4 {
        '4'
    } else if d == 5 {
        '5'
    } else if d == 6 {
        '6'
    } else if d == 7 {
        '7'
    } else if d == 8 {
        '8'
    } else {
        '9'
    }
}

/// The decimal digits of a natural number, most significant first.
pub open spec fn digits(n: nat) -> Seq<char>
    decreases n,
{
    if n < 10 {
        seq![digit_char(n as int)]
    } else {
        digits(n / 10).push(digit_char((n % 10) as int))
    }
}

/// An integer written in decimal, with a leading `-` when negative.
pub open spec fn decimal(n: int) -> Seq<char> {
    if n < 0 {
        seq!['-'] + digits((-n) as nat)
    } else {
        digits(n as nat)
    }
}

fn digit(d: u64) -> (c: char)
    requires
        d < 10,
    ensures
        c == digit_char(d as int),
{
    if d == 0 {
        '0'
    } else if d == 1 {
        '1'
    } else if d == 2 {
        '2'
    } else if d == 3 {
        '3'
    } else if d == 4 {
        '4'
    } else if d == 5 {
        '5'
    } else if d == 6 {
        '6'
    } else if d == 7 {
        '7'
    } else if d == 8 {
        '8'
    } else {
        '9'
    }
}

fn push_digits(m: u64, out: &mut Vec<char>)
    ensures
        final(out)@ == old(out)@ + digits(m as nat),
    decreases m,
{
    if m >= 10 {
        push_digits(m / 10, out);
    }
    out.push(digit(m % 10));
    proof {
        if m >= 10 {
            assert(digits(m as nat) == digits((m / 10) as nat).push(digit_char((m % 10) as int)));
        }
    }
    assert(final(out)@ =~= old(out)@ + digits(m as nat)) by {
        if m < 10 {
            assert(digits(m as nat) == seq![digit_char(m as int)]);
        }
    }
}

/// The integer written in decimal, as `ToString` writes it.
pub fn decimal_string(n: i64) -> (r: String)
    ensures
        r@ == decimal(n as int),
{
    let mut out: Vec<char> = Vec::new();
    let magnitude: u64 = if n < 0 {
        out.push('-');
        (-(n as i128)) as u64
    } else {
        n as u64
    };
    push_digits(magnitude, &mut out);
    assert(out@ =~= decimal(n as int));
    string_of(&out)
}

/// The natural number written in decimal.
pub fn unsigned_string(n: u64) -> (r: String)
    ensures
        r@ == decimal(n as int),
{
    let mut out: Vec<char> = Vec::new();
    push_digits(n, &mut out);
    assert(out@ =~= decimal(n as int));
    string_of(&out)
}

} // verus!
