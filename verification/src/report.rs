//! Rendering fixed-point amounts for the balance report: an optional sign,
//! the whole part, and exactly four fractional digits.

use vstd::prelude::*;

verus! {

/// The character for the decimal digit `d`.
pub open spec fn digit_char(d: int) -> char {
    ((d + 48) as u8) as char
}

/// The decimal digits of `n`, most significant first, without leading
/// zeros (a single `0` for zero).
pub open spec fn dec_digits(n: int) -> Seq<char>
    decreases n,
{
    if n < 10 {
        seq![digit_char(n)]
    } else {
        dec_digits(n / 10).push(digit_char(n % 10))
    }
}

/// Exactly four fractional digits, with leading zeros.
pub open spec fn frac4_digits(f: int) -> Seq<char> {
    seq![
        digit_char(f / 1000 % 10),
        digit_char(f / 100 % 10),
        digit_char(f / 10 % 10),
        digit_char(f % 10),
    ]
}

/// The report's rendering of a fixed-point amount: a `-` for negative
/// values, then `mag / 10000`, a dot, and the four digits of
/// `mag % 10000`.
pub open spec fn amount_str(a: int) -> Seq<char> {
    let mag = if a < 0 {
        -a
    } else {
        a
    };
    let sign = if a < 0 {
        seq!['-']
    } else {
        Seq::<char>::empty()
    };
    sign + dec_digits(mag / 10000) + seq!['.'] + frac4_digits(mag % 10000)
}

fn push_digit(s: &mut String, d: u64)
    requires
        d <= 9,
    ensures
        final(s)@ == old(s)@.push(digit_char(d as int)),
{
    s.push(((d + 48) as u8) as char);
}

fn push_uint(s: &mut String, n: u64)
    ensures
        final(s)@ == old(s)@ + dec_digits(n as int),
    decreases n,
{
    if n >= 10 {
        push_uint(s, n / 10);
        push_digit(s, n % 10);
        proof {
            assert((old(s)@ + dec_digits((n / 10) as int)).push(digit_char((n % 10) as int))
                =~= old(s)@ + dec_digits(n as int));
        }
    } else {
        push_digit(s, n);
        proof {
            assert(old(s)@.push(digit_char(n as int)) =~= old(s)@ + dec_digits(n as int));
        }
    }
}

/// Renders a fixed-point amount exactly as the balance report prints it.
pub fn format_amount(a: i64) -> (s: String)
    ensures
        s@ == amount_str(a as int),
{
    let mut s = String::new();
    if a < 0 {
        s.push('-');
    }
    let mag: u64 = if a >= 0 {
        a as u64
    } else {
        (-(a as i128)) as u64
    };
    push_uint(&mut s, mag / 10000);
    s.push('.');
    let f = mag % 10000;
    push_digit(&mut s, f / 1000 % 10);
    push_digit(&mut s, f / 100 % 10);
    push_digit(&mut s, f / 10 % 10);
    push_digit(&mut s, f % 10);
    proof {
        assert(s@ =~= amount_str(a as int));
    }
    s
}

} // verus!
