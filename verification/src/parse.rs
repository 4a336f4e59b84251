//! Character-level helpers shared by the record parser: ASCII whitespace
//! trimming, decimal digit sequences, and bounded unsigned / fixed-point
//! number parsing, each with an exact specification.

use vstd::prelude::*;

verus! {

/// Why a numeric field failed to parse.
#[derive(Clone, Copy, Debug, PartialEq, Eq, Structural)]
pub enum ParseFailure {
    /// The field was empty.
    Empty,
    /// A character was not a digit (or the number was otherwise ill-formed).
    InvalidDigit,
    /// The number is well-formed but too large for the target type.
    OutOfRange,
}

/// Relies on `String::push` of std, which vstd leaves unspecified: it
/// appends the given character to the end of the string.
pub assume_specification[ String::push ](s: &mut String, c: char)
    ensures
        final(s)@ == old(s)@.push(c),
;

/// ASCII whitespace, the characters removed from the ends of every field.
pub open spec fn is_space(c: char) -> bool {
    c == ' ' || c == '\t' || c == '\n' || c == '\r' || c == '\u{b}' || c == '\u{c}'
}

/// A decimal digit `'0'..='9'`.
pub open spec fn is_digit(c: char) -> bool {
    48 <= (c as u32) && (c as u32) <= 57
}

/// The numeric value of a digit character.
pub open spec fn digit_val(c: char) -> int {
    (c as u32) - 48
}

/// Every character of `s` is a decimal digit.
pub open spec fn all_digits(s: Seq<char>) -> bool {
    forall|i: int| 0 <= i < s.len() ==> is_digit(#[trigger] s[i])
}

/// The value of a digit sequence read in base 10 (0 for the empty sequence).
pub open spec fn digits_val(s: Seq<char>) -> int
    decreases s.len(),
{
    if s.len() == 0 {
        0
    } else {
        digits_val(s.drop_last()) * 10 + digit_val(s.last())
    }
}

/// Ten to the power `n`.
pub open spec fn pow10(n: nat) -> int
    decreases n,
{
    if n == 0 {
        1
    } else {
        10 * pow10((n - 1) as nat)
    }
}

/// `s` without its leading whitespace.
pub open spec fn trim_front(s: Seq<char>) -> Seq<char>
    decreases s.len(),
{
    if s.len() > 0 && is_space(s[0]) {
        trim_front(s.subrange(1, s.len() as int))
    } else {
        s
    }
}

/// `s` without its trailing whitespace.
pub open spec fn trim_back(s: Seq<char>) -> Seq<char>
    decreases s.len(),
{
    if s.len() > 0 && is_space(s.last()) {
        trim_back(s.drop_last())
    } else {
        s
    }
}

/// `s` without leading and trailing whitespace.
pub open spec fn trimmed(s: Seq<char>) -> Seq<char> {
    trim_back(trim_front(s))
}

proof fn lemma_trim_front_skip(s: Seq<char>, a: int)
    requires
        0 <= a <= s.len(),
        forall|j: int| 0 <= j < a ==> is_space(#[trigger] s[j]),
        a == s.len() || !is_space(s[a]),
    ensures
        trim_front(s) == s.subrange(a, s.len() as int),
    decreases a,
{
    if a == 0 {
        assert(s.subrange(0, s.len() as int) =~= s);
    } else {
        let t = s.subrange(1, s.len() as int);
        lemma_trim_front_skip(t, a - 1);
        assert(t.subrange(a - 1, t.len() as int) =~= s.subrange(a, s.len() as int));
    }
}

proof fn lemma_trim_back_take(s: Seq<char>, b: int)
    requires
        0 <= b <= s.len(),
        forall|j: int| b <= j < s.len() ==> is_space(#[trigger] s[j]),
        b == 0 || !is_space(s[b - 1]),
    ensures
        trim_back(s) == s.subrange(0, b),
    decreases s.len() - b,
{
    if b == s.len() {
        if s.len() == 0 || !is_space(s.last()) {
            assert(s.subrange(0, s.len() as int) =~= s);
        } else {
            assert(!is_space(s[b - 1]));
            assert(false);
        }
    } else {
        let t = s.drop_last();
        lemma_trim_back_take(t, b);
        assert(t.subrange(0, b) =~= s.subrange(0, b));
    }
}

/// The bounds of the non-whitespace middle of `s`: `trimmed(s@)` is exactly
/// `s@.subrange(r.0, r.1)`.
pub fn trim_bounds(s: &str) -> (r: (usize, usize))
    ensures
        r.0 <= r.1 <= s@.len(),
        trimmed(s@) == s@.subrange(r.0 as int, r.1 as int),
        r.0 == r.1 || (!is_space(s@[r.0 as int]) && !is_space(s@[r.1 - 1])),
{
    let n = s.unicode_len();
    let mut a: usize = 0;
    while a < n && is_space_exec(s.get_char(a))
        invariant
            0 <= a <= n,
            n == s@.len(),
            forall|j: int| 0 <= j < a ==> is_space(#[trigger] s@[j]),
        decreases n - a,
    {
        a = a + 1;
    }
    let mut b: usize = n;
    while b > a && is_space_exec(s.get_char(b - 1))
        invariant
            a <= b <= n,
            n == s@.len(),
            forall|j: int| b <= j < n ==> is_space(#[trigger] s@[j]),
        decreases b,
    {
        b = b - 1;
    }
    proof {
        lemma_trim_front_skip(s@, a as int);
        let t = s@.subrange(a as int, n as int);
        if b == a {
            lemma_trim_back_take(t, 0);
        } else {
            lemma_trim_back_take(t, b - a);
        }
        assert(t.subrange(0, b - a) =~= s@.subrange(a as int, b as int));
    }
    (a, b)
}

/// Whitespace test used by the trimming loops.
fn is_space_exec(c: char) -> (r: bool)
    ensures
        r == is_space(c),
{
    c == ' ' || c == '\t' || c == '\n' || c == '\r' || c == '\u{b}' || c == '\u{c}'
}

proof fn lemma_trim_front_props(s: Seq<char>)
    ensures
        trim_front(s).len() == 0 || !is_space(trim_front(s)[0]),
    decreases s.len(),
{
    if s.len() > 0 && is_space(s[0]) {
        lemma_trim_front_props(s.subrange(1, s.len() as int));
    }
}

proof fn lemma_trim_back_props(s: Seq<char>)
    ensures
        trim_back(s).len() == 0 || !is_space(trim_back(s).last()),
        trim_back(s).len() <= s.len(),
        trim_back(s) == s.subrange(0, trim_back(s).len() as int),
    decreases s.len(),
{
    if s.len() > 0 && is_space(s.last()) {
        lemma_trim_back_props(s.drop_last());
        assert(s.drop_last().subrange(0, trim_back(s).len() as int) =~= s.subrange(
            0,
            trim_back(s).len() as int,
        ));
    } else {
        assert(s.subrange(0, s.len() as int) =~= s);
    }
}

/// Trimming is idempotent: a trimmed field trims to itself.
pub proof fn lemma_trimmed_idempotent(s: Seq<char>)
    ensures
        trimmed(trimmed(s)) == trimmed(s),
{
    let tf = trim_front(s);
    let t = trim_back(tf);
    lemma_trim_front_props(s);
    lemma_trim_back_props(tf);
    if t.len() > 0 {
        assert(t[0] == tf[0]);
        assert(!is_space(t[0]));
        assert(!is_space(t.last()));
    }
}

/// `s` without a single leading `+`, which unsigned fields accept.
pub open spec fn strip_plus(s: Seq<char>) -> Seq<char> {
    if s.len() > 0 && s[0] == '+' {
        s.subrange(1, s.len() as int)
    } else {
        s
    }
}

/// An unsigned decimal field: optional `+`, then one or more digits.
pub open spec fn uint_shape_ok(s: Seq<char>) -> bool {
    strip_plus(s).len() > 0 && all_digits(strip_plus(s))
}

/// What parsing an unsigned decimal field bounded by `max` yields.
pub open spec fn spec_parse_uint(s: Seq<char>, max: int) -> Result<int, ParseFailure> {
    if s.len() == 0 {
        Result::Err(ParseFailure::Empty)
    } else if !uint_shape_ok(s) {
        Result::Err(ParseFailure::InvalidDigit)
    } else if digits_val(strip_plus(s)) > max {
        Result::Err(ParseFailure::OutOfRange)
    } else {
        Result::Ok(digits_val(strip_plus(s)))
    }
}

/// Parses an unsigned decimal field, rejecting values above `max`.
pub fn parse_uint(s: &str, max: u64) -> (r: Result<u64, ParseFailure>)
    requires
        max <= u32::MAX as u64,
    ensures
        (match r {
            Result::Ok(v) => v <= max && spec_parse_uint(s@, max as int) == Result::Ok::<
                int,
                ParseFailure,
            >(v as int),
            Result::Err(e) => spec_parse_uint(s@, max as int) == Result::Err::<
                int,
                ParseFailure,
            >(e),
        }),
{
    let n = s.unicode_len();
    if n == 0 {
        return Result::Err(ParseFailure::Empty);
    }
    let start: usize = if s.get_char(0) == '+' {
        1
    } else {
        0
    };
    proof {
        assert(strip_plus(s@) =~= s@.subrange(start as int, n as int));
    }
    if n == start {
        return Result::Err(ParseFailure::InvalidDigit);
    }
    let mut acc: u64 = 0;
    let mut over: bool = false;
    let mut i: usize = start;
    while i < n
        invariant
            start <= i <= n,
            n == s@.len(),
            max <= u32::MAX as u64,
            strip_plus(s@) == s@.subrange(start as int, n as int),
            forall|j: int| start <= j < i ==> is_digit(#[trigger] s@[j]),
            0 <= digits_val(s@.subrange(start as int, i as int)),
            !over ==> acc == digits_val(s@.subrange(start as int, i as int)) && acc <= max,
            over ==> digits_val(s@.subrange(start as int, i as int)) > max,
        decreases n - i,
    {
        let c = s.get_char(i);
        let u = c as u32;
        if !(48 <= u && u <= 57) {
            proof {
                assert(strip_plus(s@)[i - start] == s@[i as int]);
            }
            return Result::Err(ParseFailure::InvalidDigit);
        }
        let d = (u - 48) as u64;
        proof {
            assert(s@.subrange(start as int, i + 1).drop_last() =~= s@.subrange(
                start as int,
                i as int,
            ));
        }
        if !over {
            acc = acc * 10 + d;
            if acc > max {
                over = true;
            }
        }
        i = i + 1;
    }
    if over {
        Result::Err(ParseFailure::OutOfRange)
    } else {
        Result::Ok(acc)
    }
}

/// Index of the first `.` in `s`, if any.
pub open spec fn first_dot(s: Seq<char>) -> Option<int>
    decreases s.len(),
{
    if s.len() == 0 {
        Option::None
    } else if s[0] == '.' {
        Option::Some(0)
    } else {
        match first_dot(s.subrange(1, s.len() as int)) {
            Option::None => Option::None,
            Option::Some(i) => Option::Some(i + 1),
        }
    }
}

proof fn lemma_first_dot_at(s: Seq<char>, d: int)
    requires
        0 <= d < s.len(),
        s[d] == '.',
        forall|j: int| 0 <= j < d ==> #[trigger] s[j] != '.',
    ensures
        first_dot(s) == Option::Some(d),
    decreases d,
{
    if d > 0 {
        lemma_first_dot_at(s.subrange(1, s.len() as int), d - 1);
    }
}

proof fn lemma_first_dot_none(s: Seq<char>)
    requires
        forall|j: int| 0 <= j < s.len() ==> #[trigger] s[j] != '.',
    ensures
        first_dot(s) is None,
    decreases s.len(),
{
    if s.len() > 0 {
        lemma_first_dot_none(s.subrange(1, s.len() as int));
    }
}

proof fn lemma_first_dot_props(s: Seq<char>)
    ensures
        match first_dot(s) {
            Option::Some(d) => 0 <= d < s.len() && s[d] == '.' && forall|j: int|
                0 <= j < d ==> #[trigger] s[j] != '.',
            Option::None => forall|j: int| 0 <= j < s.len() ==> #[trigger] s[j] != '.',
        },
    decreases s.len(),
{
    if s.len() > 0 && s[0] != '.' {
        let t = s.subrange(1, s.len() as int);
        lemma_first_dot_props(t);
        match first_dot(t) {
            Option::Some(d) => {
                assert(s[d + 1] == t[d]);
                assert forall|j: int| 0 <= j < d + 1 implies #[trigger] s[j] != '.' by {
                    if j > 0 {
                        assert(t[j - 1] == s[j]);
                    }
                }
            },
            Option::None => {
                assert forall|j: int| 0 <= j < s.len() implies #[trigger] s[j] != '.' by {
                    if j > 0 {
                        assert(t[j - 1] == s[j]);
                    }
                }
            },
        }
    }
}

/// The amount field denotes a negative number.
pub open spec fn amount_negative(s: Seq<char>) -> bool {
    s.len() > 0 && s[0] == '-'
}

/// `s` without a single leading sign character.
pub open spec fn signed_body(s: Seq<char>) -> Seq<char> {
    if s.len() > 0 && (s[0] == '-' || s[0] == '+') {
        s.subrange(1, s.len() as int)
    } else {
        s
    }
}

/// The fractional digits scaled to exactly four places; digits past the
/// fourth are truncated.
pub open spec fn frac_scaled(f: Seq<char>) -> int {
    if f.len() >= 4 {
        digits_val(f.subrange(0, 4))
    } else {
        digits_val(f) * pow10((4 - f.len()) as nat)
    }
}

/// The unsigned part of an amount is well-formed: digits with at most one
/// `.` between them, and at least one digit overall.
pub open spec fn body_ok(b: Seq<char>) -> bool {
    match first_dot(b) {
        Option::None => b.len() >= 1 && all_digits(b),
        Option::Some(d) => b.len() >= 2 && all_digits(b.subrange(0, d)) && all_digits(
            b.subrange(d + 1, b.len() as int),
        ),
    }
}

/// The magnitude of a well-formed amount body, in fixed-point units of
/// one ten-thousandth.
pub open spec fn body_mag(b: Seq<char>) -> int {
    match first_dot(b) {
        Option::None => digits_val(b) * 10000,
        Option::Some(d) => digits_val(b.subrange(0, d)) * 10000 + frac_scaled(
            b.subrange(d + 1, b.len() as int),
        ),
    }
}

/// What parsing an amount field yields: a signed fixed-point value with
/// four fractional digits, of magnitude at most `i64::MAX`.
pub open spec fn spec_parse_amount(s: Seq<char>) -> Result<int, ParseFailure> {
    if s.len() == 0 {
        Result::Err(ParseFailure::Empty)
    } else if !body_ok(signed_body(s)) {
        Result::Err(ParseFailure::InvalidDigit)
    } else if body_mag(signed_body(s)) > i64::MAX {
        Result::Err(ParseFailure::OutOfRange)
    } else if amount_negative(s) {
        Result::Ok(-body_mag(signed_body(s)))
    } else {
        Result::Ok(body_mag(signed_body(s)))
    }
}

/// Largest integer part that can still yield a magnitude within `i64`,
/// used to cut accumulation off before `u64` overflow.
pub const IP_LIMIT: u64 = 922337203685477;

/// Parses a decimal amount field into fixed-point units.
#[verifier::rlimit(60)]
pub fn parse_amount(s: &str) -> (r: Result<i64, ParseFailure>)
    ensures
        (match r {
            Result::Ok(v) => spec_parse_amount(s@) == Result::Ok::<int, ParseFailure>(v as int),
            Result::Err(e) => spec_parse_amount(s@) == Result::Err::<int, ParseFailure>(e),
        }),
{
    let n = s.unicode_len();
    if n == 0 {
        return Result::Err(ParseFailure::Empty);
    }
    let c0 = s.get_char(0);
    let start: usize = if c0 == '-' || c0 == '+' {
        1
    } else {
        0
    };
    let neg = c0 == '-';
    let ghost b = signed_body(s@);
    proof {
        assert(b =~= s@.subrange(start as int, n as int));
    }
    // First pass: locate the dot and check every other character is a digit.
    let mut dot: usize = n;
    let mut seen_dot: bool = false;
    let mut i: usize = start;
    while i < n
        invariant
            start <= i <= n,
            n == s@.len(),
            b == s@.subrange(start as int, n as int),
            b == signed_body(s@),
            s@.len() > 0,
            seen_dot ==> start <= dot < i && s@[dot as int] == '.' && forall|j: int|
                start <= j < dot ==> #[trigger] s@[j] != '.',
            !seen_dot ==> dot == n && forall|j: int| start <= j < i ==> #[trigger] s@[j] != '.',
            forall|j: int| start <= j < i && j != dot ==> is_digit(#[trigger] s@[j]),
        decreases n - i,
    {
        let c = s.get_char(i);
        if c == '.' {
            if seen_dot {
                proof {
                    assert forall|j: int| 0 <= j < dot - start implies #[trigger] b[j] != '.' by {
                        assert(b[j] == s@[j + start]);
                    }
                    lemma_first_dot_at(b, dot - start);
                    assert(!body_ok(b)) by {
                        let fpx = b.subrange(dot - start + 1, b.len() as int);
                        assert(fpx[i - dot - 1] == s@[i as int]);
                        assert(!is_digit(fpx[i - dot - 1]));
                    }
                }
                return Result::Err(ParseFailure::InvalidDigit);
            }
            seen_dot = true;
            dot = i;
        } else {
            let u = c as u32;
            if !(48 <= u && u <= 57) {
                proof {
                    assert(!is_digit(s@[i as int]));
                    if seen_dot {
                        assert forall|j: int| 0 <= j < dot - start implies #[trigger] b[j] != '.' by {
                            assert(b[j] == s@[j + start]);
                        }
                        lemma_first_dot_at(b, dot - start);
                        assert(!body_ok(b)) by {
                            let fpx = b.subrange(dot - start + 1, b.len() as int);
                            assert(fpx[i - dot - 1] == s@[i as int]);
                        }
                    } else {
                        lemma_first_dot_props(b);
                        assert(!body_ok(b)) by {
                            match first_dot(b) {
                                Option::Some(d) => {
                                    assert(b[d] == '.');
                                    assert(b[i - start] == s@[i as int]);
                                    assert(d != i - start);
                                    if d < i - start {
                                        assert(s@[d + start] == '.');
                                        assert(false);
                                    } else {
                                        assert(b.subrange(0, d)[i - start] == s@[i as int]);
                                    }
                                },
                                Option::None => {
                                    assert(b[i - start] == s@[i as int]);
                                },
                            }
                        }
                    }
                }
                return Result::Err(ParseFailure::InvalidDigit);
            }
        }
        i = i + 1;
    }
    proof {
        if seen_dot {
            assert forall|j: int| 0 <= j < dot - start implies #[trigger] b[j] != '.' by {
                assert(b[j] == s@[j + start]);
            }
            lemma_first_dot_at(b, dot - start);
        } else {
            assert forall|j: int| 0 <= j < b.len() implies #[trigger] b[j] != '.' by {
                assert(b[j] == s@[j + start]);
            }
            lemma_first_dot_none(b);
        }
    }
    if n - start < 1 || (seen_dot && n - start < 2) {
        return Result::Err(ParseFailure::InvalidDigit);
    }
    let ghost ip = if seen_dot {
        b.subrange(0, dot - start)
    } else {
        b
    };
    let ghost fp = if seen_dot {
        b.subrange(dot - start + 1, b.len() as int)
    } else {
        Seq::<char>::empty()
    };
    proof {
        assert(body_ok(b)) by {
            assert forall|j: int| 0 <= j < ip.len() implies is_digit(#[trigger] ip[j]) by {
                assert(ip[j] == s@[j + start]);
            }
            assert forall|j: int| 0 <= j < fp.len() implies is_digit(#[trigger] fp[j]) by {
                if seen_dot {
                    assert(fp[j] == s@[j + dot + 1]);
                }
            }
        }
    }
    // Second pass: the fractional value, scaled to four digits.
    let fp_from: usize = if seen_dot {
        dot + 1
    } else {
        n
    };
    let fp_len: usize = n - fp_from;
    let m: usize = if fp_len < 4 {
        fp_len
    } else {
        4
    };
    let mut frac: u64 = 0;
    let mut j: usize = 0;
    while j < m
        invariant
            0 <= j <= m,
            m <= 4,
            m <= fp_len,
            fp_from + fp_len == n,
            n == s@.len(),
            forall|k: int| fp_from <= k < n ==> is_digit(#[trigger] s@[k]),
            fp =~= s@.subrange(fp_from as int, n as int),
            frac == digits_val(fp.subrange(0, j as int)),
            0 <= frac < pow10(j as nat),
        decreases m - j,
    {
        let c = s.get_char(fp_from + j);
        let u = c as u32;
        proof {
            assert(is_digit(s@[fp_from + j]));
            assert(pow10(0) == 1);
            assert(pow10(1) == 10);
            assert(pow10(2) == 100);
            assert(pow10(3) == 1000);
            assert(pow10(4) == 10000);
        }
        let d = (u - 48) as u64;
        proof {
            assert(fp.subrange(0, j + 1).drop_last() =~= fp.subrange(0, j as int));
            assert(fp.subrange(0, j + 1).last() == s@[fp_from + j]);
        }
        frac = frac * 10 + d;
        j = j + 1;
    }
    let ghost dvm = digits_val(fp.subrange(0, m as int));
    proof {
        assert(pow10(0) == 1);
        assert(pow10(1) == 10);
        assert(pow10(2) == 100);
        assert(pow10(3) == 1000);
        assert(pow10(4) == 10000);
        assert(frac == dvm);
    }
    if m == 0 {
        frac = frac * 10000;
    } else if m == 1 {
        frac = frac * 1000;
    } else if m == 2 {
        frac = frac * 100;
    } else if m == 3 {
        frac = frac * 10;
    }
    proof {
        assert(frac == dvm * pow10((4 - m) as nat)) by {
            assert(pow10(0) == 1);
            assert(pow10(1) == 10);
            assert(pow10(2) == 100);
            assert(pow10(3) == 1000);
            assert(pow10(4) == 10000);
            if m == 0 {
                assert(pow10((4 - m) as nat) == 10000);
            } else if m == 1 {
                assert(pow10((4 - m) as nat) == 1000);
            } else if m == 2 {
                assert(pow10((4 - m) as nat) == 100);
            } else if m == 3 {
                assert(pow10((4 - m) as nat) == 10);
            } else {
                assert(pow10((4 - m) as nat) == 1);
            }
        }
        assert(frac == frac_scaled(fp)) by {
            if fp.len() >= 4 {
                assert(m == 4);
            } else {
                assert(fp.subrange(0, m as int) =~= fp);
            }
        }
        assert(frac < 10000);
    }
    // Third pass: the integer part, cut off once it can no longer fit.
    let ip_end: usize = if seen_dot {
        dot
    } else {
        n
    };
    let mut acc: u64 = 0;
    let mut over: bool = false;
    let mut k: usize = start;
    while k < ip_end
        invariant
            start <= k <= ip_end <= n,
            n == s@.len(),
            forall|j2: int| start <= j2 < ip_end ==> is_digit(#[trigger] s@[j2]),
            ip =~= s@.subrange(start as int, ip_end as int),
            0 <= digits_val(s@.subrange(start as int, k as int)),
            !over ==> acc == digits_val(s@.subrange(start as int, k as int)) && acc
                <= IP_LIMIT as u64,
            over ==> digits_val(s@.subrange(start as int, k as int)) > IP_LIMIT as int,
        decreases ip_end - k,
    {
        let u = s.get_char(k) as u32;
        let d = (u - 48) as u64;
        proof {
            assert(s@.subrange(start as int, k + 1).drop_last() =~= s@.subrange(
                start as int,
                k as int,
            ));
        }
        if !over {
            acc = acc * 10 + d;
            if acc > IP_LIMIT {
                over = true;
            }
        }
        k = k + 1;
    }
    proof {
        assert(digits_val(ip) == digits_val(s@.subrange(start as int, ip_end as int)));
    }
    if over {
        proof {
            assert(digits_val(ip) * 10000 >= 922337203685478int * 10000);
            assert(frac_scaled(fp) >= 0);
        }
        return Result::Err(ParseFailure::OutOfRange);
    }
    let mag: u64 = acc * 10000 + frac;
    proof {
        assert(mag == body_mag(b));
    }
    if mag > 0x7fffffffffffffff {
        return Result::Err(ParseFailure::OutOfRange);
    }
    let v = mag as i64;
    if neg {
        Result::Ok(-v)
    } else {
        Result::Ok(v)
    }
}

} // verus!
