//! Reading a digit count from text: a plain integer, an integer with a
//! `K`, `M`, `G` or `T` suffix (any case), or `<int>e<int>`.
use vstd::arithmetic::power::{lemma_pow_increases, pow};
use vstd::prelude::*;

verus! {

/// Why a digit count could not be read.
#[derive(Clone, Copy, Debug, PartialEq, Eq, Structural)]
pub enum DigitSpecError {
    /// Nothing but white space.
    Empty,
    /// An `e` or `E` with nothing before or after it.
    InvalidScientific,
    /// The part before `e` is not an unsigned 64-bit integer.
    InvalidMantissa,
    /// The part after `e` is not an unsigned 32-bit integer.
    InvalidExponent,
    /// `10` to the exponent does not fit in 64 bits.
    ExponentTooLarge,
    /// The value does not fit in 64 bits.
    Overflow,
    /// The value fits in 64 bits but exceeds `u32::MAX`.
    TooManyDigits(u64),
    /// A suffix with no number before it.
    MissingNumber,
    /// The number before the suffix is not an unsigned 64-bit integer.
    InvalidNumber,
}

/// Unicode's White_Space property.
pub open spec fn is_white_space(c: char) -> bool {
    let x = c as u32;
    ||| 0x9 <= x <= 0xd
    ||| x == 0x20
    ||| x == 0x85
    ||| x == 0xa0
    ||| x == 0x1680
    ||| 0x2000 <= x <= 0x200a
    ||| x == 0x2028
    ||| x == 0x2029
    ||| x == 0x202f
    ||| x == 0x205f
    ||| x == 0x3000
}

/// The index of the first character at or after `i` that is not white space
/// (the length if there is none).
pub open spec fn first_kept(s: Seq<char>, i: int) -> int
    decreases s.len() - i,
{
    if i >= s.len() {
        s.len() as int
    } else if is_white_space(s[i]) {
        first_kept(s, i + 1)
    } else {
        i
    }
}

/// The end of `s[lo..j]` once trailing white space is cut off.
pub open spec fn last_kept(s: Seq<char>, lo: int, j: int) -> int
    decreases j - lo,
{
    if j <= lo {
        lo
    } else if is_white_space(s[j - 1]) {
        last_kept(s, lo, j - 1)
    } else {
        j
    }
}

/// `s` without leading and trailing white space.
pub open spec fn trimmed(s: Seq<char>) -> Seq<char> {
    let lo = first_kept(s, 0);
    s.subrange(lo, last_kept(s, lo, s.len() as int))
}

pub open spec fn is_exponent_marker(c: char) -> bool {
    c == 'e' || c == 'E'
}

/// The index of the first `e` or `E` at or after `i`, or -1.
pub open spec fn marker_from(s: Seq<char>, i: int) -> int
    decreases s.len() - i,
{
    if i >= s.len() {
        -1
    } else if is_exponent_marker(s[i]) {
        i
    } else {
        marker_from(s, i + 1)
    }
}

pub open spec fn is_digit(c: char) -> bool {
    '0' <= c <= '9'
}

pub open spec fn all_digits(s: Seq<char>) -> bool {
    forall|i: int| 0 <= i < s.len() ==> is_digit(#[trigger] s[i])
}

/// The value of a string of decimal digits.
pub open spec fn digits_value(s: Seq<char>) -> nat
    decreases s.len(),
{
    if s.len() == 0 {
        0
    } else {
        digits_value(s.drop_last()) * 10 + (s.last() as nat - 48) as nat
    }
}

/// An unsigned decimal integer: an optional `+`, then one or more digits.
pub open spec fn unsigned_text(s: Seq<char>) -> Option<nat> {
    let body = if s.len() > 0 && s[0] == '+' {
        s.drop_first()
    } else {
        s
    };
    if body.len() > 0 && all_digits(body) {
        Some(digits_value(body))
    } else {
        None
    }
}

/// `unsigned_text(s)` where its value is at most `max`.
pub open spec fn bounded_text(s: Seq<char>, max: nat) -> Option<nat> {
    match unsigned_text(s) {
        Some(v) => if v <= max {
            Some(v)
        } else {
            None
        },
        None => None,
    }
}

/// The factor of a size suffix, or 0 for a character that is none.
pub open spec fn suffix_factor(c: char) -> nat {
    if c == 'k' || c == 'K' {
        1_000
    } else if c == 'm' || c == 'M' {
        1_000_000
    } else if c == 'g' || c == 'G' {
        1_000_000_000
    } else if c == 't' || c == 'T' {
        1_000_000_000_000
    } else {
        0
    }
}

/// A 64-bit value as a digit count, refused above `u32::MAX`.
pub open spec fn within_u32(v: nat) -> Result<u32, DigitSpecError> {
    if v > u32::MAX {
        Err(DigitSpecError::TooManyDigits(v as u64))
    } else {
        Ok(v as u32)
    }
}

/// `<mantissa>e<exponent>`, already split at the marker.
pub open spec fn scientific_value(m: Seq<char>, e: Seq<char>) -> Result<u32, DigitSpecError> {
    if m.len() == 0 || e.len() == 0 {
        Err(DigitSpecError::InvalidScientific)
    } else {
        match bounded_text(m, u64::MAX as nat) {
            None => Err(DigitSpecError::InvalidMantissa),
            Some(mv) => match bounded_text(e, u32::MAX as nat) {
                None => Err(DigitSpecError::InvalidExponent),
                Some(ev) => if pow(10, ev) > u64::MAX {
                    Err(DigitSpecError::ExponentTooLarge)
                } else if mv * pow(10, ev) > u64::MAX {
                    Err(DigitSpecError::Overflow)
                } else {
                    within_u32((mv * pow(10, ev)) as nat)
                },
            },
        }
    }
}

/// A number with an optional size suffix; `t` is not empty.
pub open spec fn suffixed_value(t: Seq<char>) -> Result<u32, DigitSpecError> {
    let f = suffix_factor(t.last());
    let num = if f > 0 {
        t.drop_last()
    } else {
        t
    };
    let factor = if f > 0 {
        f
    } else {
        1
    };
    if num.len() == 0 {
        Err(DigitSpecError::MissingNumber)
    } else {
        match bounded_text(num, u64::MAX as nat) {
            None => Err(DigitSpecError::InvalidNumber),
            Some(b) => if b * factor > u64::MAX {
                Err(DigitSpecError::Overflow)
            } else {
                within_u32(b * factor)
            },
        }
    }
}

/// The digit count that the text `s` denotes, or why it denotes none.
pub open spec fn digit_spec_value(s: Seq<char>) -> Result<u32, DigitSpecError> {
    let t = trimmed(s);
    if t.len() == 0 {
        Err(DigitSpecError::Empty)
    } else if marker_from(t, 0) >= 0 {
        let pos = marker_from(t, 0);
        scientific_value(t.subrange(0, pos), t.subrange(pos + 1, t.len() as int))
    } else {
        suffixed_value(t)
    }
}

/// Relies on `char::is_whitespace`: true exactly for White_Space characters.
#[verifier::external_body]
fn is_space(c: char) -> (r: bool)
    ensures
        r == is_white_space(c),
{
    c.is_whitespace()
}

fn chars_of(text: &str) -> (r: Vec<char>)
    ensures
        r@ == text@,
{
    let n = text.unicode_len();
    let mut r: Vec<char> = Vec::new();
    let mut i: usize = 0;
    while i < n
        invariant
            n == text@.len(),
            i <= n,
            r@ == text@.subrange(0, i as int),
        decreases n - i,
    {
        r.push(text.get_char(i));
        assert(r@ =~= text@.subrange(0, i + 1));
        i = i + 1;
    }
    assert(r@ =~= text@);
    r
}

/// The bounds `[lo, hi)` of `cs` without its leading and trailing white space.
fn trim_bounds(cs: &Vec<char>) -> (r: (usize, usize))
    ensures
        r.0 <= r.1 <= cs@.len(),
        cs@.subrange(r.0 as int, r.1 as int) == trimmed(cs@),
{
    let n = cs.len();
    let mut lo: usize = 0;
    while lo < n && is_space(cs[lo])
        invariant
            n == cs@.len(),
            lo <= n,
            first_kept(cs@, lo as int) == first_kept(cs@, 0),
        decreases n - lo,
    {
        lo = lo + 1;
    }
    let mut hi: usize = n;
    while hi > lo && is_space(cs[hi - 1])
        invariant
            n == cs@.len(),
            lo <= hi <= n,
            first_kept(cs@, 0) == lo,
            last_kept(cs@, lo as int, hi as int) == last_kept(cs@, lo as int, n as int),
        decreases hi,
    {
        hi = hi - 1;
    }
    (lo, hi)
}

proof fn lemma_prefix_value_below(s: Seq<char>, k: int)
    requires
        all_digits(s),
        0 <= k <= s.len(),
    ensures
        digits_value(s.subrange(0, k)) <= digits_value(s),
    decreases s.len(),
{
    if k < s.len() {
        let d = s.drop_last();
        assert(all_digits(d)) by {
            assert forall|i: int| 0 <= i < d.len() implies is_digit(#[trigger] d[i]) by {
                assert(d[i] == s[i]);
            }
        }
        lemma_prefix_value_below(d, k);
        assert(s.subrange(0, k) =~= d.subrange(0, k));
    } else {
        assert(s.subrange(0, k) =~= s);
    }
}

/// Reads `cs[lo..hi]` as an unsigned decimal integer of at most `max`.
fn read_unsigned(cs: &Vec<char>, lo: usize, hi: usize, max: u64) -> (r: Option<u64>)
    requires
        lo <= hi <= cs@.len(),
        max >= 9,
    ensures
        r is Some <==> bounded_text(cs@.subrange(lo as int, hi as int), max as nat) is Some,
        r is Some ==> r->0 as nat == bounded_text(cs@.subrange(lo as int, hi as int), max as nat)->0,
{
    let ghost x = cs@.subrange(lo as int, hi as int);
    let mut start = lo;
    if lo < hi && cs[lo] == '+' {
        start = lo + 1;
    }
    let ghost body = cs@.subrange(start as int, hi as int);
    assert(body =~= if x.len() > 0 && x[0] == '+' { x.drop_first() } else { x });
    if start == hi {
        return None;
    }
    let mut v: u64 = 0;
    let mut i: usize = start;
    while i < hi
        invariant
            max >= 9,
            lo <= start < hi <= cs@.len(),
            start <= i <= hi,
            body == cs@.subrange(start as int, hi as int),
            x == cs@.subrange(lo as int, hi as int),
            body == (if x.len() > 0 && x[0] == '+' {
                x.drop_first()
            } else {
                x
            }),
            all_digits(cs@.subrange(start as int, i as int)),
            v as nat == digits_value(cs@.subrange(start as int, i as int)),
            v <= max,
        decreases hi - i,
    {
        let c = cs[i];
        if !('0' <= c && c <= '9') {
            assert(!all_digits(body)) by {
                assert(body[i - start] == c);
                assert(!is_digit(body[i - start]));
            }
            return None;
        }
        let d = (c as u32 - 48) as u64;
        let ghost next = cs@.subrange(start as int, i + 1);
        assert(next.drop_last() =~= cs@.subrange(start as int, i as int));
        assert(all_digits(next)) by {
            assert forall|j: int| 0 <= j < next.len() implies is_digit(#[trigger] next[j]) by {
                if j < next.len() - 1 {
                    assert(next[j] == cs@.subrange(start as int, i as int)[j]);
                }
            }
        }
        if v > (max - d) / 10 {
            assert(v * 10 + d > max) by (nonlinear_arith)
                requires
                    v > (max - d) / 10,
                    d <= max,
            ;
            proof {
                if all_digits(body) {
                    assert(body.subrange(0, i + 1 - start) =~= next);
                    lemma_prefix_value_below(body, i + 1 - start);
                }
            }
            return None;
        }
        assert(v * 10 + d <= max) by (nonlinear_arith)
            requires
                v <= (max - d) / 10,
                d <= max,
        ;
        v = v * 10 + d;
        i = i + 1;
    }
    assert(cs@.subrange(start as int, i as int) =~= body);
    Some(v)
}

/// `10^e`, or `None` where it exceeds `u64::MAX`.
fn checked_pow10(e: u64) -> (r: Option<u64>)
    ensures
        r is Some <==> pow(10, e as nat) <= u64::MAX,
        r is Some ==> r->0 as int == pow(10, e as nat),
{
    let mut p: u64 = 1;
    let mut i: u64 = 0;
    proof {
        reveal(pow);
    }
    while i < e
        invariant
            i <= e,
            p as int == pow(10, i as nat),
        decreases e - i,
    {
        proof {
            reveal(pow);
        }
        if p > u64::MAX / 10 {
            proof {
                assert(pow(10, (i + 1) as nat) == 10 * pow(10, i as nat));
                lemma_pow_increases(10, (i + 1) as nat, e as nat);
            }
            return None;
        }
        p = p * 10;
        i = i + 1;
    }
    Some(p)
}

fn suffix_factor_of(c: char) -> (r: u64)
    ensures
        r as nat == suffix_factor(c),
{
    if c == 'k' || c == 'K' {
        1_000
    } else if c == 'm' || c == 'M' {
        1_000_000
    } else if c == 'g' || c == 'G' {
        1_000_000_000
    } else if c == 't' || c == 'T' {
        1_000_000_000_000
    } else {
        0
    }
}

fn digit_count_of(v: u64) -> (r: Result<u32, DigitSpecError>)
    ensures
        r == within_u32(v as nat),
{
    if v > u32::MAX as u64 {
        Err(DigitSpecError::TooManyDigits(v))
    } else {
        Ok(v as u32)
    }
}

/// Reads a digit count such as `"123"`, `"1K"`, `"10m"`, `"2G"` or `"1e6"`
/// (suffixes `K`, `M`, `G`, `T` in either case stand for `10^3`, `10^6`,
/// `10^9`, `10^12`); white space around it is ignored. The value must fit
/// in a `u32`.
pub fn parse_digit_spec(spec: &str) -> (r: Result<u32, DigitSpecError>)
    ensures
        r == digit_spec_value(spec@),
{
    let cs = chars_of(spec);
    let (lo, hi) = trim_bounds(&cs);
    let ghost t = cs@.subrange(lo as int, hi as int);
    if lo == hi {
        return Err(DigitSpecError::Empty);
    }
    let mut pos = lo;
    while pos < hi && !(cs[pos] == 'e' || cs[pos] == 'E')
        invariant
            lo <= pos <= hi <= cs@.len(),
            t == cs@.subrange(lo as int, hi as int),
            marker_from(t, pos - lo) == marker_from(t, 0),
        decreases hi - pos,
    {
        pos = pos + 1;
    }
    if pos < hi {
        assert(marker_from(t, 0) == pos - lo);
        assert(t.subrange(0, pos - lo) =~= cs@.subrange(lo as int, pos as int));
        assert(t.subrange(pos - lo + 1, t.len() as int) =~= cs@.subrange(pos + 1, hi as int));
        if pos == lo || pos + 1 == hi {
            return Err(DigitSpecError::InvalidScientific);
        }
        let mantissa = match read_unsigned(&cs, lo, pos, u64::MAX) {
            Some(m) => m,
            None => {
                return Err(DigitSpecError::InvalidMantissa);
            },
        };
        let exponent = match read_unsigned(&cs, pos + 1, hi, u32::MAX as u64) {
            Some(e) => e,
            None => {
                return Err(DigitSpecError::InvalidExponent);
            },
        };
        let multiplier = match checked_pow10(exponent) {
            Some(p) => p,
            None => {
                return Err(DigitSpecError::ExponentTooLarge);
            },
        };
        let value = match mantissa.checked_mul(multiplier) {
            Some(v) => v,
            None => {
                return Err(DigitSpecError::Overflow);
            },
        };
        digit_count_of(value)
    } else {
        assert(marker_from(t, 0) < 0);
        assert(t.last() == cs@[hi - 1]);
        let f = suffix_factor_of(cs[hi - 1]);
        let (end, factor) = if f > 0 {
            (hi - 1, f)
        } else {
            (hi, 1u64)
        };
        assert(cs@.subrange(lo as int, end as int) =~= (if f > 0 {
            t.drop_last()
        } else {
            t
        }));
        if end == lo {
            return Err(DigitSpecError::MissingNumber);
        }
        let base = match read_unsigned(&cs, lo, end, u64::MAX) {
            Some(b) => b,
            None => {
                return Err(DigitSpecError::InvalidNumber);
            },
        };
        let value = match base.checked_mul(factor) {
            Some(v) => v,
            None => {
                return Err(DigitSpecError::Overflow);
            },
        };
        digit_count_of(value)
    }
}

} // verus!
