//! Rendering the scaled integer as `"<int>.<fraction>"`.
use crate::bigint::value_of;
use rug::Integer;
use vstd::prelude::*;

verus! {

/// The ASCII character of the decimal digit `d`.
pub open spec fn digit_char(d: nat) -> char {
    (48 + d) as char
}

/// The decimal numeral of `n`, without leading zeros (`"0"` for zero).
pub open spec fn decimal_digits(n: nat) -> Seq<char>
    decreases n,
{
    if n < 10 {
        seq![digit_char(n)]
    } else {
        decimal_digits(n / 10).push(digit_char(n % 10))
    }
}

/// `n` characters `'0'`.
pub open spec fn zeros(n: nat) -> Seq<char> {
    Seq::new(n, |i: int| '0')
}

/// `s` left-padded with zeros to `digits + 1` characters when it is not
/// longer than `digits`; otherwise `s` itself.
pub open spec fn padded(s: Seq<char>, digits: nat) -> Seq<char> {
    if s.len() <= digits {
        zeros((digits + 1 - s.len()) as nat) + s
    } else {
        s
    }
}

/// The first character of the padded numeral, a point, and the next
/// `digits` characters.
pub open spec fn formatted(s: Seq<char>, digits: nat) -> Seq<char> {
    let p = padded(s, digits);
    p.subrange(0, 1) + seq!['.'] + p.subrange(1, (digits + 1) as int)
}

/// A numeral of at most `digits` characters comes out as `digits + 2`
/// characters: with the point taken out, it is the numeral behind
/// `digits + 1 - len` zeros.
pub proof fn lemma_format_pads(s: Seq<char>, digits: nat)
    requires
        s.len() <= digits,
    ensures
        formatted(s, digits).len() == digits + 2,
        formatted(s, digits)[1] == '.',
        formatted(s, digits).remove(1) == zeros((digits + 1 - s.len()) as nat) + s,
{
    let p = padded(s, digits);
    let f = formatted(s, digits);
    assert(p.len() == digits + 1);
    assert(f.remove(1) =~= p);
}

/// Relies on `Display for rug::Integer`: the plain decimal numeral, with a
/// leading `-` for a negative value.
#[verifier::external_body]
fn decimal_string(n: &Integer) -> (r: String)
    ensures
        value_of(*n) >= 0 ==> r@ == decimal_digits(value_of(*n) as nat),
        value_of(*n) < 0 ==> r@ == seq!['-'] + decimal_digits((-value_of(*n)) as nat),
{
    n.to_string()
}

/// Places a decimal point after the first character of the numeral
/// `decimal`, keeping exactly `digits` characters after it; a numeral of at
/// most `digits` characters is first left-padded with zeros.
pub fn format_digits(decimal: &str, digits: usize) -> (r: String)
    requires
        digits < usize::MAX,
    ensures
        r@ == formatted(decimal@, digits as nat),
{
    let len = decimal.unicode_len();
    let mut padded_text = String::new();
    if len <= digits {
        let count = digits + 1 - len;
        let mut i: usize = 0;
        while i < count
            invariant
                i <= count,
                padded_text@ == zeros(i as nat),
            decreases count - i,
        {
            proof {
                reveal_strlit("0");
            }
            padded_text.append("0");
            assert(padded_text@ =~= zeros((i + 1) as nat));
            i = i + 1;
        }
    }
    padded_text.append(decimal);
    assert(padded_text@ =~= padded(decimal@, digits as nat));
    let ps = padded_text.as_str();
    let head = ps.substring_char(0, 1);
    let tail = ps.substring_char(1, digits + 1);
    let mut r = String::from_str(head);
    proof {
        reveal_strlit(".");
    }
    r.append(".");
    r.append(tail);
    assert(r@ =~= formatted(decimal@, digits as nat));
    r
}

/// Renders the non-negative integer `n` in decimal as
/// `"<first digit>.<digits more>"`, zero-padded on the left when it has at
/// most `digits` digits.
pub fn format_pi(n: &Integer, digits: usize) -> (r: String)
    requires
        value_of(*n) >= 0,
        digits < usize::MAX,
    ensures
        r@ == formatted(decimal_digits(value_of(*n) as nat), digits as nat),
{
    let text = decimal_string(n);
    format_digits(text.as_str(), digits)
}

} // verus!
