//! Planning a run: how many series terms and how many bits of working
//! precision a digit count needs, and the exact integers the final
//! floating-point step starts from.
use crate::bigint::{bit_len, bit_length, from_u64, mul_by, power, value_of};
use crate::series::{binary_split, series, MAX_TERM_END};
use rug::Integer;
use vstd::arithmetic::power::{lemma_pow_increases_converse, lemma_pow_positive, pow};
use vstd::prelude::*;

verus! {

/// Each term of the series adds about this many correct decimal digits.
pub const DIGITS_PER_TERM: u32 = 14;

/// Extra bits of working precision beyond what the digits themselves need.
pub const PRECISION_MARGIN: u64 = 256;

/// The factor `426880` in `pi = Q * 426880 * sqrt(10005) / T`.
pub const NUMERATOR_FACTOR: u64 = 426880;

/// The number of series terms for a digit count: `digits / 14 + 1`.
pub open spec fn terms_for(digits: nat) -> nat {
    digits / DIGITS_PER_TERM as nat + 1
}

/// `n` is the smallest exponent with `2^n >= x`, that is `ceil(log2(x))`.
pub open spec fn is_ceil_log2(n: nat, x: nat) -> bool {
    &&& pow(2, n) >= x
    &&& (n == 0 || pow(2, (n - 1) as nat) < x)
}

/// The number of series terms to sum for `digits` decimal digits.
pub fn term_count(digits: u32) -> (r: u64)
    ensures
        r as nat == terms_for(digits as nat),
{
    (digits / DIGITS_PER_TERM) as u64 + 1
}

proof fn lemma_pow2_step(n: nat)
    ensures
        pow(2, n + 1) == 2 * pow(2, n),
{
    reveal(pow);
}

proof fn lemma_bit_len_bounds(x: nat)
    requires
        x >= 1,
    ensures
        bit_len(x) >= 1,
        pow(2, (bit_len(x) - 1) as nat) <= x < pow(2, bit_len(x)),
    decreases x,
{
    reveal(pow);
    if x == 1 {
        assert(bit_len(0) == 0);
        assert(pow(2, 0) == 1);
        assert(pow(2, 1) == 2 * pow(2, 0));
    } else {
        let h = x / 2;
        lemma_bit_len_bounds(h);
        let n = bit_len(h);
        lemma_pow2_step((n - 1) as nat);
        lemma_pow2_step(n);
    }
}

proof fn lemma_five_times_not_pow2(y: nat, n: nat)
    requires
        y >= 1,
    ensures
        5 * y != pow(2, n),
    decreases n,
{
    reveal(pow);
    if n > 0 {
        lemma_pow2_step((n - 1) as nat);
        if y % 2 == 0 {
            lemma_five_times_not_pow2(y / 2, (n - 1) as nat);
        }
    }
}

proof fn lemma_pow10_below_pow16(d: nat)
    ensures
        pow(10, d) <= pow(2, 4 * d),
    decreases d,
{
    reveal(pow);
    if d > 0 {
        lemma_pow10_below_pow16((d - 1) as nat);
        let e = (4 * (d - 1)) as nat;
        lemma_pow2_step(e);
        lemma_pow2_step(e + 1);
        lemma_pow2_step(e + 2);
        lemma_pow2_step(e + 3);
        assert(e + 4 == 4 * d);
        let a = pow(10, (d - 1) as nat);
        let b = pow(2, e);
        lemma_pow_positive(10, (d - 1) as nat);
        assert(pow(10, d) == 10 * a);
        assert(10 * a <= 16 * b) by (nonlinear_arith)
            requires
                a <= b,
                0 <= a,
        ;
    }
}

/// The working precision, in bits, for `digits` decimal digits:
/// `ceil(digits * log2(10))` plus a fixed margin.
pub fn precision_bits(digits: u32) -> (r: u64)
    ensures
        r >= PRECISION_MARGIN,
        is_ceil_log2((r - PRECISION_MARGIN) as nat, pow(10, digits as nat) as nat),
{
    if digits == 0 {
        proof {
            reveal(pow);
        }
        PRECISION_MARGIN
    } else {
        let scale = power(from_u64(10), digits);
        let n = bit_length(&scale);
        proof {
            let d = digits as nat;
            let x = pow(10, d);
            lemma_pow_positive(10, d);
            lemma_bit_len_bounds(x as nat);
            reveal(pow);
            assert(x == 5 * (2 * pow(10, (d - 1) as nat)));
            lemma_pow_positive(10, (d - 1) as nat);
            lemma_five_times_not_pow2(2 * pow(10, (d - 1) as nat) as nat, (n - 1) as nat);
            lemma_pow10_below_pow16(d);
            lemma_pow_increases_converse(2, (n - 1) as nat, 4 * d);
        }
        n + PRECISION_MARGIN
    }
}

/// `10^digits`, the factor that moves `digits` decimals before the point.
pub fn scale_for_digits(digits: u32) -> (r: Integer)
    ensures
        value_of(r) == pow(10, digits as nat),
{
    power(from_u64(10), digits)
}

/// The two exact integers of the final step for `digits` digits: with
/// `(P, Q, T)` the split triple of the first `terms_for(digits)` terms,
/// `426880 * Q` and `T`, so that `pi = 426880 * Q * sqrt(10005) / T`.
pub fn series_for_digits(digits: u32) -> (r: (Integer, Integer))
    ensures
        value_of(r.0) == NUMERATOR_FACTOR * series(0, terms_for(digits as nat)).1,
        value_of(r.1) == series(0, terms_for(digits as nat)).2,
{
    let terms = term_count(digits);
    let (_p, q, t) = binary_split(0, terms);
    let numerator = mul_by(from_u64(NUMERATOR_FACTOR), &q);
    (numerator, t)
}

} // verus!
