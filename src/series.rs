//! Binary splitting of the Chudnovsky series.
//!
//! For a half-open range of term indices `[a, b)` the split triple
//! `(P, Q, T)` is defined term by term: each term `k` contributes a base
//! triple, and adjacent ranges combine by `merge`. `binary_split` computes
//! the same triple by halving the range, which keeps operands balanced.
use crate::bigint::{add_to, from_u64, mul_by, negate, power, value_of};
use rug::Integer;
use vstd::arithmetic::power::pow;
use vstd::prelude::*;

verus! {

/// `640320^3 / 24`, the constant factor of each `Q_k`.
pub const C3_OVER_24: u64 = 10939058860032000;

/// The constant term of the linear factor of `T_k`.
pub const SERIES_A: u64 = 13591409;

/// The slope of the linear factor of `T_k`.
pub const SERIES_B: u64 = 545140134;

/// The largest end index that `binary_split` accepts; every term count that a
/// `u32` digit count asks for lies below it.
pub const MAX_TERM_END: u64 = 4294967296;

/// `P_k`: 1 for the first term, `(6k-5)(2k-1)(6k-1)` after it.
pub open spec fn term_p(k: nat) -> int {
    if k == 0 {
        1
    } else {
        (6 * k - 5) * (2 * k - 1) * (6 * k - 1)
    }
}

/// `Q_k`: 1 for the first term, `k^3 * 640320^3 / 24` after it.
pub open spec fn term_q(k: nat) -> int {
    if k == 0 {
        1
    } else {
        k * k * k * C3_OVER_24
    }
}

/// `T_k = (-1)^k (13591409 + 545140134 k) P_k`.
pub open spec fn term_t(k: nat) -> int {
    if k % 2 == 1 {
        -(SERIES_A + SERIES_B * k) * term_p(k)
    } else {
        (SERIES_A + SERIES_B * k) * term_p(k)
    }
}

/// The triple of the single-term range `[k, k+1)`.
pub open spec fn base(k: nat) -> (int, int, int) {
    (term_p(k), term_q(k), term_t(k))
}

/// Combines the triples of `[a, m)` and `[m, b)` into that of `[a, b)`.
pub open spec fn merge(l: (int, int, int), r: (int, int, int)) -> (int, int, int) {
    (l.0 * r.0, l.1 * r.1, r.1 * l.2 + l.0 * r.2)
}

/// The triple of `[a, b)`, accumulated one term at a time from the left.
pub open spec fn series(a: nat, b: nat) -> (int, int, int)
    decreases b - a,
{
    if b <= a + 1 {
        base(a)
    } else {
        merge(series(a, (b - 1) as nat), base((b - 1) as nat))
    }
}

/// The mathematical triple held by three integers.
pub open spec fn triple_value(r: (Integer, Integer, Integer)) -> (int, int, int) {
    (value_of(r.0), value_of(r.1), value_of(r.2))
}

proof fn lemma_merge_assoc(x: (int, int, int), y: (int, int, int), z: (int, int, int))
    ensures
        merge(merge(x, y), z) == merge(x, merge(y, z)),
{
    assert(x.0 * y.0 * z.0 == x.0 * (y.0 * z.0)) by (nonlinear_arith);
    assert(x.1 * y.1 * z.1 == x.1 * (y.1 * z.1)) by (nonlinear_arith);
    assert(z.1 * (y.1 * x.2 + x.0 * y.2) == z.1 * (y.1 * x.2) + z.1 * (x.0 * y.2))
        by (nonlinear_arith);
    assert(x.0 * (z.1 * y.2 + y.0 * z.2) == x.0 * (z.1 * y.2) + x.0 * (y.0 * z.2))
        by (nonlinear_arith);
    assert(z.1 * (y.1 * x.2) == y.1 * z.1 * x.2) by (nonlinear_arith);
    assert(z.1 * (x.0 * y.2) == x.0 * (z.1 * y.2)) by (nonlinear_arith);
    assert(x.0 * y.0 * z.2 == x.0 * (y.0 * z.2)) by (nonlinear_arith);
}

/// Splitting a range at any interior point and merging the two halves gives
/// the triple of the whole range: the result of binary splitting does not
/// depend on where the midpoint is chosen.
pub proof fn lemma_split_anywhere(a: nat, m: nat, b: nat)
    requires
        a < m < b,
    ensures
        merge(series(a, m), series(m, b)) == series(a, b),
    decreases b - m,
{
    if b > m + 1 {
        lemma_split_anywhere(a, m, (b - 1) as nat);
        lemma_merge_assoc(series(a, m), series(m, (b - 1) as nat), base((b - 1) as nat));
    }
}

/// Any two interior split points of `[a, b)` yield the same merged triple.
pub proof fn lemma_midpoint_independent(a: nat, m1: nat, m2: nat, b: nat)
    requires
        a < m1 < b,
        a < m2 < b,
    ensures
        merge(series(a, m1), series(m1, b)) == merge(series(a, m2), series(m2, b)),
{
    lemma_split_anywhere(a, m1, b);
    lemma_split_anywhere(a, m2, b);
}

proof fn lemma_base_positive(k: nat)
    ensures
        term_p(k) > 0,
        term_q(k) > 0,
{
    if k > 0 {
        let x: int = 6 * k - 5;
        let y: int = 2 * k - 1;
        let z: int = 6 * k - 1;
        assert(x * y * z > 0) by (nonlinear_arith)
            requires
                x >= 1,
                y >= 1,
                z >= 1,
        ;
        assert(k * k * k * C3_OVER_24 > 0) by (nonlinear_arith)
            requires
                k >= 1,
        ;
    }
}

/// `P(a, b)` and `Q(a, b)` are positive on every non-empty range.
pub proof fn lemma_series_positive(a: nat, b: nat)
    requires
        a < b,
    ensures
        series(a, b).0 > 0,
        series(a, b).1 > 0,
    decreases b - a,
{
    lemma_base_positive((b - 1) as nat);
    if b > a + 1 {
        lemma_series_positive(a, (b - 1) as nat);
        let l = series(a, (b - 1) as nat);
        let r = base((b - 1) as nat);
        assert(l.0 * r.0 > 0) by (nonlinear_arith)
            requires
                l.0 > 0,
                r.0 > 0,
        ;
        assert(l.1 * r.1 > 0) by (nonlinear_arith)
            requires
                l.1 > 0,
                r.1 > 0,
        ;
    }
}

/// The triple of the single term `k`.
fn base_term(k: u64) -> (r: (Integer, Integer, Integer))
    requires
        k < MAX_TERM_END,
    ensures
        triple_value(r) == base(k as nat),
{
    if k == 0 {
        (from_u64(1), from_u64(1), from_u64(SERIES_A))
    } else {
        let term1 = from_u64(6 * k - 5);
        let term2 = from_u64(2 * k - 1);
        let term3 = from_u64(6 * k - 1);
        let p = mul_by(mul_by(term1, &term2), &term3);
        let c = from_u64(C3_OVER_24);
        let q = mul_by(power(from_u64(k), 3), &c);
        proof {
            let ki = k as int;
            assert(pow(ki, 3) == ki * ki * ki) by {
                reveal(pow);
                assert(pow(ki, 0) == 1);
                assert(pow(ki, 1) == ki * pow(ki, 0));
                assert(pow(ki, 2) == ki * pow(ki, 1));
                assert(pow(ki, 3) == ki * pow(ki, 2));
                assert(ki * (ki * ki) == ki * ki * ki) by (nonlinear_arith);
            }
        }
        let val = from_u64(SERIES_A + SERIES_B * k);
        let t = if k % 2 == 1 {
            mul_by(negate(val), &p)
        } else {
            mul_by(val, &p)
        };
        (p, q, t)
    }
}

/// The exact split triple of the term range `[a, b)`, computed by recursive
/// halving at `m = (a + b) / 2`.
pub fn binary_split(a: u64, b: u64) -> (r: (Integer, Integer, Integer))
    requires
        a < b <= MAX_TERM_END,
    ensures
        triple_value(r) == series(a as nat, b as nat),
        value_of(r.0) > 0,
        value_of(r.1) > 0,
    decreases b - a,
{
    proof {
        lemma_series_positive(a as nat, b as nat);
    }
    if b - a == 1 {
        base_term(a)
    } else {
        let m = (a + b) / 2;
        let (p1, q1, t1) = binary_split(a, m);
        let (p2, q2, t2) = binary_split(m, b);
        let left = mul_by(t1, &q2);
        let right = mul_by(t2, &p1);
        let t = add_to(left, &right);
        let p = mul_by(p1, &p2);
        let q = mul_by(q1, &q2);
        proof {
            lemma_split_anywhere(a as nat, m as nat, b as nat);
            assert(value_of(left) == value_of(q2) * value_of(t1)) by (nonlinear_arith)
                requires
                    value_of(left) == value_of(t1) * value_of(q2),
            ;
            assert(value_of(right) == value_of(p1) * value_of(t2)) by (nonlinear_arith)
                requires
                    value_of(right) == value_of(t2) * value_of(p1),
            ;
            assert(triple_value((p, q, t)) == merge(
                triple_value((p1, q1, t1)),
                triple_value((p2, q2, t2)),
            ));
        }
        (p, q, t)
    }
}

} // verus!
