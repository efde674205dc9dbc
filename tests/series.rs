use chudnovsky_pi::plan::{series_for_digits, term_count};
use chudnovsky_pi::series::binary_split;
use rug::Integer;

fn merged(a: u64, m: u64, b: u64) -> (Integer, Integer, Integer) {
    let (p1, q1, t1) = binary_split(a, m);
    let (p2, q2, t2) = binary_split(m, b);
    let t = Integer::from(&q2 * &t1) + Integer::from(&p1 * &t2);
    (p1 * p2, q1 * q2, t)
}

#[test]
fn split_first_term() {
    let (p, q, t) = binary_split(0, 1);
    assert_eq!(p, 1);
    assert_eq!(q, 1);
    assert_eq!(t, 13591409);
}

#[test]
fn split_second_term() {
    let (p, q, t) = binary_split(1, 2);
    assert_eq!(p, 5);
    assert_eq!(q, 10939058860032000u64);
    assert_eq!(t, -2793657715i64);
}

#[test]
fn split_two_terms_merges_exactly() {
    let (p, q, t) = binary_split(0, 2);
    assert_eq!(p, 5);
    assert_eq!(q, 10939058860032000u64);
    let expected = Integer::from(10939058860032000u64) * 13591409u64 - 2793657715u64;
    assert_eq!(t, expected);
}

#[test]
fn split_any_midpoint_gives_same_triple() {
    for (a, b) in [(0u64, 2u64), (0, 7), (3, 11), (5, 20)] {
        let whole = binary_split(a, b);
        for m in (a + 1)..b {
            assert_eq!(merged(a, m, b), whole, "range {a}..{b} split at {m}");
        }
    }
}

#[test]
fn split_p_and_q_positive() {
    for a in 0u64..12 {
        for b in (a + 1)..14 {
            let (p, q, _) = binary_split(a, b);
            assert!(p > 0);
            assert!(q > 0);
        }
    }
}

#[test]
fn split_t_may_be_negative() {
    let (_, _, t) = binary_split(1, 2);
    assert!(t < 0);
}

#[test]
fn term_count_formula() {
    assert_eq!(term_count(0), 1);
    assert_eq!(term_count(13), 1);
    assert_eq!(term_count(14), 2);
    assert_eq!(term_count(27), 2);
    assert_eq!(term_count(28), 3);
}

#[test]
fn series_for_zero_digits() {
    let (numerator, t) = series_for_digits(0);
    assert_eq!(numerator, 426880);
    assert_eq!(t, 13591409);
}

#[test]
fn series_for_digits_uses_term_count() {
    let (numerator, t) = series_for_digits(30);
    let (_, q, t3) = binary_split(0, 3);
    assert_eq!(numerator, Integer::from(426880) * q);
    assert_eq!(t, t3);
}
