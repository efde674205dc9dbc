use chudnovsky_pi::format::{format_digits, format_pi};
use chudnovsky_pi::plan::{precision_bits, scale_for_digits, series_for_digits};
use rug::ops::Pow;
use rug::Integer;

/// floor(pi * 10^digits) from the library's exact integers, with the square
/// root taken over integers carrying guard digits.
fn pi_scaled(digits: u32) -> Integer {
    let guard = 20u32;
    let (numerator, t) = series_for_digits(digits);
    let root = (Integer::from(10005) * Integer::from(10).pow(2 * (digits + guard))).sqrt();
    let denominator = t * Integer::from(10).pow(guard);
    (numerator * root) / denominator
}

fn pi_text(digits: u32) -> String {
    format_pi(&pi_scaled(digits), digits as usize)
}

#[test]
fn pi_five_digits() {
    assert_eq!(pi_text(5), "3.14159");
}

#[test]
fn pi_ten_digits() {
    assert_eq!(pi_text(10), "3.1415926535");
}

#[test]
fn pi_zero_digits() {
    assert_eq!(pi_text(0), "3.");
}

#[test]
fn pi_fifty_digits() {
    assert_eq!(
        pi_text(50),
        "3.14159265358979323846264338327950288419716939937510"
    );
}

#[test]
fn digit_prefix_is_stable() {
    for d in [10u32, 100, 250] {
        let short = pi_text(d);
        let long = pi_text(2 * d);
        assert_eq!(short, long[..d as usize + 2]);
    }
}

#[test]
fn format_pads_short_integer() {
    assert_eq!(format_pi(&Integer::from(314), 5), "0.00314");
    assert_eq!(format_pi(&Integer::from(0), 2), "0.00");
}

#[test]
fn format_exact_length_is_unpadded() {
    assert_eq!(format_pi(&Integer::from(314159), 5), "3.14159");
}

#[test]
fn format_truncates_extra_digits() {
    assert_eq!(format_digits("314159", 3), "3.141");
}

#[test]
fn format_zero_digits() {
    assert_eq!(format_pi(&Integer::from(3), 0), "3.");
    assert_eq!(format_digits("", 0), "0.");
}

#[test]
fn format_renders_large_integer() {
    let n = Integer::from(10).pow(30) + 7;
    assert_eq!(format_pi(&n, 30), "1.000000000000000000000000000007");
}

#[test]
fn precision_bits_values() {
    assert_eq!(precision_bits(0), 256);
    assert_eq!(precision_bits(1), 260);
    assert_eq!(precision_bits(2), 263);
    assert_eq!(precision_bits(3), 266);
    assert_eq!(precision_bits(100), 589);
}

#[test]
fn scale_is_power_of_ten() {
    assert_eq!(scale_for_digits(0), 1);
    assert_eq!(scale_for_digits(3), 1000);
    assert_eq!(scale_for_digits(19), 10000000000000000000u64);
}
