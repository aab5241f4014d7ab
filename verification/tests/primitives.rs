use bernoulli_vs_moivre_laplace::cfrac::continued_fraction;
use bernoulli_vs_moivre_laplace::ratio::Ratio;
use bernoulli_vs_moivre_laplace::solver::{exp, factorial_new, sqrt, PI_DENOM, PI_NUMER};
use num_bigint::BigUint;

fn big(x: u64) -> BigUint {
    BigUint::from(x)
}

fn ratio(n: u64, d: u64) -> Ratio {
    Ratio::new(big(n), big(d))
}

#[test]
fn factorial_of_ten() {
    assert_eq!(factorial_new(big(10)), big(3628800));
    assert_eq!(factorial_new(big(0)), big(1));
    assert_eq!(factorial_new(big(1)), big(1));
}

#[test]
fn sqrt_zero_iterations_is_integer_sqrt() {
    // With no refinements the result is the integer square root of each part.
    let (top, bot) = sqrt(big(4), big(1), 0);
    assert_eq!(top, big(2));
    assert_eq!(bot, big(1));
    let (top, bot) = sqrt(big(2), big(1), 0);
    assert_eq!(top, big(1));
    assert_eq!(bot, big(1));
}

#[test]
fn sqrt_of_two_matches_eight_decimals() {
    // sqrt(2) = 1.41421356..., so the fractional digits start 41421356.
    let (top, bot) = sqrt(big(2), big(1), 10);
    let digits = Ratio::new(top, bot).decimal_digits(8);
    assert_eq!(digits, vec![4u8, 1, 4, 2, 1, 3, 5, 6]);
}

#[test]
fn sqrt_iterates_decrease_and_stay_above_root() {
    // From the first refinement on the guesses descend monotonically and
    // their squares never drop below the target.
    let mut prev: Option<(BigUint, BigUint)> = None;
    for m in 1..=6usize {
        let (n, d) = sqrt(big(2), big(1), m);
        assert!(&n * &n >= big(2) * &d * &d);
        if let Some((pn, pd)) = prev {
            // current <= previous: n/d <= pn/pd
            assert!(&n * &pd <= &pn * &d);
        }
        prev = Some((n, d));
    }
}

#[test]
fn exp_of_zero_terms_is_zero_and_one_term_is_one() {
    let (n, d) = exp(big(1), big(1), 0);
    assert_eq!(n, big(0));
    assert_eq!(d, big(1));
    let (n, d) = exp(big(1), big(1), 1);
    assert_eq!(n, big(1));
    assert_eq!(d, big(1));
}

#[test]
fn exp_of_one_matches_six_decimals() {
    // e = 2.7182818..., so the fractional digits start 7182818.
    let (n, d) = exp(big(1), big(1), 15);
    let digits = Ratio::new(n, d).decimal_digits(7);
    assert_eq!(digits, vec![7u8, 1, 8, 2, 8, 1, 8]);
}

#[test]
fn exp_partial_sums_increase() {
    let mut prev: Option<(BigUint, BigUint)> = None;
    for m in 1..=8usize {
        let (n, d) = exp(big(1), big(1), m);
        if let Some((pn, pd)) = prev {
            // previous <= current
            assert!(&pn * &d <= &n * &pd);
        }
        prev = Some((n, d));
    }
}

#[test]
fn continued_fraction_empty_is_zero() {
    let r = continued_fraction(&vec![]);
    assert!(r.same_value(&ratio(0, 1)));
}

#[test]
fn continued_fraction_single_term_is_itself() {
    let r = continued_fraction(&vec![5]);
    assert!(r.same_value(&ratio(5, 1)));
    let r = continued_fraction(&vec![0]);
    assert!(r.same_value(&ratio(0, 1)));
}

#[test]
fn continued_fraction_one_one_is_two() {
    let r = continued_fraction(&vec![1, 1]);
    assert!(r.same_value(&ratio(2, 1)));
}

#[test]
fn continued_fraction_three_seven_is_twenty_two_sevenths() {
    let r = continued_fraction(&vec![3, 7]);
    assert!(r.same_value(&ratio(22, 7)));
}

#[test]
fn pi_constant_is_a_continued_fraction_convergent() {
    // The rational pi constant used by the Moivre-Laplace solver is exactly
    // the value of this continued-fraction expansion of pi.
    let terms = vec![
        3u64, 7, 15, 1, 292, 1, 1, 1, 2, 1, 3, 1, 14, 2, 1, 1, 2, 2, 2, 2, 1, 84, 2, 1, 1, 15, 3,
        13, 1, 4,
    ];
    let r = continued_fraction(&terms);
    assert!(r.same_value(&ratio(PI_NUMER, PI_DENOM)));
}

#[test]
fn decimal_digits_of_simple_fractions() {
    assert_eq!(ratio(1, 8).decimal_digits(4), vec![1u8, 2, 5, 0]);
    // 22/7 = 3.142857...; whole parts are discarded.
    assert_eq!(ratio(22, 7).decimal_digits(6), vec![1u8, 4, 2, 8, 5, 7]);
    assert_eq!(ratio(0, 1).decimal_digits(3), vec![0u8, 0, 0]);
}

#[test]
fn same_value_ignores_representation() {
    assert!(ratio(2, 4).same_value(&ratio(1, 2)));
    assert!(!ratio(1, 2).same_value(&ratio(2, 3)));
    let c = ratio(3, 6).clone();
    assert!(c.same_value(&ratio(1, 2)));
}
