use bernoulli_vs_moivre_laplace::adaptive::moivre_laplace_adaptive;
use bernoulli_vs_moivre_laplace::ratio::Ratio;
use bernoulli_vs_moivre_laplace::solver::{bernoulli, moivre_laplace, SolverError};
use bernoulli_vs_moivre_laplace::{BernoulliSolver, MoivreLaplaceMode, MoivreLaplaceSolver, SolverRequest};
use num_bigint::BigUint;

fn big(x: u64) -> BigUint {
    BigUint::from(x)
}

fn ratio(n: u64, d: u64) -> Ratio {
    Ratio::new(big(n), big(d))
}

fn request(total: u32, required: u32, odds: Ratio) -> SolverRequest {
    SolverRequest {
        total,
        required,
        odds,
        iterations: 300,
        stable_amount: 5,
        precision: 1000,
        sqrt_iterations: 10,
        max_iterations: 1000,
    }
}

#[test]
fn bernoulli_coin_flip() {
    // One head in two fair flips: C(2,1) * (1/2)^1 * (1/2)^1 = 1/2.
    let res = bernoulli(2, 1, ratio(1, 2)).unwrap();
    assert!(res.probability.same_value(&ratio(1, 2)));
    assert_eq!(res.iterations, 0);
}

#[test]
fn bernoulli_eighty_of_hundred() {
    // C(100,80) * 0.8^80 * 0.2^20 = 0.0993002148...
    let res = bernoulli(100, 80, ratio(8, 10)).unwrap();
    let digits = res.probability.decimal_digits(12);
    assert_eq!(digits, vec![0u8, 9, 9, 3, 0, 0, 2, 1, 4, 8, 0, 8]);
}

#[test]
fn bernoulli_certain_and_impossible() {
    // With p = 1 every trial succeeds: exactly n successes have probability
    // one, fewer have probability zero.
    let res = bernoulli(5, 5, ratio(1, 1)).unwrap();
    assert!(res.probability.same_value(&ratio(1, 1)));
    let res = bernoulli(5, 3, ratio(1, 1)).unwrap();
    assert!(res.probability.same_value(&ratio(0, 1)));
}

#[test]
fn bernoulli_pmf_sums_to_one() {
    // Summing the PMF over every outcome count gives exactly one.
    let mut acc_n = big(0);
    let mut acc_d = big(1);
    for k in 0..=5u32 {
        let res = bernoulli(5, k, ratio(3, 7)).unwrap();
        let (pn, pd) = res.probability.into_parts();
        acc_n = &acc_n * &pd + &pn * &acc_d;
        acc_d = &acc_d * &pd;
    }
    assert_eq!(acc_n, acc_d);
}

#[test]
fn bernoulli_symmetry() {
    // P(k successes at odds p) = P(n-k successes at odds 1-p).
    let lhs = bernoulli(10, 3, ratio(2, 7)).unwrap();
    let rhs = bernoulli(10, 7, ratio(5, 7)).unwrap();
    assert!(lhs.probability.same_value(&rhs.probability));
}

#[test]
fn bernoulli_rejects_more_successes_than_trials() {
    let r = bernoulli(3, 4, ratio(1, 2));
    assert!(matches!(r, Err(SolverError::InvalidParameter)));
}

#[test]
fn bernoulli_rejects_zero_denominator() {
    let r = bernoulli(3, 2, ratio(1, 0));
    assert!(matches!(r, Err(SolverError::InvalidParameter)));
}

#[test]
fn bernoulli_rejects_odds_above_one() {
    let r = bernoulli(3, 2, ratio(3, 2));
    assert!(matches!(r, Err(SolverError::InvalidParameter)));
}

#[test]
fn bernoulli_solver_handles_request() {
    let r = BernoulliSolver::solve(request(2, 1, ratio(1, 2))).unwrap();
    assert!(r.probability.same_value(&ratio(1, 2)));
    let r = BernoulliSolver::solve(request(1, 2, ratio(1, 2)));
    assert!(matches!(r, Err(SolverError::InvalidParameter)));
}

#[test]
fn moivre_laplace_eighty_of_hundred() {
    // 1/sqrt(2 pi npq) * e^(-(k-np)^2/(2npq)) at n=100, k=80, p=4/5:
    // 0.09973557...
    let res = moivre_laplace(100, 80, ratio(4, 5), 500, 10);
    let digits = res.probability.decimal_digits(8);
    assert_eq!(digits, vec![0u8, 9, 9, 7, 3, 5, 5, 7]);
    assert_eq!(res.iterations, 500);
}

#[test]
fn moivre_laplace_above_the_mean() {
    // k = 90 lies above np = 80: the deviation is taken the other way
    // around, and the tail probability is small: 0.00438207...
    let res = moivre_laplace(100, 90, ratio(4, 5), 200, 10);
    let digits = res.probability.decimal_digits(8);
    assert_eq!(digits, vec![0u8, 0, 4, 3, 8, 2, 0, 7]);
}

#[test]
fn moivre_laplace_approaches_exact_value() {
    // At n=1000, k=800, p=4/5 the approximation and the exact PMF agree to
    // at least three significant digits (0.03153... vs 0.03152...).
    let approx = moivre_laplace(1000, 800, ratio(4, 5), 2, 10);
    let exact = bernoulli(1000, 800, ratio(4, 5)).unwrap();
    let ad = approx.probability.decimal_digits(10);
    let ed = exact.probability.decimal_digits(10);
    let z = ad.iter().position(|d| *d != 0).unwrap();
    assert_eq!(z, ed.iter().position(|d| *d != 0).unwrap());
    assert_eq!(ad[z..z + 3], ed[z..z + 3]);
}

#[test]
fn moivre_laplace_solver_checks_requests() {
    // Degenerate odds give the normal approximation a zero variance: the
    // request is rejected before any computation.
    let r = MoivreLaplaceSolver::solve(MoivreLaplaceMode::Normal, request(10, 5, ratio(1, 1)));
    assert!(matches!(r, Err(SolverError::InvalidParameter)));
    let r = MoivreLaplaceSolver::solve(MoivreLaplaceMode::Normal, request(10, 5, ratio(0, 2)));
    assert!(matches!(r, Err(SolverError::InvalidParameter)));
    let r = MoivreLaplaceSolver::solve(MoivreLaplaceMode::Normal, request(0, 0, ratio(1, 2)));
    assert!(matches!(r, Err(SolverError::InvalidParameter)));
    let r = MoivreLaplaceSolver::solve(MoivreLaplaceMode::Normal, request(10, 11, ratio(1, 2)));
    assert!(matches!(r, Err(SolverError::InvalidParameter)));
    let mut zero_budget = request(10, 5, ratio(1, 2));
    zero_budget.iterations = 0;
    let r = MoivreLaplaceSolver::solve(MoivreLaplaceMode::Normal, zero_budget);
    assert!(matches!(r, Err(SolverError::InvalidParameter)));
}

#[test]
fn moivre_laplace_solver_normal_mode() {
    let mut req = request(100, 80, ratio(4, 5));
    req.iterations = 500;
    let res = MoivreLaplaceSolver::solve(MoivreLaplaceMode::Normal, req).unwrap();
    let digits = res.probability.decimal_digits(8);
    assert_eq!(digits, vec![0u8, 9, 9, 7, 3, 5, 5, 7]);
}

#[test]
fn adaptive_driver_converges() {
    // n=100, k=75, p=4/5: the leading three significant digits settle after
    // seven series terms, at 0.045663...
    let res = moivre_laplace_adaptive(100, 75, ratio(4, 5), 10, 6, 3, 100).unwrap();
    assert_eq!(res.iterations, 7);
    let digits = res.probability.decimal_digits(6);
    assert_eq!(digits, vec![0u8, 4, 5, 6, 6, 3]);
}

#[test]
fn adaptive_driver_reports_non_convergence() {
    // At k=0 the true probability is far below 10^-2: rendered at two
    // digits, every refinement is all zeros and the window can never
    // stabilize, so the driver stops at its ceiling instead of looping.
    let r = moivre_laplace_adaptive(100, 0, ratio(4, 5), 10, 2, 2, 30);
    assert!(matches!(r, Err(SolverError::NonConvergence)));
}

#[test]
fn adaptive_driver_through_solver() {
    let mut req = request(100, 75, ratio(4, 5));
    req.precision = 6;
    req.stable_amount = 3;
    req.max_iterations = 100;
    let res = MoivreLaplaceSolver::solve(MoivreLaplaceMode::AutomaticIterations, req).unwrap();
    assert_eq!(res.iterations, 7);
}
