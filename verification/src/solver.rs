//! The probability engine: the exact binomial solver, the rational
//! square-root and exponential primitives, and the Moivre-Laplace
//! composition, all over unreduced big-integer rationals.

use vstd::prelude::*;

use crate::arith::{
    binom_sum, binom_term, choose_nat, fact, isqrt, lemma_binomial_theorem,
    lemma_choose_fact, lemma_choose_symmetry, lemma_fact_positive, lemma_fact_split,
    lemma_isqrt_props, lemma_isqrt_unique, lemma_pow_nat_adds, lemma_pow_nat_positive, pow_nat,
    prod_range,
};
use crate::bigint::{
    big_add, big_div, big_eq, big_from_u64, big_is_even, big_le, big_mul, big_pow, big_sqrt,
    big_sub, nat_of,
};
use crate::clock::{elapsed_micros, instant_now};
use crate::ratio::{
    add_ratios_raw_raw, lemma_rat_add_congruence_left, lemma_rat_eq_trans, rat_add, rat_eq,
    rat_pos, Ratio,
};
use num_bigint::BigUint;

verus! {

/// Why a solver refused to produce a result.
#[derive(Clone, Copy, Debug, PartialEq, Eq, Structural)]
pub enum SolverError {
    /// The request is outside the solver's domain: more successes required
    /// than trials, a zero denominator, or a probability above one.
    InvalidParameter,
    /// The adaptive driver reached its iteration ceiling before the leading
    /// digits of the result stabilized.
    NonConvergence,
}

/// What a solver hands back: the probability as an unreduced rational, the
/// wall-clock microseconds the computation took (diagnostic only), and the
/// number of series iterations consumed (zero for the exact solver, which
/// has no iterative part).
pub struct SolverResult {
    pub probability: Ratio,
    pub took: u64,
    pub iterations: u32,
}

/// The inputs on which the exact binomial solver is defined: at most as many
/// successes as trials, and a probability that is a genuine fraction in
/// `[0, 1]`.
pub open spec fn valid_bernoulli_request(n: nat, k: nat, p: (nat, nat)) -> bool {
    k <= n && p.1 >= 1 && p.0 <= p.1
}

/// The exact binomial probability mass function as an unreduced pair:
/// `C(n,k) * a^k * (b-a)^(n-k)` over `b^n`.
pub open spec fn pmf_pair(n: nat, k: nat, p: (nat, nat)) -> (nat, nat) {
    (
        choose_nat(n, k) * pow_nat(p.0, k) * pow_nat((p.1 - p.0) as nat, (n - k) as nat),
        pow_nat(p.1, n),
    )
}

/// The `i`-th term of the Taylor series of `e^x`: `x^i / i!`, with the
/// exponent `x` given as a numerator/denominator pair.
pub open spec fn taylor_term(x: (nat, nat), i: nat) -> (nat, nat) {
    (pow_nat(x.0, i), pow_nat(x.1, i) * fact(i))
}

/// The sum of the first `m` Taylor terms of `e^x`, added by exact
/// cross-multiplication; the empty sum is zero.
pub open spec fn taylor_sum(x: (nat, nat), m: nat) -> (nat, nat)
    decreases m,
{
    if m == 0 {
        (0, 1)
    } else {
        rat_add(taylor_sum(x, (m - 1) as nat), taylor_term(x, (m - 1) as nat))
    }
}

pub proof fn lemma_taylor_term_pos(x: (nat, nat), i: nat)
    requires
        x.1 >= 1,
    ensures
        taylor_term(x, i).1 >= 1,
{
    lemma_pow_nat_positive(x.1, i);
    lemma_fact_positive(i);
    assert(pow_nat(x.1, i) * fact(i) >= 1) by (nonlinear_arith)
        requires
            pow_nat(x.1, i) >= 1,
            fact(i) >= 1,
    ;
}

/// The Taylor sum has a positive denominator, and from one term on a
/// positive numerator: the zeroth term is one.
pub proof fn lemma_taylor_sum_pos(x: (nat, nat), m: nat)
    requires
        x.1 >= 1,
    ensures
        taylor_sum(x, m).1 >= 1,
        m >= 1 ==> taylor_sum(x, m).0 >= 1,
    decreases m,
{
    if m == 0 {
    } else {
        let prev = taylor_sum(x, (m - 1) as nat);
        let t = taylor_term(x, (m - 1) as nat);
        lemma_taylor_sum_pos(x, (m - 1) as nat);
        lemma_taylor_term_pos(x, (m - 1) as nat);
        assert(prev.1 * t.1 >= 1) by (nonlinear_arith)
            requires
                prev.1 >= 1,
                t.1 >= 1,
        ;
        if m == 1 {
            assert(taylor_term(x, 0) == (1nat, 1nat));
            assert(taylor_sum(x, 1).0 == 0 * 1 + 1 * 1);
        } else {
            assert(prev.0 * t.1 >= 1) by (nonlinear_arith)
                requires
                    prev.0 >= 1,
                    t.1 >= 1,
            ;
        }
    }
}

/// One Newton-Raphson refinement toward `sqrt(t)`: the guess `g` becomes
/// `(g + t/g) / 2`, with the sum taken by exact cross-multiplication and the
/// halving realized by doubling the denominator.
pub open spec fn newton_step(t: (nat, nat), g: (nat, nat)) -> (nat, nat) {
    let inside = (t.0 * g.1, t.1 * g.0);
    let sum = rat_add(g, inside);
    (sum.0, 2 * sum.1)
}

/// `m` Newton-Raphson refinements, seeded with the integer square roots of
/// the target's numerator and denominator.
pub open spec fn newton_iter(t: (nat, nat), m: nat) -> (nat, nat)
    decreases m,
{
    if m == 0 {
        (isqrt(t.0), isqrt(t.1))
    } else {
        newton_step(t, newton_iter(t, (m - 1) as nat))
    }
}

pub proof fn lemma_newton_step_pos(t: (nat, nat), g: (nat, nat))
    requires
        rat_pos(t),
        rat_pos(g),
    ensures
        rat_pos(newton_step(t, g)),
{
    assert(g.0 * (t.1 * g.0) >= 1 && g.1 * (t.1 * g.0) >= 1) by (nonlinear_arith)
        requires
            g.0 >= 1,
            g.1 >= 1,
            t.1 >= 1,
    ;
}

pub proof fn lemma_newton_iter_pos(t: (nat, nat), m: nat)
    requires
        rat_pos(t),
    ensures
        rat_pos(newton_iter(t, m)),
    decreases m,
{
    if m == 0 {
        crate::arith::lemma_isqrt_positive(t.0);
        crate::arith::lemma_isqrt_positive(t.1);
    } else {
        lemma_newton_iter_pos(t, (m - 1) as nat);
        lemma_newton_step_pos(t, newton_iter(t, (m - 1) as nat));
    }
}

/// A Newton step applied to equal guesses yields equal results.
#[verifier::rlimit(50)]
pub proof fn lemma_newton_step_congruence(t: (nat, nat), g: (nat, nat), g2: (nat, nat))
    requires
        rat_eq(g, g2),
        rat_pos(t),
        rat_pos(g),
        rat_pos(g2),
    ensures
        rat_eq(newton_step(t, g), newton_step(t, g2)),
{
    let a = g.0;
    let b = g.1;
    let c = g2.0;
    let d = g2.1;
    let p = t.0;
    let q = t.1;
    let x1 = a * (q * a);
    let y1 = (p * b) * b;
    let z1 = 2 * (d * (q * c));
    let x2 = c * (q * c);
    let y2 = (p * d) * d;
    let z2 = 2 * (b * (q * a));
    assert((x1 + y1) * z1 == x1 * z1 + y1 * z1) by (nonlinear_arith);
    assert((x2 + y2) * z2 == x2 * z2 + y2 * z2) by (nonlinear_arith);
    assert((a * a) * (c * d) == (c * c) * (a * b)) by (nonlinear_arith)
        requires
            a * d == c * b,
    ;
    assert((b * b) * (c * d) == (d * d) * (a * b)) by (nonlinear_arith)
        requires
            a * d == c * b,
    ;
    assert((a * (q * a)) * (2 * (d * (q * c))) == (2 * (q * q)) * ((a * a) * (c * d)))
        by (nonlinear_arith);
    assert((c * (q * c)) * (2 * (b * (q * a))) == (2 * (q * q)) * ((c * c) * (a * b)))
        by (nonlinear_arith);
    assert(((p * b) * b) * (2 * (d * (q * c))) == (2 * (q * p)) * ((b * b) * (c * d)))
        by (nonlinear_arith);
    assert(((p * d) * d) * (2 * (b * (q * a))) == (2 * (q * p)) * ((d * d) * (a * b)))
        by (nonlinear_arith);
    assert(newton_step(t, g) == (x1 + y1, z2));
    assert(newton_step(t, g2) == (x2 + y2, z1));
}

/// The factorial of `base`, accumulated iteratively so that stack depth does
/// not grow with the input.
pub fn factorial_new(base: BigUint) -> (r: BigUint)
    ensures
        nat_of(r) == fact(nat_of(base)),
{
    let mut acc = big_from_u64(1);
    let mut i = big_from_u64(0);
    while !big_eq(&i, &base)
        invariant
            nat_of(i) <= nat_of(base),
            nat_of(acc) == fact(nat_of(i)),
        decreases nat_of(base) - nat_of(i),
    {
        let one = big_from_u64(1);
        i = big_add(&i, &one);
        let ghost iv = nat_of(i);
        acc = big_mul(&acc, &i);
        proof {
            assert(fact(iv) == iv * fact((iv - 1) as nat));
            assert(fact((iv - 1) as nat) * iv == iv * fact((iv - 1) as nat)) by (nonlinear_arith);
        }
    }
    acc
}

/// The exact binomial solver: the probability of exactly `positive_outcomes`
/// successes in `experiments` independent trials, each succeeding with
/// probability `positive_probability`. The binomial coefficient is computed
/// by cancelling the larger of `k!` and `(n-k)!` against the ascending
/// product above it, and the powers of the probability are taken on
/// numerator and denominator separately; nothing is reduced. Invalid
/// requests (more successes than trials, a zero denominator, a probability
/// above one) are rejected before any computation.
pub fn bernoulli(experiments: u32, positive_outcomes: u32, positive_probability: Ratio) -> (r:
    Result<SolverResult, SolverError>)
    ensures
        r is Ok <==> valid_bernoulli_request(
            experiments as nat,
            positive_outcomes as nat,
            positive_probability@,
        ),
        match r {
            Ok(res) => {
                &&& rat_eq(
                    res.probability@,
                    pmf_pair(experiments as nat, positive_outcomes as nat, positive_probability@),
                )
                &&& res.probability.wf()
                &&& res.iterations == 0
            },
            Err(e) => e == SolverError::InvalidParameter,
        },
{
    let now = instant_now();
    let ghost p = positive_probability@;
    let parts = positive_probability.into_parts();
    let positive_numer = parts.0;
    let prob_denom = parts.1;
    if positive_outcomes > experiments {
        return Err(SolverError::InvalidParameter);
    }
    let zero = big_from_u64(0);
    if big_eq(&prob_denom, &zero) {
        return Err(SolverError::InvalidParameter);
    }
    if !big_le(&positive_numer, &prob_denom) {
        return Err(SolverError::InvalidParameter);
    }
    let ghost n = experiments as nat;
    let ghost k = positive_outcomes as nat;

    let negative_numer = big_sub(&prob_denom, &positive_numer);

    // The larger of k and n - k; the factorial it cancels never materializes.
    let experiment_diff = if experiments - positive_outcomes >= positive_outcomes {
        experiments - positive_outcomes
    } else {
        positive_outcomes
    };
    let ghost m = experiment_diff as nat;

    // The ascending product (m+1) * ... * n.
    let mut combinations_numer = big_from_u64(1);
    let mut j: u32 = experiment_diff;
    while j < experiments
        invariant
            experiment_diff <= j <= experiments,
            m == experiment_diff as nat,
            nat_of(combinations_numer) == prod_range(m, j as nat),
        decreases experiments - j,
    {
        j = j + 1;
        let jb = big_from_u64(j as u64);
        combinations_numer = big_mul(&combinations_numer, &jb);
    }

    // The factorial of the smaller of k and n - k.
    let combinations_denom = factorial_new(big_from_u64((experiments - experiment_diff) as u64));

    let negative_pow = experiments - positive_outcomes;
    let p_pow = big_pow(&positive_numer, positive_outcomes);
    let q_pow = big_pow(&negative_numer, negative_pow);
    let numer_partial = big_mul(&combinations_numer, &p_pow);
    let numer = big_mul(&numer_partial, &q_pow);
    let b_pow_k = big_pow(&prob_denom, positive_outcomes);
    let b_pow_nk = big_pow(&prob_denom, negative_pow);
    let b_pow = big_mul(&b_pow_k, &b_pow_nk);
    let denom = big_mul(&combinations_denom, &b_pow);

    proof {
        let a = p.0;
        let b = p.1;
        let q = (b - a) as nat;
        let c = (n - m) as nat;
        let ch = choose_nat(n, k);
        let pr = prod_range(m, n);
        let pa = pow_nat(a, k);
        let pq = pow_nat(q, (n - k) as nat);
        let pb = pow_nat(b, n);

        lemma_fact_split(m, n);
        lemma_choose_fact(n, k);
        lemma_fact_positive(m);
        if m == k {
            assert(fact(k) * fact((n - k) as nat) == fact(m) * fact(c)) by (nonlinear_arith)
                requires
                    m == k,
                    c == (n - k) as nat,
            ;
        } else {
            assert(fact(k) * fact((n - k) as nat) == fact(m) * fact(c)) by (nonlinear_arith)
                requires
                    m == (n - k) as nat,
                    c == k,
            ;
        }
        assert(ch * (fact(m) * fact(c)) == fact(m) * (ch * fact(c))) by (nonlinear_arith);
        assert(fact(m) * (ch * fact(c)) == fact(m) * pr);
        vstd::arithmetic::mul::lemma_mul_equality_converse(
            fact(m) as int,
            (ch * fact(c)) as int,
            pr as int,
        );
        assert(pr == ch * fact(c));
        lemma_pow_nat_adds(b, k, (n - k) as nat);
        assert(pow_nat(b, k) * pow_nat(b, (n - k) as nat) == pb);
        assert((pr * pa) * pq * pb == (ch * pa * pq) * (fact(c) * pb)) by (nonlinear_arith)
            requires
                pr == ch * fact(c),
        ;
        lemma_pow_nat_positive(b, k);
        lemma_pow_nat_positive(b, (n - k) as nat);
        lemma_fact_positive(c);
        assert(fact(c) * (pow_nat(b, k) * pow_nat(b, (n - k) as nat)) >= 1) by (nonlinear_arith)
            requires
                fact(c) >= 1,
                pow_nat(b, k) >= 1,
                pow_nat(b, (n - k) as nat) >= 1,
        ;
    }

    let took = elapsed_micros(&now);
    Ok(SolverResult { probability: Ratio::new(numer, denom), took, iterations: 0 })
}

/// A rational approximation to the square root of
/// `target_numer / target_denom`: the guess is seeded with the integer
/// square roots of numerator and denominator and refined by `iterations`
/// Newton-Raphson steps over least common denominators, halving by dividing
/// the numerator when it is even and doubling the denominator when it is
/// odd. The returned pair equals the exact `iterations`-th Newton iterate as
/// a rational value.
pub fn sqrt(target_numer: BigUint, target_denom: BigUint, iterations: usize) -> (r: (
    BigUint,
    BigUint,
))
    requires
        nat_of(target_numer) >= 1,
        nat_of(target_denom) >= 1,
    ensures
        rat_eq(
            (nat_of(r.0), nat_of(r.1)),
            newton_iter((nat_of(target_numer), nat_of(target_denom)), iterations as nat),
        ),
        nat_of(r.0) >= 1,
        nat_of(r.1) >= 1,
{
    let ghost t = (nat_of(target_numer), nat_of(target_denom));
    let mut guess_top = big_sqrt(&target_numer);
    let mut guess_bot = big_sqrt(&target_denom);
    proof {
        lemma_isqrt_props(t.0);
        lemma_isqrt_props(t.1);
        lemma_isqrt_unique(t.0, nat_of(guess_top), isqrt(t.0));
        lemma_isqrt_unique(t.1, nat_of(guess_bot), isqrt(t.1));
        crate::arith::lemma_isqrt_positive(t.0);
        crate::arith::lemma_isqrt_positive(t.1);
    }
    let mut iter: usize = 0;
    while iter < iterations
        invariant
            iter <= iterations,
            t == (nat_of(target_numer), nat_of(target_denom)),
            rat_pos(t),
            rat_eq((nat_of(guess_top), nat_of(guess_bot)), newton_iter(t, iter as nat)),
            nat_of(guess_top) >= 1,
            nat_of(guess_bot) >= 1,
        decreases iterations - iter,
    {
        let ghost g = (nat_of(guess_top), nat_of(guess_bot));
        let inside_top = big_mul(&target_numer, &guess_bot);
        let inside_bot = big_mul(&target_denom, &guess_top);
        let ghost inside = (nat_of(inside_top), nat_of(inside_bot));
        proof {
            assert(inside.0 >= 1 && inside.1 >= 1) by (nonlinear_arith)
                requires
                    inside == (t.0 * g.1, t.1 * g.0),
                    rat_pos(t),
                    rat_pos(g),
            ;
        }
        let sum = add_ratios_raw_raw(guess_top, guess_bot, inside_top, inside_bot);
        let sum_top = sum.0;
        let sum_bot = sum.1;
        let ghost s = (nat_of(sum_top), nat_of(sum_bot));
        let two = big_from_u64(2);
        if big_is_even(&sum_top) {
            guess_top = big_div(&sum_top, &two);
            guess_bot = sum_bot;
        } else {
            guess_top = sum_top;
            guess_bot = big_mul(&sum_bot, &two);
        }
        proof {
            let h = (nat_of(guess_top), nat_of(guess_bot));
            let halved = (s.0, 2 * s.1);
            if s.0 % 2 == 0 {
                vstd::arithmetic::div_mod::lemma_fundamental_div_mod(s.0 as int, 2);
                assert(h == (s.0 / 2, s.1));
                assert((s.0 / 2) * (2 * s.1) == s.0 * s.1) by (nonlinear_arith)
                    requires
                        s.0 == 2 * (s.0 / 2),
                ;
                assert(rat_eq(h, halved));
                assert(s.0 / 2 >= 1);
            } else {
                assert(h == (s.0, s.1 * 2));
                assert(s.0 * (2 * s.1) == s.0 * (s.1 * 2)) by (nonlinear_arith);
                assert(rat_eq(h, halved));
            }
            let a = rat_add(g, inside);
            let step_g = newton_step(t, g);
            assert(step_g == (a.0, 2 * a.1));
            assert(rat_eq(halved, step_g)) by {
                assert(s.0 * (2 * a.1) == a.0 * (2 * s.1)) by (nonlinear_arith)
                    requires
                        s.0 * a.1 == a.0 * s.1,
                ;
            }
            lemma_rat_eq_trans(h, halved, step_g);
            let prev = newton_iter(t, iter as nat);
            lemma_newton_iter_pos(t, iter as nat);
            lemma_newton_step_congruence(t, g, prev);
            lemma_newton_step_pos(t, g);
            lemma_rat_eq_trans(h, step_g, newton_step(t, prev));
            assert(newton_step(t, prev) == newton_iter(t, (iter + 1) as nat));
        }
        iter = iter + 1;
    }
    (guess_top, guess_bot)
}

/// Numerator of the rational constant standing in for pi, a
/// continued-fraction-derived convergent accurate to well beyond the digits
/// the solver compares.
pub const PI_NUMER: u64 = 30246273033735921;

/// Denominator of the rational constant standing in for pi.
pub const PI_DENOM: u64 = 9627687726852338;

/// The argument handed to the exponential primitive:
/// `(k - np)^2 / (2npq)`, as a pair of non-negative naturals. The difference
/// `k - np` is taken over the common denominator `b` (the outcome count `k`
/// is scaled by `b`) and ordered so that the smaller value is subtracted
/// from the larger, which leaves the square unchanged; both sides carry the
/// spare factor `b^2`, which cancels.
pub open spec fn ml_exponent_arg(n: nat, k: nat, p: (nat, nat)) -> (nat, nat) {
    let q = (p.1 - p.0) as nat;
    let np = n * p.0;
    let two_npq = (2 * np) * q;
    let bb = p.1 * p.1;
    let diff = if k * p.1 >= np {
        (k * p.1 - np) as nat
    } else {
        (np - k * p.1) as nat
    };
    ((diff * diff) * bb, bb * two_npq)
}

/// The argument handed to the square-root primitive: `2 * pi * npq`, as a
/// pair of non-negative naturals.
pub open spec fn ml_root_arg(n: nat, p: (nat, nat)) -> (nat, nat) {
    let q = (p.1 - p.0) as nat;
    let np = n * p.0;
    let two_npq = (2 * np) * q;
    (two_npq * (PI_NUMER as nat), (p.1 * p.1) * (PI_DENOM as nat))
}

/// The Moivre-Laplace approximation at the given iteration budgets:
/// `1 / sqrt(2 pi npq) * e^(-(k - np)^2 / (2npq))`, realized by computing
/// the square root and the (positive) exponential and inverting both, so
/// that every intermediate value stays non-negative.
pub open spec fn ml_pair(n: nat, k: nat, p: (nat, nat), exp_iters: nat, sqrt_iters: nat) -> (
    nat,
    nat,
) {
    let e = taylor_sum(ml_exponent_arg(n, k, p), exp_iters);
    let s = newton_iter(ml_root_arg(n, p), sqrt_iters);
    (s.1 * e.1, s.0 * e.0)
}

/// The inputs on which the Moivre-Laplace solver is defined: at least one
/// trial, a success probability strictly between zero and one (otherwise the
/// variance `npq` is zero and the approximation divides by zero), and at
/// least one exponential term (otherwise the empty sum stands in a
/// denominator).
pub open spec fn valid_moivre_laplace_inputs(n: nat, p: (nat, nat), exp_iters: nat) -> bool {
    n >= 1 && p.0 >= 1 && p.0 < p.1 && exp_iters >= 1
}

/// The truncated Taylor approximation of `e^x` for the rational exponent
/// `exponent_numer / exponent_denom`: the first `iterations` terms
/// `x^i / i!`, accumulated over least common denominators. The returned pair
/// equals the exact cross-multiplied sum as a rational value.
pub fn exp(exponent_numer: BigUint, exponent_denom: BigUint, iterations: usize) -> (r: (
    BigUint,
    BigUint,
))
    requires
        nat_of(exponent_denom) >= 1,
        iterations <= u32::MAX,
    ensures
        rat_eq(
            (nat_of(r.0), nat_of(r.1)),
            taylor_sum((nat_of(exponent_numer), nat_of(exponent_denom)), iterations as nat),
        ),
        nat_of(r.1) >= 1,
        iterations >= 1 ==> nat_of(r.0) >= 1,
{
    let ghost x = (nat_of(exponent_numer), nat_of(exponent_denom));
    let mut acc_numer = big_from_u64(0);
    let mut acc_denom = big_from_u64(1);
    let mut iter: usize = 0;
    while iter < iterations
        invariant
            iter <= iterations,
            iterations <= u32::MAX,
            x == (nat_of(exponent_numer), nat_of(exponent_denom)),
            x.1 >= 1,
            rat_eq((nat_of(acc_numer), nat_of(acc_denom)), taylor_sum(x, iter as nat)),
            nat_of(acc_denom) >= 1,
            iter >= 1 ==> nat_of(acc_numer) >= 1,
        decreases iterations - iter,
    {
        let ghost acc_old = (nat_of(acc_numer), nat_of(acc_denom));
        let term_numer = big_pow(&exponent_numer, iter as u32);
        let pow_denom = big_pow(&exponent_denom, iter as u32);
        let fact_iter = factorial_new(big_from_u64(iter as u64));
        let term_denom = big_mul(&pow_denom, &fact_iter);
        proof {
            lemma_taylor_term_pos(x, iter as nat);
        }
        let sum = add_ratios_raw_raw(acc_numer, acc_denom, term_numer, term_denom);
        acc_numer = sum.0;
        acc_denom = sum.1;
        proof {
            let t = taylor_term(x, iter as nat);
            let prev = taylor_sum(x, iter as nat);
            let acc_new = (nat_of(acc_numer), nat_of(acc_denom));
            lemma_rat_add_congruence_left(acc_old, prev, t);
            assert(acc_old.1 * t.1 >= 1) by (nonlinear_arith)
                requires
                    acc_old.1 >= 1,
                    t.1 >= 1,
            ;
            lemma_rat_eq_trans(acc_new, rat_add(acc_old, t), rat_add(prev, t));
            assert(rat_add(prev, t) == taylor_sum(x, (iter + 1) as nat));
        }
        iter = iter + 1;
    }
    (acc_numer, acc_denom)
}

/// Law: the exact binomial PMF is a probability distribution. Over the
/// common denominator `b^n`, the numerators of `pmf_pair(n, k, p)` for
/// `k = 0..n` sum to exactly `b^n`: the probabilities sum to one as a
/// rational value, for every trial count and every probability in `[0, 1]`.
pub proof fn lemma_pmf_sums_to_one(n: nat, p: (nat, nat))
    requires
        p.1 >= 1,
        p.0 <= p.1,
    ensures
        binom_sum(n, n + 1, p.0, (p.1 - p.0) as nat) == pow_nat(p.1, n),
        rat_eq((binom_sum(n, n + 1, p.0, (p.1 - p.0) as nat), pow_nat(p.1, n)), (1, 1)),
        forall|k: nat|
            k <= n ==> #[trigger] pmf_pair(n, k, p) == (
                binom_term(n, k, p.0, (p.1 - p.0) as nat),
                pow_nat(p.1, n),
            ),
{
    let q = (p.1 - p.0) as nat;
    lemma_binomial_theorem(n, p.0, q);
    assert((p.0 + q) as nat == p.1);
}

/// Law: the exact binomial PMF is symmetric. Swapping successes for
/// failures — `k` for `n - k` and `p` for `1 - p` — leaves the pair
/// unchanged, component for component.
pub proof fn lemma_pmf_symmetry(n: nat, k: nat, p: (nat, nat))
    requires
        k <= n,
        p.0 <= p.1,
    ensures
        pmf_pair(n, k, p) == pmf_pair(n, (n - k) as nat, ((p.1 - p.0) as nat, p.1)),
{
    lemma_choose_symmetry(n, k);
    let a = p.0;
    let q = (p.1 - p.0) as nat;
    let ch = choose_nat(n, k);
    assert(choose_nat(n, (n - k) as nat) == ch);
    assert((p.1 - q) as nat == a);
    assert((n - (n - k) as nat) as nat == k);
    assert(ch * pow_nat(a, k) * pow_nat(q, (n - k) as nat) == ch * pow_nat(q, (n - k) as nat)
        * pow_nat(a, k)) by (nonlinear_arith);
}

/// Law: the truncated exponential series is monotone in its budget — each
/// further Taylor term only adds a non-negative quantity, so the sum can
/// only grow toward the limit.
pub proof fn lemma_taylor_sum_monotone(x: (nat, nat), m: nat)
    requires
        x.1 >= 1,
    ensures
        crate::ratio::rat_le(taylor_sum(x, m), taylor_sum(x, m + 1)),
{
    let s = taylor_sum(x, m);
    let t = taylor_term(x, m);
    assert(taylor_sum(x, m + 1) == rat_add(s, t));
    assert(s.0 * (s.1 * t.1) <= (s.0 * t.1 + t.0 * s.1) * s.1) by (nonlinear_arith);
}

/// From any positive guess, one Newton step lands at or above the true
/// square root: the square of the refined guess is at least the target.
proof fn lemma_newton_step_above(t: (nat, nat), h: (nat, nat))
    requires
        rat_pos(t),
        rat_pos(h),
    ensures
        crate::ratio::rat_le(
            t,
            (
                newton_step(t, h).0 * newton_step(t, h).0,
                newton_step(t, h).1 * newton_step(t, h).1,
            ),
        ),
{
    let g = newton_step(t, h);
    let u = h.0 * (t.1 * h.0);
    let v = (t.0 * h.1) * h.1;
    assert(g.0 == u + v && g.1 == 2 * (h.1 * (t.1 * h.0)));
    assert((u + v) * (u + v) >= 4 * (u * v)) by (nonlinear_arith);
    assert(t.0 * (g.1 * g.1) == 4 * (t.1 * (u * v))) by (nonlinear_arith)
        requires
            g.1 == 2 * (h.1 * (t.1 * h.0)),
            u == h.0 * (t.1 * h.0),
            v == (t.0 * h.1) * h.1,
    ;
    assert((g.0 * g.0) * t.1 >= 4 * (t.1 * (u * v))) by (nonlinear_arith)
        requires
            g.0 == u + v,
            (u + v) * (u + v) >= 4 * (u * v),
    ;
}

/// Law: from the first refinement on, every Newton iterate lies at or above
/// the true square root of the target: its square is at least `t`. Together
/// with `lemma_newton_iter_monotone` this is the monotone convergence of the
/// square-root primitive: the iterates descend toward the root without ever
/// crossing it.
pub proof fn lemma_newton_iter_above(t: (nat, nat), m: nat)
    requires
        rat_pos(t),
        m >= 1,
    ensures
        crate::ratio::rat_le(
            t,
            (
                newton_iter(t, m).0 * newton_iter(t, m).0,
                newton_iter(t, m).1 * newton_iter(t, m).1,
            ),
        ),
{
    let h = newton_iter(t, (m - 1) as nat);
    lemma_newton_iter_pos(t, (m - 1) as nat);
    lemma_newton_step_above(t, h);
}

/// Law: from the first refinement on, the Newton iterates decrease — once
/// the guess is at or above the root, each further step moves it down
/// toward the root, never below it.
pub proof fn lemma_newton_iter_monotone(t: (nat, nat), m: nat)
    requires
        rat_pos(t),
        m >= 1,
    ensures
        crate::ratio::rat_le(newton_iter(t, m + 1), newton_iter(t, m)),
{
    let g = newton_iter(t, m);
    lemma_newton_iter_pos(t, m);
    lemma_newton_iter_above(t, m);
    let s = newton_step(t, g);
    let u = g.0 * (t.1 * g.0);
    let v = (t.0 * g.1) * g.1;
    assert(s.0 == u + v && s.1 == 2 * (g.1 * (t.1 * g.0)));
    assert(s.0 * g.1 <= g.0 * s.1) by (nonlinear_arith)
        requires
            s.0 == u + v,
            s.1 == 2 * (g.1 * (t.1 * g.0)),
            u == g.0 * (t.1 * g.0),
            v == (t.0 * g.1) * g.1,
            t.0 * (g.1 * g.1) <= (g.0 * g.0) * t.1,
    ;
}

/// The two rational arguments the Moivre-Laplace formula hands to the
/// iterative primitives: the (positive) exponent `(k - np)^2 / (2npq)` and
/// the radicand `2 * pi * npq`, each as a numerator/denominator pair.
pub(crate) fn ml_args(experiments: u32, positive_outcomes: u32, positive_probability: Ratio) -> (r:
    (BigUint, BigUint, BigUint, BigUint))
    requires
        experiments >= 1,
        positive_probability@.0 >= 1,
        positive_probability@.0 < positive_probability@.1,
    ensures
        (nat_of(r.0), nat_of(r.1)) == ml_exponent_arg(
            experiments as nat,
            positive_outcomes as nat,
            positive_probability@,
        ),
        (nat_of(r.2), nat_of(r.3)) == ml_root_arg(experiments as nat, positive_probability@),
        nat_of(r.1) >= 1,
        nat_of(r.2) >= 1,
        nat_of(r.3) >= 1,
{
    let ghost n = experiments as nat;
    let ghost k = positive_outcomes as nat;
    let ghost p = positive_probability@;
    let ghost q = (p.1 - p.0) as nat;

    let parts = positive_probability.into_parts();
    let positive_numer = parts.0;
    let prob_denom = parts.1;

    let experiments_big = big_from_u64(experiments as u64);
    let positive_outcomes_big = big_from_u64(positive_outcomes as u64);
    let negative_numer = big_sub(&prob_denom, &positive_numer);

    let np = big_mul(&experiments_big, &positive_numer);
    let two = big_from_u64(2);
    let two_np = big_mul(&two, &np);
    let two_npq_numer = big_mul(&two_np, &negative_numer);
    let two_npq_denom = big_mul(&prob_denom, &prob_denom);

    // k and np share the denominator b once k is scaled by it; the safe
    // difference never underflows, and squaring erases its sign.
    let scaled_positive_outcomes = big_mul(&positive_outcomes_big, &prob_denom);
    let diff = crate::ratio::abs_diff(&scaled_positive_outcomes, &np).0;
    let diff_sq = big_mul(&diff, &diff);
    let exp_numer = big_mul(&diff_sq, &two_npq_denom);
    let exp_denom = big_mul(&two_npq_denom, &two_npq_numer);

    let pi_numer = big_from_u64(PI_NUMER);
    let pi_denom = big_from_u64(PI_DENOM);
    let root_numer = big_mul(&two_npq_numer, &pi_numer);
    let root_denom = big_mul(&two_npq_denom, &pi_denom);

    proof {
        assert((p.1 * p.1) * ((2 * (n * p.0)) * q) >= 1) by (nonlinear_arith)
            requires
                n >= 1,
                p.0 >= 1,
                q >= 1,
                p.1 >= 1,
        ;
        assert((nat_of(exp_numer), nat_of(exp_denom)) == ml_exponent_arg(n, k, p));
        assert(((2 * (n * p.0)) * q) * (PI_NUMER as nat) >= 1 && (p.1 * p.1) * (PI_DENOM as nat)
            >= 1) by (nonlinear_arith)
            requires
                n >= 1,
                p.0 >= 1,
                q >= 1,
                p.1 >= 1,
        ;
        assert((nat_of(root_numer), nat_of(root_denom)) == ml_root_arg(n, p));
    }

    (exp_numer, exp_denom, root_numer, root_denom)
}

/// The Moivre-Laplace approximation has positive numerator and denominator
/// whenever its inputs are valid.
pub proof fn lemma_ml_pair_pos(n: nat, k: nat, p: (nat, nat), exp_iters: nat, sqrt_iters: nat)
    requires
        valid_moivre_laplace_inputs(n, p, exp_iters),
    ensures
        ml_pair(n, k, p, exp_iters, sqrt_iters).0 >= 1,
        ml_pair(n, k, p, exp_iters, sqrt_iters).1 >= 1,
{
    let q = (p.1 - p.0) as nat;
    let earg = ml_exponent_arg(n, k, p);
    let root = ml_root_arg(n, p);
    assert((p.1 * p.1) * ((2 * (n * p.0)) * q) >= 1 && ((2 * (n * p.0)) * q) * (PI_NUMER as nat)
        >= 1 && (p.1 * p.1) * (PI_DENOM as nat) >= 1) by (nonlinear_arith)
        requires
            n >= 1,
            p.0 >= 1,
            q >= 1,
            p.1 >= 1,
    ;
    lemma_taylor_sum_pos(earg, exp_iters);
    lemma_newton_iter_pos(root, sqrt_iters);
    let e = taylor_sum(earg, exp_iters);
    let s = newton_iter(root, sqrt_iters);
    assert(s.1 * e.1 >= 1 && s.0 * e.0 >= 1) by (nonlinear_arith)
        requires
            s.0 >= 1,
            s.1 >= 1,
            e.0 >= 1,
            e.1 >= 1,
    ;
}

/// The Moivre-Laplace solver at fixed iteration budgets: the normal
/// approximation `1 / sqrt(2 pi npq) * e^(-(k - np)^2 / (2npq))` to the
/// binomial PMF, with pi supplied as a fixed rational constant, the
/// square root and exponential taken by the iterative primitives above, and
/// the negative exponent realized by inverting the rational afterward so
/// that all intermediate arithmetic stays on non-negative values.
pub fn moivre_laplace(
    experiments: u32,
    positive_outcomes: u32,
    positive_probability: Ratio,
    exponentiation_iterations: usize,
    square_root_iterations: usize,
) -> (r: SolverResult)
    requires
        valid_moivre_laplace_inputs(
            experiments as nat,
            positive_probability@,
            exponentiation_iterations as nat,
        ),
        exponentiation_iterations <= u32::MAX,
    ensures
        rat_eq(
            r.probability@,
            ml_pair(
                experiments as nat,
                positive_outcomes as nat,
                positive_probability@,
                exponentiation_iterations as nat,
                square_root_iterations as nat,
            ),
        ),
        r.probability.wf(),
        r.iterations == exponentiation_iterations as u32,
{
    let now = instant_now();
    let ghost n = experiments as nat;
    let ghost k = positive_outcomes as nat;
    let ghost p = positive_probability@;

    let args = ml_args(experiments, positive_outcomes, positive_probability);
    let e = exp(args.0, args.1, exponentiation_iterations);

    // The square root's numerator and denominator trade places: the formula
    // needs one over the root, and likewise one over the exponential.
    let s = sqrt(args.2, args.3, square_root_iterations);
    let left_denom = s.0;
    let left_numer = s.1;

    let prob_numer = big_mul(&left_numer, &e.1);
    let prob_denom_out = big_mul(&left_denom, &e.0);

    proof {
        let se = (nat_of(left_denom), nat_of(left_numer));
        let ee = (nat_of(e.0), nat_of(e.1));
        let ss = newton_iter(ml_root_arg(n, p), square_root_iterations as nat);
        let es = taylor_sum(ml_exponent_arg(n, k, p), exponentiation_iterations as nat);
        crate::ratio::lemma_rat_inv_congruence(se, ss);
        crate::ratio::lemma_rat_inv_congruence(ee, es);
        crate::ratio::lemma_rat_mul_congruence(
            crate::ratio::rat_inv(se),
            crate::ratio::rat_inv(ss),
            crate::ratio::rat_inv(ee),
            crate::ratio::rat_inv(es),
        );
        assert((nat_of(prob_numer), nat_of(prob_denom_out)) == crate::ratio::rat_mul(
            crate::ratio::rat_inv(se),
            crate::ratio::rat_inv(ee),
        ));
        assert(ml_pair(
            n,
            k,
            p,
            exponentiation_iterations as nat,
            square_root_iterations as nat,
        ) == crate::ratio::rat_mul(crate::ratio::rat_inv(ss), crate::ratio::rat_inv(es)));
        assert(nat_of(prob_denom_out) >= 1) by (nonlinear_arith)
            requires
                nat_of(prob_denom_out) == nat_of(left_denom) * nat_of(e.0),
                nat_of(left_denom) >= 1,
                nat_of(e.0) >= 1,
        ;
    }

    let took = elapsed_micros(&now);
    SolverResult {
        probability: Ratio::new(prob_numer, prob_denom_out),
        took,
        iterations: exponentiation_iterations as u32,
    }
}

} // verus!
