//! The adaptive convergence driver: instead of a fixed Taylor budget, the
//! Moivre-Laplace probability is re-derived after every new series term and
//! rendered as decimal digits; once the leading significant digits agree
//! with the previous refinement the driver stops. The loop is capped: a
//! request whose digits never stabilize ends in a `NonConvergence` error
//! rather than running forever.

use vstd::prelude::*;

use crate::bigint::{big_from_u64, big_mul, big_pow, nat_of};
use crate::clock::{elapsed_micros, instant_now};
use crate::ratio::{
    add_ratios_raw_raw, frac_digit, frac_digits, lemma_frac_digits_eq,
    lemma_rat_add_congruence_left, lemma_rat_eq_trans, lemma_rat_inv_congruence,
    lemma_rat_mul_congruence, rat_add, rat_eq, rat_inv, rat_mul, Ratio,
};
use crate::solver::{
    factorial_new, lemma_ml_pair_pos, lemma_taylor_term_pos, ml_args, ml_exponent_arg, ml_pair,
    ml_root_arg, newton_iter, sqrt, taylor_sum, taylor_term, SolverError, SolverResult,
};

verus! {

/// The position of the first nonzero entry of `s`, or `s.len()` when every
/// entry is zero.
pub open spec fn first_nonzero(s: Seq<nat>) -> int
    decreases s.len(),
{
    if s.len() == 0 {
        0
    } else if s[0] != 0 {
        0
    } else {
        1 + first_nonzero(s.subrange(1, s.len() as int))
    }
}

pub proof fn lemma_first_nonzero_bounds(s: Seq<nat>)
    ensures
        0 <= first_nonzero(s) <= s.len(),
        forall|i: int| 0 <= i < first_nonzero(s) ==> s[i] == 0,
        first_nonzero(s) < s.len() ==> s[first_nonzero(s)] != 0,
    decreases s.len(),
{
    if s.len() == 0 {
    } else if s[0] != 0 {
    } else {
        let tail = s.subrange(1, s.len() as int);
        lemma_first_nonzero_bounds(tail);
        assert forall|i: int| 0 <= i < first_nonzero(s) implies s[i] == 0 by {
            if i >= 1 {
                assert(tail[i - 1] == s[i]);
            }
        }
        if first_nonzero(s) < s.len() {
            assert(s[first_nonzero(s)] == tail[first_nonzero(tail)]);
        }
    }
}

/// Any position before which everything is zero, and which itself is nonzero
/// or the end, is the first nonzero.
pub proof fn lemma_first_nonzero_unique(s: Seq<nat>, z: int)
    requires
        0 <= z <= s.len(),
        forall|i: int| 0 <= i < z ==> s[i] == 0,
        z < s.len() ==> s[z] != 0,
    ensures
        z == first_nonzero(s),
{
    lemma_first_nonzero_bounds(s);
    let f = first_nonzero(s);
    if z < f {
        assert(s[z] == 0);
        assert(s[z] != 0);
    } else if f < z {
        assert(s[f] != 0);
        assert(s[f] == 0);
    }
}

/// Where the compared digit window ends: `width` digits past `z`, clipped to
/// the end of the expansion.
pub open spec fn window_end(z: int, width: nat, len: int) -> int {
    if z + width <= len {
        z + width
    } else {
        len
    }
}

/// The convergence heuristic: the current expansion has a significant digit,
/// the previous expansion's first significant digit sits at the same
/// position, and the `width` digits from that position onward agree.
pub open spec fn digits_stable(prev: Seq<nat>, cur: Seq<nat>, width: nat) -> bool {
    let z = first_nonzero(cur);
    &&& prev.len() == cur.len()
    &&& z < cur.len()
    &&& first_nonzero(prev) == z
    &&& forall|i: int| z <= i < window_end(z, width, cur.len() as int) ==> prev[i] == cur[i]
}

/// The digits the driver compares after `m` series terms.
pub open spec fn ml_digits(n: nat, k: nat, p: (nat, nat), si: nat, prec: nat, m: nat) -> Seq<
    nat,
> {
    frac_digits(ml_pair(n, k, p, m, si), prec)
}

/// Whether the driver's stopping rule fires at the `m`-th refinement: the
/// rendered digits after `m` terms are stable against those after `m - 1`
/// terms. The first comparison is possible at the second term.
pub open spec fn stops_at(
    n: nat,
    k: nat,
    p: (nat, nat),
    si: nat,
    prec: nat,
    width: nat,
    m: nat,
) -> bool {
    m >= 2 && digits_stable(
        ml_digits(n, k, p, si, prec, (m - 1) as nat),
        ml_digits(n, k, p, si, prec, m),
        width,
    )
}

/// The index of the first nonzero digit, or the length when all are zero.
fn scan_first_nonzero(digits: &Vec<u8>) -> (z: usize)
    ensures
        z <= digits@.len(),
        forall|i: int| 0 <= i < z as int ==> digits@[i] == 0,
        z < digits@.len() ==> digits@[z as int] != 0,
{
    let mut j: usize = 0;
    while j < digits.len()
        invariant
            j <= digits@.len(),
            forall|i: int| 0 <= i < j as int ==> digits@[i] == 0,
        decreases digits@.len() - j,
    {
        if digits[j] != 0 {
            return j;
        }
        j = j + 1;
    }
    j
}

/// Whether the digits of both expansions agree from `start` on, over a
/// window of `width` digits clipped at the end.
fn windows_equal(prev: &Vec<u8>, cur: &Vec<u8>, start: usize, width: usize) -> (r: bool)
    requires
        prev@.len() == cur@.len(),
        start <= cur@.len(),
    ensures
        r == (forall|i: int|
            start as int <= i < window_end(start as int, width as nat, cur@.len() as int)
                ==> prev@[i] == cur@[i]),
{
    let len = cur.len();
    let end = if len - start < width {
        len
    } else {
        start + width
    };
    let mut j = start;
    while j < end
        invariant
            start <= j <= end,
            end == window_end(start as int, width as nat, cur@.len() as int),
            prev@.len() == cur@.len(),
            end <= cur@.len(),
            forall|i: int| start as int <= i < j as int ==> prev@[i] == cur@[i],
        decreases end - j,
    {
        if prev[j] != cur[j] {
            return false;
        }
        j = j + 1;
    }
    true
}

/// The adaptive Moivre-Laplace driver. It extends the Taylor series of the
/// exponential one term at a time, re-derives the full probability after
/// each new term, and renders it at `precision` fractional digits. Whenever
/// the position of the first significant digit matches the previous
/// refinement, the `stable_amount` digits from that position are compared;
/// if the whole window is unchanged, the driver declares convergence and
/// returns the current probability together with the number of terms
/// consumed. A refinement without any significant digit never counts as
/// stable. If no refinement up to `max_iterations` stabilizes, the driver
/// stops with `NonConvergence` instead of iterating forever. The stability
/// window is a heuristic, not an error bound: nothing relates the digits it
/// fixes to the limit of the series.
pub fn moivre_laplace_adaptive(
    experiments: u32,
    positive_outcomes: u32,
    positive_probability: Ratio,
    square_root_iterations: usize,
    precision: usize,
    stable_amount: usize,
    max_iterations: u32,
) -> (r: Result<SolverResult, SolverError>)
    requires
        experiments >= 1,
        positive_probability@.0 >= 1,
        positive_probability@.0 < positive_probability@.1,
        precision <= u32::MAX,
    ensures
        match r {
            Ok(res) => {
                &&& 2 <= res.iterations <= max_iterations
                &&& stops_at(
                    experiments as nat,
                    positive_outcomes as nat,
                    positive_probability@,
                    square_root_iterations as nat,
                    precision as nat,
                    stable_amount as nat,
                    res.iterations as nat,
                )
                &&& forall|j: nat|
                    2 <= j < res.iterations as nat ==> !stops_at(
                        experiments as nat,
                        positive_outcomes as nat,
                        positive_probability@,
                        square_root_iterations as nat,
                        precision as nat,
                        stable_amount as nat,
                        j,
                    )
                &&& rat_eq(
                    res.probability@,
                    ml_pair(
                        experiments as nat,
                        positive_outcomes as nat,
                        positive_probability@,
                        res.iterations as nat,
                        square_root_iterations as nat,
                    ),
                )
                &&& res.probability.wf()
            },
            Err(e) => {
                &&& e == SolverError::NonConvergence
                &&& forall|j: nat|
                    2 <= j <= max_iterations as nat ==> !stops_at(
                        experiments as nat,
                        positive_outcomes as nat,
                        positive_probability@,
                        square_root_iterations as nat,
                        precision as nat,
                        stable_amount as nat,
                        j,
                    )
            },
        },
{
    let now = instant_now();
    let ghost n = experiments as nat;
    let ghost k = positive_outcomes as nat;
    let ghost p = positive_probability@;
    let ghost si = square_root_iterations as nat;
    let ghost prec = precision as nat;
    let ghost width = stable_amount as nat;

    let args = ml_args(experiments, positive_outcomes, positive_probability);
    let exp_numer = args.0;
    let exp_denom = args.1;
    let ghost earg = (nat_of(exp_numer), nat_of(exp_denom));

    let s = sqrt(args.2, args.3, square_root_iterations);
    let ghost se = (nat_of(s.0), nat_of(s.1));

    let mut acc_numer = big_from_u64(0);
    let mut acc_denom = big_from_u64(1);
    let mut m: u32 = 0;
    let mut prev_digits: Vec<u8> = Vec::new();

    while m < max_iterations
        invariant
            m <= max_iterations,
            n >= 1 && p.0 >= 1 && p.0 < p.1,
            n == experiments as nat,
            k == positive_outcomes as nat,
            p == positive_probability@,
            si == square_root_iterations as nat,
            prec == precision as nat,
            width == stable_amount as nat,
            precision <= u32::MAX,
            earg == ml_exponent_arg(n, k, p),
            earg == (nat_of(exp_numer), nat_of(exp_denom)),
            earg.1 >= 1,
            se == (nat_of(s.0), nat_of(s.1)),
            rat_eq(se, newton_iter(ml_root_arg(n, p), si)),
            se.0 >= 1 && se.1 >= 1,
            rat_eq((nat_of(acc_numer), nat_of(acc_denom)), taylor_sum(earg, m as nat)),
            nat_of(acc_denom) >= 1,
            m >= 1 ==> nat_of(acc_numer) >= 1,
            m >= 1 ==> prev_digits@.len() == prec,
            m >= 1 ==> forall|i: int|
                0 <= i < prec ==> prev_digits@[i] as nat == ml_digits(n, k, p, si, prec, m as nat)[i],
            forall|j: nat| 2 <= j <= m as nat ==> !stops_at(n, k, p, si, prec, width, j),
        decreases max_iterations - m,
    {
        // Extend the series by its next term, x^m / m!.
        let ghost acc_old = (nat_of(acc_numer), nat_of(acc_denom));
        let term_numer = big_pow(&exp_numer, m);
        let pow_denom = big_pow(&exp_denom, m);
        let fact_m = factorial_new(big_from_u64(m as u64));
        let term_denom = big_mul(&pow_denom, &fact_m);
        proof {
            lemma_taylor_term_pos(earg, m as nat);
        }
        let sum = add_ratios_raw_raw(acc_numer, acc_denom, term_numer, term_denom);
        acc_numer = sum.0;
        acc_denom = sum.1;
        m = m + 1;
        proof {
            let t = taylor_term(earg, (m - 1) as nat);
            let prev_sum = taylor_sum(earg, (m - 1) as nat);
            let acc_new = (nat_of(acc_numer), nat_of(acc_denom));
            lemma_rat_add_congruence_left(acc_old, prev_sum, t);
            assert(acc_old.1 * t.1 >= 1) by (nonlinear_arith)
                requires
                    acc_old.1 >= 1,
                    t.1 >= 1,
            ;
            lemma_rat_eq_trans(acc_new, rat_add(acc_old, t), rat_add(prev_sum, t));
            assert(rat_add(prev_sum, t) == taylor_sum(earg, m as nat));
        }

        // Re-derive the probability at the current budget; both the square
        // root and the exponential stand inverted in the formula.
        let prob_numer = big_mul(&s.1, &acc_denom);
        let prob_denom = big_mul(&s.0, &acc_numer);
        proof {
            assert(nat_of(prob_denom) >= 1) by (nonlinear_arith)
                requires
                    nat_of(prob_denom) == se.0 * nat_of(acc_numer),
                    se.0 >= 1,
                    nat_of(acc_numer) >= 1,
            ;
        }
        let probability = Ratio::new(prob_numer, prob_denom);
        proof {
            let ee = (nat_of(acc_numer), nat_of(acc_denom));
            let es = taylor_sum(earg, m as nat);
            let ss = newton_iter(ml_root_arg(n, p), si);
            lemma_rat_inv_congruence(se, ss);
            lemma_rat_inv_congruence(ee, es);
            lemma_rat_mul_congruence(rat_inv(se), rat_inv(ss), rat_inv(ee), rat_inv(es));
            assert(probability@ == rat_mul(rat_inv(se), rat_inv(ee)));
            assert(ml_pair(n, k, p, m as nat, si) == rat_mul(rat_inv(ss), rat_inv(es)));
            lemma_ml_pair_pos(n, k, p, m as nat, si);
            lemma_frac_digits_eq(probability@, ml_pair(n, k, p, m as nat, si), prec);
        }
        let digits = probability.decimal_digits(precision);
        proof {
            assert forall|i: int| 0 <= i < prec implies digits@[i] as nat == ml_digits(
                n,
                k,
                p,
                si,
                prec,
                m as nat,
            )[i] by {
                assert(digits@[i] as nat == frac_digit(probability@, prec, i as nat));
                assert(frac_digits(probability@, prec)[i] == frac_digit(probability@, prec, i as nat));
            }
        }

        if m >= 2 {
            let ghost cur_spec = ml_digits(n, k, p, si, prec, m as nat);
            let ghost prev_spec = ml_digits(n, k, p, si, prec, (m - 1) as nat);
            let z_cur = scan_first_nonzero(&digits);
            let z_prev = scan_first_nonzero(&prev_digits);
            proof {
                assert(cur_spec.len() == prec && prev_spec.len() == prec);
                assert forall|i: int| 0 <= i < z_cur as int implies cur_spec[i] == 0 by {
                    assert(digits@[i] == 0);
                }
                if z_cur < precision {
                    assert(cur_spec[z_cur as int] != 0);
                }
                lemma_first_nonzero_unique(cur_spec, z_cur as int);
                assert forall|i: int| 0 <= i < z_prev as int implies prev_spec[i] == 0 by {
                    assert(prev_digits@[i] == 0);
                }
                if z_prev < precision {
                    assert(prev_spec[z_prev as int] != 0);
                }
                lemma_first_nonzero_unique(prev_spec, z_prev as int);
            }
            if z_cur < precision && z_prev == z_cur {
                if windows_equal(&prev_digits, &digits, z_cur, stable_amount) {
                    proof {
                        assert forall|i: int|
                            z_cur as int <= i < window_end(
                                z_cur as int,
                                width,
                                prec as int,
                            ) implies prev_spec[i] == cur_spec[i] by {
                            assert(prev_digits@[i] == digits@[i]);
                        }
                        assert(digits_stable(prev_spec, cur_spec, width));
                        assert(stops_at(n, k, p, si, prec, width, m as nat));
                    }
                    let took = elapsed_micros(&now);
                    return Ok(SolverResult { probability, took, iterations: m });
                }
                proof {
                    let e = window_end(z_cur as int, width, prec as int);
                    assert(!(forall|i: int|
                        z_cur as int <= i < e ==> prev_digits@[i] == digits@[i]));
                    let w = choose|i: int|
                        z_cur as int <= i < e && prev_digits@[i] != digits@[i];
                    assert(prev_spec[w] != cur_spec[w]);
                    assert(!digits_stable(prev_spec, cur_spec, width));
                }
            } else {
                proof {
                    assert(!digits_stable(prev_spec, cur_spec, width));
                }
            }
            proof {
                assert forall|j: nat| 2 <= j <= m as nat implies !stops_at(
                    n,
                    k,
                    p,
                    si,
                    prec,
                    width,
                    j,
                ) by {
                    if j == m as nat {
                        assert(!digits_stable(prev_spec, cur_spec, width));
                    }
                }
            }
        }
        prev_digits = digits;
    }
    Err(SolverError::NonConvergence)
}

} // verus!
