//! Exact rational-arithmetic engine that computes the probability of seeing
//! exactly `k` successes in `n` independent trials two ways: the binomial
//! probability mass function evaluated exactly, and the normal
//! (Moivre-Laplace) approximation evaluated in rational arithmetic with
//! iterative square-root and exponential primitives.

use vstd::prelude::*;

pub mod adaptive;
pub mod arith;
pub mod bigint;
pub mod cfrac;
pub mod clock;
pub mod ratio;
pub mod solver;

use crate::adaptive::{moivre_laplace_adaptive, stops_at};
use crate::bigint::{big_from_u64, big_le};
use crate::ratio::{rat_eq, Ratio};
use crate::solver::{
    bernoulli, ml_pair, moivre_laplace, pmf_pair, valid_bernoulli_request, SolverError,
    SolverResult,
};

verus! {

/// One solver invocation, as the surrounding system hands it over: the trial
/// count, the required success count, the success odds, and the tuning knobs
/// of the two iterative primitives. `iterations` is the Taylor budget of the
/// fixed mode; `precision`, `stable_amount` and `max_iterations` drive the
/// adaptive mode.
pub struct SolverRequest {
    pub total: u32,
    pub required: u32,
    pub odds: Ratio,
    pub iterations: usize,
    pub stable_amount: usize,
    pub precision: usize,
    pub sqrt_iterations: usize,
    pub max_iterations: u32,
}

/// How the Moivre-Laplace solver picks its Taylor budget: a fixed term
/// count, or adaptively by watching the leading digits stabilize.
#[derive(Clone, Copy, Debug, PartialEq, Eq, Structural)]
pub enum MoivreLaplaceMode {
    Normal,
    AutomaticIterations,
}

/// The exact binomial solver, as the worker transport sees it.
pub struct BernoulliSolver;

/// The normal-approximation solver, as the worker transport sees it.
pub struct MoivreLaplaceSolver;

/// The inputs on which the Moivre-Laplace solver works: at least one trial,
/// odds strictly between zero and one (a degenerate probability gives the
/// normal approximation a zero variance to divide by), a fixed budget of at
/// least one term in fixed mode, and knobs that fit the machine's exponent
/// width.
pub open spec fn valid_moivre_laplace_request(req: SolverRequest, mode: MoivreLaplaceMode) -> bool {
    &&& req.required <= req.total
    &&& req.total >= 1
    &&& req.odds@.0 >= 1
    &&& req.odds@.0 < req.odds@.1
    &&& (mode is Normal ==> 1 <= req.iterations <= u32::MAX)
    &&& (mode is AutomaticIterations ==> req.precision <= u32::MAX)
}

impl BernoulliSolver {
    /// Handles one request: checks it and runs the exact solver.
    pub fn solve(req: SolverRequest) -> (r: Result<SolverResult, SolverError>)
        ensures
            r is Ok <==> valid_bernoulli_request(req.total as nat, req.required as nat, req.odds@),
            match r {
                Ok(res) => {
                    &&& rat_eq(
                        res.probability@,
                        pmf_pair(req.total as nat, req.required as nat, req.odds@),
                    )
                    &&& res.probability.wf()
                    &&& res.iterations == 0
                },
                Err(e) => e == SolverError::InvalidParameter,
            },
    {
        bernoulli(req.total, req.required, req.odds)
    }
}

impl MoivreLaplaceSolver {
    /// Handles one request: checks it, then runs the fixed-budget solver or
    /// the adaptive driver, as the mode asks.
    pub fn solve(mode: MoivreLaplaceMode, req: SolverRequest) -> (r: Result<
        SolverResult,
        SolverError,
    >)
        ensures
            !valid_moivre_laplace_request(req, mode) <==> (r matches Err(e) && e
                == SolverError::InvalidParameter),
            mode is Normal && valid_moivre_laplace_request(req, mode) ==> (r matches Ok(res) && {
                &&& rat_eq(
                    res.probability@,
                    ml_pair(
                        req.total as nat,
                        req.required as nat,
                        req.odds@,
                        req.iterations as nat,
                        req.sqrt_iterations as nat,
                    ),
                )
                &&& res.probability.wf()
                &&& res.iterations == req.iterations as u32
            }),
            mode is AutomaticIterations && valid_moivre_laplace_request(req, mode) ==> match r {
                Ok(res) => {
                    &&& 2 <= res.iterations <= req.max_iterations
                    &&& stops_at(
                        req.total as nat,
                        req.required as nat,
                        req.odds@,
                        req.sqrt_iterations as nat,
                        req.precision as nat,
                        req.stable_amount as nat,
                        res.iterations as nat,
                    )
                    &&& forall|j: nat|
                        2 <= j < res.iterations as nat ==> !stops_at(
                            req.total as nat,
                            req.required as nat,
                            req.odds@,
                            req.sqrt_iterations as nat,
                            req.precision as nat,
                            req.stable_amount as nat,
                            j,
                        )
                    &&& rat_eq(
                        res.probability@,
                        ml_pair(
                            req.total as nat,
                            req.required as nat,
                            req.odds@,
                            res.iterations as nat,
                            req.sqrt_iterations as nat,
                        ),
                    )
                    &&& res.probability.wf()
                },
                Err(e) => {
                    &&& e == SolverError::NonConvergence
                    &&& forall|j: nat|
                        2 <= j <= req.max_iterations as nat ==> !stops_at(
                            req.total as nat,
                            req.required as nat,
                            req.odds@,
                            req.sqrt_iterations as nat,
                            req.precision as nat,
                            req.stable_amount as nat,
                            j,
                        )
                },
            },
    {
        if req.required > req.total || req.total < 1 {
            return Err(SolverError::InvalidParameter);
        }
        let one = big_from_u64(1);
        if !big_le(&one, req.odds.numer()) {
            return Err(SolverError::InvalidParameter);
        }
        if big_le(req.odds.denom(), req.odds.numer()) {
            return Err(SolverError::InvalidParameter);
        }
        match mode {
            MoivreLaplaceMode::Normal => {
                if req.iterations < 1 {
                    return Err(SolverError::InvalidParameter);
                }
                if req.iterations > u32::MAX as usize {
                    return Err(SolverError::InvalidParameter);
                }
                Ok(
                    moivre_laplace(
                        req.total,
                        req.required,
                        req.odds,
                        req.iterations,
                        req.sqrt_iterations,
                    ),
                )
            },
            MoivreLaplaceMode::AutomaticIterations => {
                if req.precision > u32::MAX as usize {
                    return Err(SolverError::InvalidParameter);
                }
                moivre_laplace_adaptive(
                    req.total,
                    req.required,
                    req.odds,
                    req.sqrt_iterations,
                    req.precision,
                    req.stable_amount,
                    req.max_iterations,
                )
            },
        }
    }
}

} // verus!
